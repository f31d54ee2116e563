use vstd::prelude::*;

verus! {

/// What the command line asks for.
pub struct Args {
    pub command: Commands,
}

pub enum Commands {
    /// Decode a bencoded string given on the command line.
    Decode { encoded_value: String },
    /// Show the metadata of a torrent file.
    Info { torrent_file: String },
}

} // verus!
