use vstd::prelude::*;
use vstd::slice::slice_to_vec;
use vstd::utf8::{decode_utf8, encode_utf8, valid_utf8};

use sha1::Digest;

use crate::dict::bytes_equal;
use crate::encode::encode;
use crate::error::{data_format, text_of, BencodeError};
use crate::grammar::{canonical, dict_parts, enc, enc_bytes, lex_lt, parse, Fault};
use crate::laws::decode_of_encoding;
use crate::order::lemma_lex_lt_ne;
use crate::value::{dict_model, lemma_dict_model, Bencode, Value};

verus! {

pub open spec fn announce_key() -> Seq<u8> {
    seq![97u8, 110, 110, 111, 117, 110, 99, 101]
}

pub open spec fn info_key() -> Seq<u8> {
    seq![105u8, 110, 102, 111]
}

pub open spec fn length_key() -> Seq<u8> {
    seq![108u8, 101, 110, 103, 116, 104]
}

pub open spec fn name_key() -> Seq<u8> {
    seq![110u8, 97, 109, 101]
}

pub open spec fn piece_length_key() -> Seq<u8> {
    seq![112u8, 105, 101, 99, 101, 32, 108, 101, 110, 103, 116, 104]
}

pub open spec fn pieces_key() -> Seq<u8> {
    seq![112u8, 105, 101, 99, 101, 115]
}

/// The value of the first entry with key `k`, looking from index `i` on.
pub open spec fn lookup(d: Seq<(Seq<u8>, Bencode)>, k: Seq<u8>, i: int) -> Option<Bencode>
    decreases d.len() - i,
{
    if 0 <= i < d.len() {
        if d[i].0 == k {
            Some(d[i].1)
        } else {
            lookup(d, k, i + 1)
        }
    } else {
        None
    }
}

pub open spec fn bytes_field(d: Seq<(Seq<u8>, Bencode)>, k: Seq<u8>) -> Option<Seq<u8>> {
    match lookup(d, k, 0) {
        Some(Bencode::Bytes(b)) => Some(b),
        _ => None,
    }
}

pub open spec fn text_field(d: Seq<(Seq<u8>, Bencode)>, k: Seq<u8>) -> Option<Seq<char>> {
    match bytes_field(d, k) {
        Some(b) => if valid_utf8(b) {
            Some(decode_utf8(b))
        } else {
            None
        },
        None => None,
    }
}

pub open spec fn int_field(d: Seq<(Seq<u8>, Bencode)>, k: Seq<u8>) -> Option<int> {
    match lookup(d, k, 0) {
        Some(Bencode::Int(n)) => Some(n),
        _ => None,
    }
}

/// The metadata a decoded value holds: announce URL, length, name, piece
/// length and piece hashes; none where a field is missing, has the wrong type
/// or an invalid value.
pub open spec fn project(m: Bencode) -> Option<(Seq<char>, int, Seq<char>, int, Seq<u8>)> {
    match m {
        Bencode::Dict(d) => match (text_field(d, announce_key()), lookup(d, info_key(), 0)) {
            (Some(a), Some(Bencode::Dict(di))) => match (
                int_field(di, length_key()),
                text_field(di, name_key()),
                int_field(di, piece_length_key()),
                bytes_field(di, pieces_key()),
            ) {
                (Some(len), Some(name), Some(pl), Some(pc)) => if len >= 0 && pl > 0 && pc.len()
                    % 20 == 0 {
                    Some((a, len, name, pl, pc))
                } else {
                    None
                },
                _ => None,
            },
            _ => None,
        },
        _ => None,
    }
}

pub const NOT_DICT: &'static str = "torrent metadata must be a bencoded dictionary.";

pub const NO_ANNOUNCE: &'static str = "missing or invalid `announce` field.";

pub const NO_INFO: &'static str = "missing or invalid `info` dictionary.";

pub const NO_LENGTH: &'static str = "missing or invalid `length` field.";

pub const NO_NAME: &'static str = "missing or invalid `name` field.";

pub const NO_PIECE_LENGTH: &'static str = "missing or invalid `piece length` field.";

pub const NO_PIECES: &'static str = "missing or invalid `pieces` field.";

pub const NEGATIVE_LENGTH: &'static str = "the `length` field must not be negative.";

pub const BAD_PIECE_LENGTH: &'static str = "the `piece length` field must be positive.";

pub const PARTIAL_PIECES: &'static str =
    "the `pieces` field must be a whole number of 20-byte digests.";

/// The message naming the first field, in reading order, that `project`
/// finds missing, mistyped or invalid.
pub open spec fn project_message(m: Bencode) -> Seq<char> {
    match m {
        Bencode::Dict(d) => if text_field(d, announce_key()) is None {
            NO_ANNOUNCE@
        } else {
            match lookup(d, info_key(), 0) {
                Some(Bencode::Dict(di)) => if int_field(di, length_key()) is None {
                    NO_LENGTH@
                } else if text_field(di, name_key()) is None {
                    NO_NAME@
                } else if int_field(di, piece_length_key()) is None {
                    NO_PIECE_LENGTH@
                } else if bytes_field(di, pieces_key()) is None {
                    NO_PIECES@
                } else if int_field(di, length_key())->Some_0 < 0 {
                    NEGATIVE_LENGTH@
                } else if int_field(di, piece_length_key())->Some_0 <= 0 {
                    BAD_PIECE_LENGTH@
                } else {
                    PARTIAL_PIECES@
                },
                _ => NO_INFO@,
            }
        },
        _ => NOT_DICT@,
    }
}

/// The `info` dictionary of a torrent.
#[derive(Debug, PartialEq)]
pub struct TorrentInfo {
    /// Size of the file in bytes.
    pub length: i64,
    pub name: String,
    /// Bytes in each piece but possibly the last.
    pub piece_length: i64,
    /// The pieces' SHA-1 digests, 20 bytes each, in piece order.
    pub pieces: Vec<u8>,
}

/// Torrent metadata.
#[derive(Debug, PartialEq)]
pub struct Torrent {
    /// Tracker URL, verbatim.
    pub announce: String,
    pub info: TorrentInfo,
}

/// The `info` dictionary as a value, with its keys in ascending order.
pub open spec fn info_model(i: TorrentInfo) -> Bencode {
    Bencode::Dict(
        seq![
            (length_key(), Bencode::Int(i.length as int)),
            (name_key(), Bencode::Bytes(encode_utf8(i.name@))),
            (piece_length_key(), Bencode::Int(i.piece_length as int)),
            (pieces_key(), Bencode::Bytes(i.pieces@)),
        ],
    )
}

/// What SHA-1 gives for a byte string.
pub uninterp spec fn sha1_of(data: Seq<u8>) -> Seq<u8>;

/// Relies on `sha1::Sha1::digest`: the SHA-1 digest of `data`, which is 20
/// bytes long.
#[verifier::external_body]
fn sha1_digest(data: &[u8]) -> (r: Vec<u8>)
    ensures
        r@ == sha1_of(data@),
        r@.len() == 20,
{
    sha1::Sha1::digest(data).to_vec()
}

/// The lowercase hexadecimal digit for a value below 16.
pub open spec fn hex_digit(n: u8) -> char {
    if n < 10 {
        (48 + n) as u8 as char
    } else {
        (87 + n) as u8 as char
    }
}

/// Two lowercase hexadecimal digits per byte, high half first.
pub open spec fn hex_text(b: Seq<u8>) -> Seq<char> {
    Seq::new(
        2 * b.len(),
        |i: int|
            if i % 2 == 0 {
                hex_digit(b[i / 2] / 16)
            } else {
                hex_digit(b[i / 2] % 16)
            },
    )
}

/// Relies on `hex::encode`: two lowercase hexadecimal digits per byte, high
/// half first.
#[verifier::external_body]
fn hex_encode(b: &[u8]) -> (r: String)
    ensures
        r@ == hex_text(b@),
{
    hex::encode(b)
}

fn find<'a>(d: &'a Vec<(Vec<u8>, Value)>, k: &[u8]) -> (r: Option<&'a Value>)
    ensures
        r matches Some(v) ==> lookup(dict_model(d@), k@, 0) == Some(v.model()),
        r is None ==> lookup(dict_model(d@), k@, 0) is None,
{
    let ghost m = dict_model(d@);
    let mut i: usize = 0;
    while i < d.len()
        invariant
            i <= d@.len(),
            m == dict_model(d@),
            lookup(m, k@, 0) == lookup(m, k@, i as int),
        decreases d@.len() - i,
    {
        if bytes_equal(d[i].0.as_slice(), k) {
            return Some(&d[i].1);
        }
        i = i + 1;
    }
    None
}

fn find_bytes<'a>(d: &'a Vec<(Vec<u8>, Value)>, k: &[u8]) -> (r: Option<&'a Vec<u8>>)
    ensures
        r matches Some(b) ==> bytes_field(dict_model(d@), k@) == Some(b@),
        r is None ==> bytes_field(dict_model(d@), k@) is None,
{
    match find(d, k) {
        Some(Value::Bytes(b)) => Some(b),
        _ => None,
    }
}

fn find_text(d: &Vec<(Vec<u8>, Value)>, k: &[u8]) -> (r: Option<String>)
    ensures
        r matches Some(s) ==> text_field(dict_model(d@), k@) == Some(s@),
        r is None ==> text_field(dict_model(d@), k@) is None,
{
    match find_bytes(d, k) {
        Some(b) => text_of(b.as_slice()),
        None => None,
    }
}

fn find_int(d: &Vec<(Vec<u8>, Value)>, k: &[u8]) -> (r: Option<i64>)
    ensures
        r matches Some(n) ==> int_field(dict_model(d@), k@) == Some(n as int),
        r is None ==> int_field(dict_model(d@), k@) is None,
{
    match find(d, k) {
        Some(Value::Int(n)) => Some(*n),
        _ => None,
    }
}

impl Torrent {
    /// Reads torrent metadata out of a decoded top-level dictionary.
    pub fn from_value(v: &Value) -> (r: Result<Torrent, BencodeError>)
        ensures
            r is Ok <==> project(v.model()) is Some,
            r matches Ok(t) ==> project(v.model()) == Some(
                (t.announce@, t.info.length as int, t.info.name@, t.info.piece_length as int, t.info.pieces@),
            ),
            r matches Err(e) ==> e == BencodeError::DataFormat(e->DataFormat_0)
                && e->DataFormat_0@ == project_message(v.model()),
    {
        let d = match v {
            Value::Dict(d) => d,
            _ => {
                return Err(data_format(NOT_DICT));
            },
        };
        proof {
            lemma_dict_model(*d);
        }
        let announce_k = vec![97u8, 110, 110, 111, 117, 110, 99, 101];
        assert(announce_k@ =~= announce_key());
        let announce = match find_text(d, announce_k.as_slice()) {
            Some(a) => a,
            None => {
                return Err(data_format(NO_ANNOUNCE));
            },
        };
        let info_k = vec![105u8, 110, 102, 111];
        assert(info_k@ =~= info_key());
        let di = match find(d, info_k.as_slice()) {
            Some(Value::Dict(di)) => di,
            _ => {
                return Err(data_format(NO_INFO));
            },
        };
        proof {
            lemma_dict_model(*di);
        }
        let length_k = vec![108u8, 101, 110, 103, 116, 104];
        assert(length_k@ =~= length_key());
        let name_k = vec![110u8, 97, 109, 101];
        assert(name_k@ =~= name_key());
        let piece_length_k = vec![112u8, 105, 101, 99, 101, 32, 108, 101, 110, 103, 116, 104];
        assert(piece_length_k@ =~= piece_length_key());
        let pieces_k = vec![112u8, 105, 101, 99, 101, 115];
        assert(pieces_k@ =~= pieces_key());
        let length = match find_int(di, length_k.as_slice()) {
            Some(n) => n,
            None => {
                return Err(data_format(NO_LENGTH));
            },
        };
        let name = match find_text(di, name_k.as_slice()) {
            Some(s) => s,
            None => {
                return Err(data_format(NO_NAME));
            },
        };
        let piece_length = match find_int(di, piece_length_k.as_slice()) {
            Some(n) => n,
            None => {
                return Err(data_format(NO_PIECE_LENGTH));
            },
        };
        let pieces = match find_bytes(di, pieces_k.as_slice()) {
            Some(b) => slice_to_vec(b.as_slice()),
            None => {
                return Err(data_format(NO_PIECES));
            },
        };
        if length < 0 {
            return Err(data_format(NEGATIVE_LENGTH));
        }
        if piece_length <= 0 {
            return Err(data_format(BAD_PIECE_LENGTH));
        }
        if pieces.len() % 20 != 0 {
            return Err(data_format(PARTIAL_PIECES));
        }
        Ok(Torrent { announce, info: TorrentInfo { length, name, piece_length, pieces } })
    }

    /// The SHA-1 digest of the canonical encoding of the four `info` fields
    /// that this record holds. It is the digest of a decoded `info` entry
    /// only where that entry holds just these fields; `info_hash_of` hashes
    /// the decoded entry itself.
    pub fn info_hash(&self) -> (r: Vec<u8>)
        ensures
            r@ == sha1_of(enc(info_model(self.info))),
            r@.len() == 20,
    {
        let encoded = encode(&self.info.to_value());
        sha1_digest(encoded.as_slice())
    }

    /// `info_hash` in lowercase hexadecimal.
    pub fn info_hash_hex(&self) -> (r: String)
        ensures
            r@ == hex_text(sha1_of(enc(info_model(self.info)))),
    {
        let h = self.info_hash();
        hex_encode(h.as_slice())
    }
}

/// When the `info` dictionary of a decoded torrent holds exactly its four
/// fields, in canonical order, the metadata read from it re-encodes to that
/// dictionary, so that `info_hash` agrees with `info_hash_of`.
pub proof fn info_hash_covers_info(m: Bencode, t: Torrent)
    requires
        project(m) == Some(
            (t.announce@, t.info.length as int, t.info.name@, t.info.piece_length as int, t.info.pieces@),
        ),
        m is Dict,
        lookup(m->Dict_0, info_key(), 0) matches Some(Bencode::Dict(di)) && di.len() == 4
            && di[0].0 == length_key() && di[1].0 == name_key() && di[2].0 == piece_length_key()
            && di[3].0 == pieces_key(),
    ensures
        lookup(m->Dict_0, info_key(), 0) == Some(info_model(t.info)),
{
    let di = lookup(m->Dict_0, info_key(), 0)->Some_0->Dict_0;
    assert(length_key() != name_key() && length_key().len() != piece_length_key().len());
    assert(name_key() != piece_length_key() && name_key().len() != pieces_key().len());
    assert(piece_length_key().len() != pieces_key().len());
    assert(pieces_key()[0] != length_key()[0]);
    assert(lookup(di, length_key(), 0) == Some(di[0].1));
    assert(lookup(di, name_key(), 1) == Some(di[1].1));
    assert(lookup(di, name_key(), 0) == Some(di[1].1));
    assert(lookup(di, piece_length_key(), 2) == Some(di[2].1));
    assert(lookup(di, piece_length_key(), 1) == Some(di[2].1));
    assert(lookup(di, piece_length_key(), 0) == Some(di[2].1));
    assert(lookup(di, pieces_key(), 3) == Some(di[3].1));
    assert(lookup(di, pieces_key(), 2) == Some(di[3].1));
    assert(lookup(di, pieces_key(), 1) == Some(di[3].1));
    assert(lookup(di, pieces_key(), 0) == Some(di[3].1));
    let b = di[1].1->Bytes_0;
    vstd::utf8::decode_utf8_encode_utf8(b);
    assert(info_model(t.info)->Dict_0 =~= di);
}

proof fn lemma_lookup_ascending(t: Seq<(Seq<u8>, Bencode)>, k: Seq<u8>, i: int, j: int)
    requires
        forall|a: int, b: int| 0 <= a < b < t.len() ==> lex_lt(#[trigger] t[a].0, #[trigger] t[b].0),
        0 <= j <= i < t.len(),
        t[i].0 == k,
    ensures
        lookup(t, k, j) == Some(t[i].1),
    decreases i - j,
{
    if j < i {
        assert(lex_lt(t[j].0, t[i].0));
        lemma_lex_lt_ne(t[j].0, t[i].0);
        lemma_lookup_ascending(t, k, i, j + 1);
    }
}

/// Where the value of entry `i` starts in the encoding of dictionary `t`.
pub open spec fn entry_value_offset(t: Seq<(Seq<u8>, Bencode)>, i: int) -> int {
    (1 + dict_parts(t).take(i).flatten().len() + enc_bytes(t[i].0).len()) as int
}

/// In the canonical encoding of a dictionary with an `info` entry, decoding
/// gives that entry back under `info`, and the entry's value re-encodes bit
/// for bit to the bytes that follow the `info` key. So `info_hash_of` hashes
/// exactly that slice of the input.
pub proof fn info_entry_reencodes_to_its_slice(v: Bencode, i: int)
    requires
        canonical(v),
        v is Dict,
        0 <= i < v->Dict_0.len(),
        v->Dict_0[i].0 == info_key(),
    ensures
        parse(enc(v)) == Ok::<(Bencode, nat), Fault>((v, enc(v).len())),
        lookup(v->Dict_0, info_key(), 0) == Some(v->Dict_0[i].1),
        enc(v).subrange(
            entry_value_offset(v->Dict_0, i),
            entry_value_offset(v->Dict_0, i) + enc(v->Dict_0[i].1).len(),
        ) == enc(v->Dict_0[i].1),
{
    match v {
        Bencode::Dict(t) => {
            decode_of_encoding(v, Seq::empty());
            assert(enc(v) + Seq::<u8>::empty() =~= enc(v));
            lemma_lookup_ascending(t, info_key(), i, 0);
            let p = dict_parts(t);
            let kb = enc_bytes(t[i].0);
            let ev = enc(t[i].1);
            assert(p[i] == kb + ev);
            let a = p.take(i);
            let rest = p.skip(i + 1);
            assert(p =~= a + (seq![p[i]] + rest));
            vstd::seq_lib::lemma_flatten_concat(a, seq![p[i]] + rest);
            vstd::seq_lib::lemma_flatten_concat(seq![p[i]], rest);
            seq![p[i]].lemma_flatten_singleton();
            let fa = a.flatten();
            let fr = rest.flatten();
            assert(p.flatten() =~= fa + (kb + ev) + fr);
            let e = enc(v);
            assert(e =~= seq![100u8] + fa + kb + ev + fr + seq![101u8]);
            let start = (1 + fa.len() + kb.len()) as int;
            assert(e.subrange(start, start + ev.len() as int) =~= ev);
        },
        _ => {},
    }
}

/// The SHA-1 digest of the canonical encoding of the `info` entry of a
/// decoded top-level dictionary, as other clients compute it; none where
/// there is no such entry.
pub fn info_hash_of(v: &Value) -> (r: Option<Vec<u8>>)
    ensures
        r is Some <==> (v.model() is Dict && lookup(v.model()->Dict_0, info_key(), 0) is Some),
        r matches Some(h) ==> h@ == sha1_of(enc(lookup(v.model()->Dict_0, info_key(), 0)->Some_0))
            && h@.len() == 20,
{
    let d = match v {
        Value::Dict(d) => d,
        _ => {
            return None;
        },
    };
    proof {
        lemma_dict_model(*d);
    }
    let info_k = vec![105u8, 110, 102, 111];
    assert(info_k@ =~= info_key());
    match find(d, info_k.as_slice()) {
        Some(info) => {
            let encoded = encode(info);
            Some(sha1_digest(encoded.as_slice()))
        },
        None => None,
    }
}

/// `info_hash_of` in lowercase hexadecimal.
pub fn info_hash_hex_of(v: &Value) -> (r: Option<String>)
    ensures
        r is Some <==> (v.model() is Dict && lookup(v.model()->Dict_0, info_key(), 0) is Some),
        r matches Some(h) ==> h@ == hex_text(
            sha1_of(enc(lookup(v.model()->Dict_0, info_key(), 0)->Some_0)),
        ),
{
    match info_hash_of(v) {
        Some(h) => Some(hex_encode(h.as_slice())),
        None => None,
    }
}

impl TorrentInfo {
    /// This `info` dictionary as a value.
    pub fn to_value(&self) -> (r: Value)
        ensures
            r.model() == info_model(*self),
    {
        let mut d: Vec<(Vec<u8>, Value)> = Vec::new();
        d.push((vec![108u8, 101, 110, 103, 116, 104], Value::Int(self.length)));
        d.push((vec![110u8, 97, 109, 101], Value::Bytes(slice_to_vec(self.name.as_str().as_bytes()))));
        d.push(
            (
                vec![112u8, 105, 101, 99, 101, 32, 108, 101, 110, 103, 116, 104],
                Value::Int(self.piece_length),
            ),
        );
        d.push((vec![112u8, 105, 101, 99, 101, 115], Value::Bytes(slice_to_vec(self.pieces.as_slice()))));
        proof {
            lemma_dict_model(d);
        }
        let r = Value::Dict(d);
        assert(r.model()->Dict_0 =~= info_model(*self)->Dict_0);
        r
    }

    /// The pieces' digests, 20 bytes each, in piece order; none where the
    /// pieces do not split into whole digests.
    pub fn piece_hashes(&self) -> (r: Option<Vec<Vec<u8>>>)
        ensures
            r is Some <==> self.pieces@.len() % 20 == 0,
            r matches Some(hs) ==> hs@.len() == self.pieces@.len() / 20 && forall|i: int|
                0 <= i < hs@.len() ==> (#[trigger] hs@[i])@ == self.pieces@.subrange(
                    20 * i,
                    20 * i + 20,
                ),
    {
        if self.pieces.len() % 20 != 0 {
            return None;
        }
        let mut hs: Vec<Vec<u8>> = Vec::new();
        let len = self.pieces.len();
        let n = len / 20;
        let mut i: usize = 0;
        while i < n
            invariant
                len == self.pieces@.len(),
                i <= n,
                n == self.pieces@.len() / 20,
                self.pieces@.len() % 20 == 0,
                hs@.len() == i,
                forall|j: int|
                    0 <= j < i ==> (#[trigger] hs@[j])@ == self.pieces@.subrange(20 * j, 20 * j + 20),
            decreases n - i,
        {
            assert(20 * i + 20 <= len) by (nonlinear_arith)
                requires
                    i < n,
                    n == len / 20,
            ;
            let chunk = slice_to_vec(
                vstd::slice::slice_subrange(self.pieces.as_slice(), 20 * i, 20 * i + 20),
            );
            hs.push(chunk);
            i = i + 1;
        }
        Some(hs)
    }

    /// Each piece's digest in lowercase hexadecimal, in piece order; none
    /// where the pieces do not split into whole digests.
    pub fn piece_hashes_hex(&self) -> (r: Option<Vec<String>>)
        ensures
            r is Some <==> self.pieces@.len() % 20 == 0,
            r matches Some(hs) ==> hs@.len() == self.pieces@.len() / 20 && forall|i: int|
                0 <= i < hs@.len() ==> (#[trigger] hs@[i])@ == hex_text(
                    self.pieces@.subrange(20 * i, 20 * i + 20),
                ),
    {
        let hs = match self.piece_hashes() {
            Some(hs) => hs,
            None => {
                return None;
            },
        };
        let mut out: Vec<String> = Vec::new();
        let mut i: usize = 0;
        while i < hs.len()
            invariant
                i <= hs@.len(),
                hs@.len() == self.pieces@.len() / 20,
                out@.len() == i,
                forall|j: int|
                    0 <= j < hs@.len() ==> (#[trigger] hs@[j])@ == self.pieces@.subrange(
                        20 * j,
                        20 * j + 20,
                    ),
                forall|j: int|
                    0 <= j < i ==> (#[trigger] out@[j])@ == hex_text(
                        self.pieces@.subrange(20 * j, 20 * j + 20),
                    ),
            decreases hs@.len() - i,
        {
            out.push(hex_encode(hs[i].as_slice()));
            i = i + 1;
        }
        Some(out)
    }
}

} // verus!
