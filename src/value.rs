use vstd::prelude::*;

verus! {

/// The mathematical form of a bencoded value.
pub enum Bencode {
    Bytes(Seq<u8>),
    Int(int),
    List(Seq<Bencode>),
    /// Entries as (key, value) pairs, in the order the dictionary exposes them.
    Dict(Seq<(Seq<u8>, Bencode)>),
}

/// A decoded bencoded value.
///
/// A dictionary is held as an association list whose keys are unique and
/// ascend in byte order.
#[derive(Debug, PartialEq)]
pub enum Value {
    Bytes(Vec<u8>),
    Int(i64),
    List(Vec<Value>),
    Dict(Vec<(Vec<u8>, Value)>),
}

pub open spec fn list_model(l: Seq<Value>) -> Seq<Bencode> {
    Seq::new(l.len(), |i: int| l[i].model())
}

pub open spec fn entry_model(e: (Vec<u8>, Value)) -> (Seq<u8>, Bencode) {
    (e.0@, e.1.model())
}

pub open spec fn dict_model(d: Seq<(Vec<u8>, Value)>) -> Seq<(Seq<u8>, Bencode)> {
    Seq::new(d.len(), |i: int| entry_model(d[i]))
}

impl Value {
    /// The mathematical form of this value.
    pub open spec fn model(self) -> Bencode
        decreases self,
    {
        match self {
            Value::Bytes(b) => Bencode::Bytes(b@),
            Value::Int(n) => Bencode::Int(n as int),
            Value::List(l) => Bencode::List(
                Seq::new(
                    l@.len(),
                    |i: int|
                        if 0 <= i < l@.len() {
                            l@[i].model()
                        } else {
                            Bencode::Int(0)
                        },
                ),
            ),
            Value::Dict(d) => Bencode::Dict(
                Seq::new(
                    d@.len(),
                    |i: int|
                        if 0 <= i < d@.len() {
                            (d@[i].0@, d@[i].1.model())
                        } else {
                            (Seq::empty(), Bencode::Int(0))
                        },
                ),
            ),
        }
    }
}

pub proof fn lemma_list_model(l: Vec<Value>)
    ensures
        Value::List(l).model() == Bencode::List(list_model(l@)),
{
    assert(Value::List(l).model()->List_0 =~= list_model(l@));
}

pub proof fn lemma_dict_model(d: Vec<(Vec<u8>, Value)>)
    ensures
        Value::Dict(d).model() == Bencode::Dict(dict_model(d@)),
{
    assert(Value::Dict(d).model()->Dict_0 =~= dict_model(d@));
}

} // verus!
