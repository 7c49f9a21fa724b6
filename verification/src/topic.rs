//! The typed topic binding: a topic name tied to exactly one payload type
//! with an exact encode/decode contract, which makes the untyped
//! bytes-over-topic bus type-safe for the rest of the system.
use vstd::prelude::*;

use vstd::string::StringSliceAdditionalSpecFns;

verus! {

/// Typed failure of `decode`: the bytes are not the canonical wire form of
/// any well-formed payload value.
#[derive(Clone, Copy, PartialEq, Eq, Structural, Debug)]
pub enum DecodeError {
    Malformed,
}

/// A payload type with a canonical wire encoding.
pub trait Encode: Sized {
    /// Which values of the type are representable on the wire.
    spec fn wf(&self) -> bool;

    /// The canonical wire bytes of this value.
    spec fn spec_encode(&self) -> Seq<u8>;

    /// Encoding is total for well-formed values and yields exactly the
    /// canonical bytes.
    fn encode(message: &Self) -> (r: Vec<u8>)
        requires
            message.wf(),
        ensures
            r@ == message.spec_encode(),
    ;
}

/// The canonical reading of wire bytes: the unique well-formed value
/// whose canonical encoding is `b`, if one exists. Payload types that this
/// system alone produces use it as their accepted spelling.
pub open spec fn spec_decode<M: Encode>(b: Seq<u8>) -> Option<M> {
    if exists|x: M| x.wf() && x.spec_encode() == b {
        Some(choose|x: M| x.wf() && x.spec_encode() == b)
    } else {
        Option::None
    }
}

/// A payload type whose wire bytes can be read back.
pub trait Decode: Encode {
    /// The value the wire bytes spell, if they are an accepted spelling of
    /// one. Each payload type states here exactly which spellings its
    /// decoder accepts; the canonical encoding is always among them.
    spec fn spec_read(b: Seq<u8>) -> Option<Self>;

    /// Reading inverts encoding: what `encode` produced reads back as the
    /// encoded value. Each payload type proves this of its own reading.
    proof fn lemma_read_round_trip(x: Self)
        requires
            x.wf(),
        ensures
            Self::spec_read(x.spec_encode()) == Some(x),
    ;

    /// Decoding accepts exactly the accepted spellings and returns the
    /// value they spell; anything else fails with a typed error.
    fn decode(payload: &[u8]) -> (r: Result<Self, DecodeError>)
        ensures
            match r {
                Ok(x) => {
                    &&& x.wf()
                    &&& Self::spec_read(payload@) == Some(x)
                },
                Err(e) => {
                    &&& e == DecodeError::Malformed
                    &&& Self::spec_read(payload@) is None
                },
            },
    ;
}

/// Round trip: decoding what `encode` produced gives back exactly the
/// encoded value. Holds for every payload type whose encoding is injective
/// on well-formed values; each payload type proves its injectivity lemma.
pub proof fn lemma_round_trip<M: Encode>(x: M)
    requires
        x.wf(),
        forall|a: M, b: M|
            a.wf() && b.wf() && a.spec_encode() == b.spec_encode() ==> a == b,
    ensures
        spec_decode::<M>(x.spec_encode()) == Some(x),
{
    let b = x.spec_encode();
    assert(exists|y: M| y.wf() && y.spec_encode() == b);
    let w = choose|y: M| y.wf() && y.spec_encode() == b;
    assert(w == x);
}

/// An immutable pair of a topic name and the payload type bound to it.
pub struct Topic<M> {
    name: &'static str,
    marker: core::marker::PhantomData<M>,
}

impl<M: Encode> Topic<M> {
    pub closed spec fn spec_name(&self) -> Seq<char> {
        self.name@
    }

    pub fn new(topic: &'static str) -> (t: Self)
        ensures
            t.spec_name() == topic@,
    {
        Topic { name: topic, marker: core::marker::PhantomData }
    }

    pub fn encode(&self, message: &M) -> (r: Vec<u8>)
        requires
            message.wf(),
        ensures
            r@ == message.spec_encode(),
    {
        M::encode(message)
    }

    pub fn name(&self) -> (r: &'static str)
        ensures
            r@ == self.spec_name(),
    {
        self.name
    }
}

impl<M: Decode> Topic<M> {
    pub fn decode(&self, payload: &[u8]) -> (r: Result<M, DecodeError>)
        ensures
            match r {
                Ok(x) => {
                    &&& x.wf()
                    &&& M::spec_read(payload@) == Some(x)
                },
                Err(e) => {
                    &&& e == DecodeError::Malformed
                    &&& M::spec_read(payload@) is None
                },
            },
    {
        M::decode(payload)
    }
}


/// Character-level string equality, decided over the UTF-8 bytes.
pub fn str_eq(a: &str, b: &str) -> (r: bool)
    ensures
        r == (a@ == b@),
{
    let ab = a.as_bytes();
    let bb = b.as_bytes();
    proof {
        broadcast use vstd::string::group_string_axioms;

    }
    if ab.len() != bb.len() {
        proof {
            if a@ == b@ {
                assert(a.spec_bytes() == b.spec_bytes());
            }
        }
        return false;
    }
    let mut i: usize = 0;
    while i < ab.len()
        invariant
            0 <= i <= ab@.len(),
            ab@.len() == bb@.len(),
            ab@ == vstd::utf8::encode_utf8(a@),
            bb@ == vstd::utf8::encode_utf8(b@),
            forall|j: int| 0 <= j < i ==> ab@[j] == bb@[j],
        decreases ab@.len() - i,
    {
        if ab[i] != bb[i] {
            proof {
                if a@ == b@ {
                    assert(ab@[i as int] == bb@[i as int]);
                }
            }
            return false;
        }
        i += 1;
    }
    proof {
        assert(ab@ =~= bb@);
        broadcast use vstd::utf8::encode_utf8_decode_utf8;

        assert(vstd::utf8::decode_utf8(vstd::utf8::encode_utf8(a@)) == a@);
        assert(vstd::utf8::decode_utf8(vstd::utf8::encode_utf8(b@)) == b@);
    }
    true
}

} // verus!
