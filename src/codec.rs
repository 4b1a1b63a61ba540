//! The codec contract that every encodable type meets.
use vstd::prelude::*;

use crate::cursor::Cursor;
use crate::ErrorKind;

verus! {

/// A type with a byte encoding: `wire` is what `serialize` appends, and
/// `parse` says what `deserialize` reads from the front of a byte string and
/// how many bytes it takes.
pub trait DataType: Sized {
    /// What a value means, apart from how it is held in memory.
    type Model;

    /// The meaning of the value.
    spec fn model(&self) -> Self::Model;

    /// Whether the value has an encoding at all (every length inside it fits
    /// its prefix).
    spec fn encodable(&self) -> bool;

    /// The bytes that encode the value.
    spec fn wire(&self) -> Seq<u8>;

    /// The value at the front of `s` and the number of bytes it takes, or the
    /// first error met.
    spec fn parse(s: Seq<u8>) -> core::result::Result<(Self::Model, nat), ErrorKind>;

    /// How far a failing decode of `s` moves the cursor: nothing, but for a
    /// string payload that is not UTF-8, whose bytes are consumed.
    spec fn skip_on_error(s: Seq<u8>) -> nat;

    /// Appends the encoding, or fails with `InvalidInput` where the value
    /// has none, leaving `out` as it was.
    fn serialize(&self, out: &mut Vec<u8>) -> (r: crate::Result<()>)
        ensures
            r is Ok <==> self.encodable(),
            r is Ok ==> final(out)@ == old(out)@ + self.wire(),
            r is Err ==> r == Err::<(), ErrorKind>(ErrorKind::InvalidInput) && final(out)@ == old(
                out,
            )@,
    ;

    /// Reads one value at the cursor and moves past it.
    fn deserialize(c: &mut Cursor<&[u8]>) -> (r: crate::Result<Self>)
        requires
            old(c).wf(),
        ensures
            final(c).wf(),
            final(c).data == old(c).data,
            match Self::parse(old(c).rest()) {
                Ok((v, n)) => r is Ok && r->Ok_0.model() == v && final(c).offset == old(c).offset + n,
                Err(e) => r == Err::<Self, ErrorKind>(e) && final(c).offset == old(c).offset
                    + Self::skip_on_error(old(c).rest()),
            },
    ;

    /// Decoding an encoding, with anything after it, gives the value back
    /// and takes exactly its bytes.
    proof fn lemma_parse_wire(&self, rest: Seq<u8>)
        requires
            self.encodable(),
        ensures
            Self::parse(self.wire() + rest) == Ok::<(Self::Model, nat), ErrorKind>(
                (self.model(), self.wire().len()),
            ),
    ;

    /// Every strict prefix of an encoding is too short: decoding it fails
    /// with `InsufficientBytes`.
    proof fn lemma_parse_truncated(&self, k: nat)
        requires
            self.encodable(),
            k < self.wire().len(),
        ensures
            Self::parse(self.wire().take(k as int)) == Err::<(Self::Model, nat), ErrorKind>(
                ErrorKind::InsufficientBytes,
            ),
    ;

    /// A decode never takes more bytes than there are.
    proof fn lemma_parse_within(s: Seq<u8>)
        ensures
            Self::parse(s) is Ok ==> Self::parse(s)->Ok_0.1 <= s.len(),
    ;

    /// The encoding as a new byte vector.
    fn encode(&self) -> (r: crate::Result<Vec<u8>>)
        ensures
            r is Ok <==> self.encodable(),
            r is Ok ==> r->Ok_0@ == self.wire(),
            r is Err ==> r == Err::<Vec<u8>, ErrorKind>(ErrorKind::InvalidInput),
    {
        let mut out: Vec<u8> = Vec::new();
        match self.serialize(&mut out) {
            Ok(()) => Ok(out),
            Err(e) => Err(e),
        }
    }

    /// Decodes one value from the front of `data`; bytes after it are left
    /// unread.
    fn decode(data: &[u8]) -> (r: crate::Result<Self>)
        ensures
            match Self::parse(data@) {
                Ok((v, _)) => r is Ok && r->Ok_0.model() == v,
                Err(e) => r == Err::<Self, ErrorKind>(e),
            },
    {
        let mut c = Cursor::new(data);
        proof {
            assert(c.rest() =~= data@);
        }
        Self::deserialize(&mut c)
    }
}

/// Decoding what a value encodes to gives the value back, having read all of
/// it and nothing more.
pub proof fn lemma_round_trip<T: DataType>(v: T)
    requires
        v.encodable(),
    ensures
        T::parse(v.wire()) == Ok::<(T::Model, nat), ErrorKind>((v.model(), v.wire().len())),
{
    v.lemma_parse_wire(Seq::empty());
    assert(v.wire() + Seq::<u8>::empty() =~= v.wire());
}

/// Decoding from a buffer that ends before a value's encoding does (a strict
/// prefix of it) fails with `InsufficientBytes`.
pub proof fn lemma_short_buffer<T: DataType>(v: T, k: nat)
    requires
        v.encodable(),
        k < v.wire().len(),
    ensures
        T::parse(v.wire().take(k as int)) == Err::<(T::Model, nat), ErrorKind>(
            ErrorKind::InsufficientBytes,
        ),
{
    v.lemma_parse_truncated(k);
}

} // verus!
