//! The field sequencing of aggregates. A structure is its fields' encodings
//! in declared order: a pair, nested as deep as there are fields, or an
//! array. A tagged union is the 0-based index of its variant as a 15-bit
//! variable-width integer, then the variant's fields.
use vstd::prelude::*;

use crate::codec::DataType;
use crate::cursor::Cursor;
use crate::record::{
    all_encodable, lemma_parse_many_truncated, lemma_parse_many_wire, lemma_parse_many_within,
    models, parse_many, put_items, try_collect, wire_all,
};
use crate::var_int::{get_var, put_var, var_parse, var_wire, lemma_var_parse_bound, Family};
use crate::ErrorKind;

verus! {

/// Appends the tag of variant `index`, or fails with `InvalidInput` where
/// the index does not fit in 15 bits.
pub fn write_variant(out: &mut Vec<u8>, index: u16) -> (r: crate::Result<()>)
    ensures
        r is Ok <==> index <= Family::Bits15.max(),
        r is Ok ==> final(out)@ == old(out)@ + var_wire(Family::Bits15, index as nat),
        r is Err ==> r == Err::<(), ErrorKind>(ErrorKind::InvalidInput) && final(out)@ == old(
            out,
        )@,
{
    if index > 0x7fff {
        return Err(ErrorKind::InvalidInput);
    }
    put_var(out, Family::Bits15, index as u32);
    Ok(())
}

/// Reads the tag of a union with `variants` variants; a tag outside
/// `0..variants` fails with `InvalidInput`. On failure the cursor stays
/// where it was.
pub fn read_variant(c: &mut Cursor<&[u8]>, variants: u16) -> (r: crate::Result<u16>)
    requires
        old(c).wf(),
    ensures
        final(c).wf(),
        final(c).data == old(c).data,
        match var_parse(Family::Bits15, old(c).rest()) {
            Ok((t, n)) => if t < variants {
                r == Ok::<u16, ErrorKind>(t as u16) && final(c).offset == old(c).offset + n
            } else {
                r == Err::<u16, ErrorKind>(ErrorKind::InvalidInput) && final(c).offset == old(
                    c,
                ).offset
            },
            Err(e) => r == Err::<u16, ErrorKind>(e) && final(c).offset == old(c).offset,
        },
{
    proof {
        lemma_var_parse_bound(Family::Bits15, c.rest());
    }
    let start = c.offset;
    let t = match get_var(c, Family::Bits15) {
        Ok(t) => t,
        Err(e) => return Err(e),
    };
    if t >= variants as u32 {
        c.offset = start;
        return Err(ErrorKind::InvalidInput);
    }
    Ok(t as u16)
}

/// Two fields in order: the first's encoding, then the second's.
impl<A: DataType, B: DataType> DataType for (A, B) {
    type Model = (A::Model, B::Model);

    open spec fn model(&self) -> (A::Model, B::Model) {
        (self.0.model(), self.1.model())
    }

    open spec fn encodable(&self) -> bool {
        self.0.encodable() && self.1.encodable()
    }

    open spec fn wire(&self) -> Seq<u8> {
        self.0.wire() + self.1.wire()
    }

    open spec fn parse(s: Seq<u8>) -> core::result::Result<((A::Model, B::Model), nat), ErrorKind> {
        match A::parse(s) {
            Ok((a, n)) => match B::parse(s.skip(n as int)) {
                Ok((b, m)) => Ok(((a, b), n + m)),
                Err(e) => Err(e),
            },
            Err(e) => Err(e),
        }
    }

    open spec fn skip_on_error(s: Seq<u8>) -> nat {
        0
    }

    fn serialize(&self, out: &mut Vec<u8>) -> (r: crate::Result<()>) {
        let start = out.len();
        match self.0.serialize(out) {
            Ok(()) => {},
            Err(e) => return Err(e),
        }
        match self.1.serialize(out) {
            Ok(()) => {
                proof {
                    assert(out@ =~= old(out)@ + self.wire());
                }
                Ok(())
            },
            Err(e) => {
                out.truncate(start);
                proof {
                    assert(out@ =~= old(out)@);
                }
                Err(e)
            },
        }
    }

    fn deserialize(c: &mut Cursor<&[u8]>) -> (r: crate::Result<(A, B)>) {
        let start = c.offset;
        let ghost s0 = c.rest();
        proof {
            assert(Self::skip_on_error(s0) == 0);
            A::lemma_parse_within(s0);
        }
        let a = match A::deserialize(c) {
            Ok(a) => a,
            Err(e) => {
                c.offset = start;
                return Err(e);
            },
        };
        proof {
            assert(c.rest() =~= s0.skip(A::parse(s0)->Ok_0.1 as int));
        }
        let b = match B::deserialize(c) {
            Ok(b) => b,
            Err(e) => {
                c.offset = start;
                return Err(e);
            },
        };
        Ok((a, b))
    }

    proof fn lemma_parse_wire(&self, rest: Seq<u8>) {
        let aw = self.0.wire();
        let after = self.1.wire() + rest;
        self.0.lemma_parse_wire(after);
        self.1.lemma_parse_wire(rest);
        assert(self.wire() + rest =~= aw + after);
        assert((aw + after).skip(aw.len() as int) =~= after);
    }

    proof fn lemma_parse_truncated(&self, k: nat) {
        let aw = self.0.wire();
        let t = self.wire().take(k as int);
        if k < aw.len() {
            assert(t =~= aw.take(k as int));
            self.0.lemma_parse_truncated(k);
        } else {
            let j = (k - aw.len()) as nat;
            let after = self.1.wire().take(j as int);
            assert(t =~= aw + after);
            self.0.lemma_parse_wire(after);
            assert((aw + after).skip(aw.len() as int) =~= after);
            self.1.lemma_parse_truncated(j);
        }
    }

    proof fn lemma_parse_within(s: Seq<u8>) {
        A::lemma_parse_within(s);
        if A::parse(s) is Ok {
            B::lemma_parse_within(s.skip(A::parse(s)->Ok_0.1 as int));
        }
    }
}

/// `N` fields of one type in order, with no length: `N` is known to both
/// sides.
impl<T: DataType + Copy + Default, const N: usize> DataType for [T; N] {
    type Model = Seq<T::Model>;

    open spec fn model(&self) -> Seq<T::Model> {
        models(self@)
    }

    open spec fn encodable(&self) -> bool {
        all_encodable(self@)
    }

    open spec fn wire(&self) -> Seq<u8> {
        wire_all(self@)
    }

    open spec fn parse(s: Seq<u8>) -> core::result::Result<(Seq<T::Model>, nat), ErrorKind> {
        parse_many::<T>(s, N as nat)
    }

    open spec fn skip_on_error(s: Seq<u8>) -> nat {
        0
    }

    fn serialize(&self, out: &mut Vec<u8>) -> (r: crate::Result<()>) {
        put_items(out, self.as_slice())
    }

    fn deserialize(c: &mut Cursor<&[u8]>) -> (r: crate::Result<[T; N]>) {
        proof {
            assert(Self::skip_on_error(c.rest()) == 0);
        }
        let items: Vec<T> = match try_collect(c, N) {
            Ok(v) => v,
            Err(e) => return Err(e),
        };
        let mut arr: [T; N] = [T::default(); N];
        let mut i: usize = 0;
        while i < N
            invariant
                i <= N,
                items@.len() == N,
                arr@.len() == N,
                forall|j: int| 0 <= j < i ==> arr@[j] == items@[j],
            decreases N - i,
        {
            arr[i] = items[i];
            i = i + 1;
        }
        proof {
            assert(arr@ =~= items@);
        }
        Ok(arr)
    }

    proof fn lemma_parse_wire(&self, rest: Seq<u8>) {
        lemma_parse_many_wire(self@, rest);
    }

    proof fn lemma_parse_truncated(&self, k: nat) {
        lemma_parse_many_truncated(self@, k);
    }

    proof fn lemma_parse_within(s: Seq<u8>) {
        lemma_parse_many_within::<T>(s, N as nat);
    }
}

} // verus!
