//! Length-prefixed payloads: a length, then as many elements (for a
//! sequence) or bytes (for a string). `Record<L, T>` takes the length's
//! encoding from `L`; a bare `Vec` or `String` uses the 30-bit variable-width
//! family.
use core::marker::PhantomData;
use vstd::prelude::*;
use vstd::utf8::{decode_utf8, encode_utf8, encode_utf8_decode_utf8, encode_utf8_valid_utf8, valid_utf8};

use crate::codec::DataType;
use crate::cursor::Cursor;
use crate::var_int::U30;
use crate::ErrorKind;

verus! {

/// An integer type that can carry a length.
pub trait LenType {
    /// The largest length it carries.
    spec fn max_len() -> nat;

    /// The bytes that carry the length `n`.
    spec fn len_wire(n: nat) -> Seq<u8>;

    /// The length at the front of `s` and its byte count, or the first error
    /// met; a length that the host's `usize` cannot hold fails with
    /// `InvalidLength`.
    spec fn len_parse(s: Seq<u8>) -> core::result::Result<(nat, nat), ErrorKind>;

    /// Whether `n` can be carried.
    fn fits(n: usize) -> (r: bool)
        ensures
            r == (n <= Self::max_len()),
    ;

    /// Appends the bytes that carry `n`.
    fn put_len(out: &mut Vec<u8>, n: usize)
        requires
            n <= Self::max_len(),
        ensures
            final(out)@ == old(out)@ + Self::len_wire(n as nat),
    ;

    /// Reads a length at the cursor and moves past it; on failure the cursor
    /// stays where it was.
    fn get_len(c: &mut Cursor<&[u8]>) -> (r: crate::Result<usize>)
        requires
            old(c).wf(),
        ensures
            final(c).wf(),
            final(c).data == old(c).data,
            match Self::len_parse(old(c).rest()) {
                Ok((n, k)) => r == Ok::<usize, ErrorKind>(n as usize) && final(c).offset == old(
                    c,
                ).offset + k,
                Err(e) => r == Err::<usize, ErrorKind>(e) && final(c).offset == old(c).offset,
            },
    ;

    /// Reading back the bytes of a length gives the length.
    proof fn lemma_len_round_trip(n: nat, rest: Seq<u8>)
        requires
            n <= Self::max_len(),
            n <= usize::MAX,
        ensures
            Self::len_parse(Self::len_wire(n) + rest) == Ok::<(nat, nat), ErrorKind>(
                (n, Self::len_wire(n).len()),
            ),
    ;

    /// Every strict prefix of a length's bytes is too short.
    proof fn lemma_len_truncated(n: nat, k: nat)
        requires
            n <= Self::max_len(),
            k < Self::len_wire(n).len(),
        ensures
            Self::len_parse(Self::len_wire(n).take(k as int)) == Err::<(nat, nat), ErrorKind>(
                ErrorKind::InsufficientBytes,
            ),
    ;

    /// A decoded length fits in `usize` and its bytes lie within `s`.
    proof fn lemma_len_within(s: Seq<u8>)
        ensures
            Self::len_parse(s) is Ok ==> Self::len_parse(s)->Ok_0.0 <= usize::MAX
                && Self::len_parse(s)->Ok_0.1 <= s.len(),
    ;
}


impl LenType for u8 {
    open spec fn max_len() -> nat {
        u8::MAX as nat
    }

    open spec fn len_wire(n: nat) -> Seq<u8> {
        (n as u8).wire()
    }

    open spec fn len_parse(s: Seq<u8>) -> core::result::Result<(nat, nat), ErrorKind> {
        match <u8 as DataType>::parse(s) {
            Ok((v, k)) => Ok((v as nat, k)),
            Err(e) => Err(e),
        }
    }

    fn fits(n: usize) -> (r: bool) {
        n as u128 <= u8::MAX as u128
    }

    fn put_len(out: &mut Vec<u8>, n: usize) {
        let _ = (n as u8).serialize(out);
    }

    fn get_len(c: &mut Cursor<&[u8]>) -> (r: crate::Result<usize>) {
        match <u8 as DataType>::deserialize(c) {
            Ok(v) => Ok(v as usize),
            Err(e) => Err(e),
        }
    }

    proof fn lemma_len_round_trip(n: nat, rest: Seq<u8>) {
        (n as u8).lemma_parse_wire(rest);
    }

    proof fn lemma_len_truncated(n: nat, k: nat) {
        ((n as u8)).lemma_parse_truncated(k);
    }

    proof fn lemma_len_within(s: Seq<u8>) {
        <u8 as DataType>::lemma_parse_within(s);
    }
}

impl LenType for u16 {
    open spec fn max_len() -> nat {
        u16::MAX as nat
    }

    open spec fn len_wire(n: nat) -> Seq<u8> {
        (n as u16).wire()
    }

    open spec fn len_parse(s: Seq<u8>) -> core::result::Result<(nat, nat), ErrorKind> {
        match <u16 as DataType>::parse(s) {
            Ok((v, k)) => Ok((v as nat, k)),
            Err(e) => Err(e),
        }
    }

    fn fits(n: usize) -> (r: bool) {
        n as u128 <= u16::MAX as u128
    }

    fn put_len(out: &mut Vec<u8>, n: usize) {
        let _ = (n as u16).serialize(out);
    }

    fn get_len(c: &mut Cursor<&[u8]>) -> (r: crate::Result<usize>) {
        match <u16 as DataType>::deserialize(c) {
            Ok(v) => Ok(v as usize),
            Err(e) => Err(e),
        }
    }

    proof fn lemma_len_round_trip(n: nat, rest: Seq<u8>) {
        (n as u16).lemma_parse_wire(rest);
    }

    proof fn lemma_len_truncated(n: nat, k: nat) {
        ((n as u16)).lemma_parse_truncated(k);
    }

    proof fn lemma_len_within(s: Seq<u8>) {
        <u16 as DataType>::lemma_parse_within(s);
    }
}

impl LenType for u32 {
    open spec fn max_len() -> nat {
        u32::MAX as nat
    }

    open spec fn len_wire(n: nat) -> Seq<u8> {
        (n as u32).wire()
    }

    open spec fn len_parse(s: Seq<u8>) -> core::result::Result<(nat, nat), ErrorKind> {
        match <u32 as DataType>::parse(s) {
            Ok((v, k)) => Ok((v as nat, k)),
            Err(e) => Err(e),
        }
    }

    fn fits(n: usize) -> (r: bool) {
        n as u128 <= u32::MAX as u128
    }

    fn put_len(out: &mut Vec<u8>, n: usize) {
        let _ = (n as u32).serialize(out);
    }

    fn get_len(c: &mut Cursor<&[u8]>) -> (r: crate::Result<usize>) {
        match <u32 as DataType>::deserialize(c) {
            Ok(v) => Ok(v as usize),
            Err(e) => Err(e),
        }
    }

    proof fn lemma_len_round_trip(n: nat, rest: Seq<u8>) {
        (n as u32).lemma_parse_wire(rest);
    }

    proof fn lemma_len_truncated(n: nat, k: nat) {
        ((n as u32)).lemma_parse_truncated(k);
    }

    proof fn lemma_len_within(s: Seq<u8>) {
        <u32 as DataType>::lemma_parse_within(s);
    }
}

impl LenType for u64 {
    open spec fn max_len() -> nat {
        u64::MAX as nat
    }

    open spec fn len_wire(n: nat) -> Seq<u8> {
        (n as u64).wire()
    }

    open spec fn len_parse(s: Seq<u8>) -> core::result::Result<(nat, nat), ErrorKind> {
        match <u64 as DataType>::parse(s) {
            Ok((v, k)) => if v > usize::MAX {
                Err(ErrorKind::InvalidLength)
            } else {
                Ok((v as nat, k))
            },
            Err(e) => Err(e),
        }
    }

    fn fits(n: usize) -> (r: bool) {
        n as u128 <= u64::MAX as u128
    }

    fn put_len(out: &mut Vec<u8>, n: usize) {
        let _ = (n as u64).serialize(out);
    }

    fn get_len(c: &mut Cursor<&[u8]>) -> (r: crate::Result<usize>) {
        let start = c.offset;
        match <u64 as DataType>::deserialize(c) {
            Ok(v) => if v as u128 > usize::MAX as u128 {
                c.offset = start;
                Err(ErrorKind::InvalidLength)
            } else {
                Ok(v as usize)
            },
            Err(e) => Err(e),
        }
    }

    proof fn lemma_len_round_trip(n: nat, rest: Seq<u8>) {
        (n as u64).lemma_parse_wire(rest);
    }

    proof fn lemma_len_truncated(n: nat, k: nat) {
        ((n as u64)).lemma_parse_truncated(k);
    }

    proof fn lemma_len_within(s: Seq<u8>) {
        <u64 as DataType>::lemma_parse_within(s);
    }
}

impl LenType for usize {
    open spec fn max_len() -> nat {
        usize::MAX as nat
    }

    open spec fn len_wire(n: nat) -> Seq<u8> {
        (n as usize).wire()
    }

    open spec fn len_parse(s: Seq<u8>) -> core::result::Result<(nat, nat), ErrorKind> {
        match <usize as DataType>::parse(s) {
            Ok((v, k)) => Ok((v as nat, k)),
            Err(e) => Err(e),
        }
    }

    fn fits(n: usize) -> (r: bool) {
        n as u128 <= usize::MAX as u128
    }

    fn put_len(out: &mut Vec<u8>, n: usize) {
        let _ = (n as usize).serialize(out);
    }

    fn get_len(c: &mut Cursor<&[u8]>) -> (r: crate::Result<usize>) {
        match <usize as DataType>::deserialize(c) {
            Ok(v) => Ok(v as usize),
            Err(e) => Err(e),
        }
    }

    proof fn lemma_len_round_trip(n: nat, rest: Seq<u8>) {
        (n as usize).lemma_parse_wire(rest);
    }

    proof fn lemma_len_truncated(n: nat, k: nat) {
        ((n as usize)).lemma_parse_truncated(k);
    }

    proof fn lemma_len_within(s: Seq<u8>) {
        <usize as DataType>::lemma_parse_within(s);
    }
}

/// The length of a bare `Vec` or `String`.
impl LenType for U30 {
    open spec fn max_len() -> nat {
        0x3fff_ffff
    }

    open spec fn len_wire(n: nat) -> Seq<u8> {
        U30(n as u32).wire()
    }

    open spec fn len_parse(s: Seq<u8>) -> core::result::Result<(nat, nat), ErrorKind> {
        match <U30 as DataType>::parse(s) {
            Ok((v, k)) => Ok((v.0 as nat, k)),
            Err(e) => Err(e),
        }
    }

    fn fits(n: usize) -> (r: bool) {
        n <= 0x3fff_ffff
    }

    fn put_len(out: &mut Vec<u8>, n: usize) {
        let _ = U30(n as u32).serialize(out);
    }

    fn get_len(c: &mut Cursor<&[u8]>) -> (r: crate::Result<usize>) {
        match <U30 as DataType>::deserialize(c) {
            Ok(v) => Ok(v.0 as usize),
            Err(e) => Err(e),
        }
    }

    proof fn lemma_len_round_trip(n: nat, rest: Seq<u8>) {
        U30(n as u32).lemma_parse_wire(rest);
    }

    proof fn lemma_len_truncated(n: nat, k: nat) {
        (U30(n as u32)).lemma_parse_truncated(k);
    }

    proof fn lemma_len_within(s: Seq<u8>) {
        <U30 as DataType>::lemma_parse_within(s);
        crate::var_int::lemma_var_parse_bound(crate::var_int::Family::Bits30, s);
    }
}


/// The encodings of the items of `s`, one after the other.
pub open spec fn wire_all<T: DataType>(s: Seq<T>) -> Seq<u8>
    decreases s.len(),
{
    if s.len() == 0 {
        Seq::empty()
    } else {
        s[0].wire() + wire_all(s.drop_first())
    }
}

/// Every item of `s` has an encoding.
pub open spec fn all_encodable<T: DataType>(s: Seq<T>) -> bool {
    forall|i: int| 0 <= i < s.len() ==> #[trigger] s[i].encodable()
}

/// The meanings of the items of `s`.
pub open spec fn models<T: DataType>(s: Seq<T>) -> Seq<T::Model> {
    s.map_values(|x: T| x.model())
}

/// `count` values read one after another from the front of `s`, and the
/// bytes they take, or the first error met.
pub open spec fn parse_many<T: DataType>(s: Seq<u8>, count: nat) -> core::result::Result<
    (Seq<T::Model>, nat),
    ErrorKind,
>
    decreases count,
{
    if count == 0 {
        Ok((Seq::empty(), 0))
    } else {
        match T::parse(s) {
            Ok((v, n)) => match parse_many::<T>(s.skip(n as int), (count - 1) as nat) {
                Ok((vs, m)) => Ok((seq![v] + vs, n + m)),
                Err(e) => Err(e),
            },
            Err(e) => Err(e),
        }
    }
}

/// A length carried by `L`, then that many values.
pub open spec fn parse_seq<L: LenType, T: DataType>(s: Seq<u8>) -> core::result::Result<
    (Seq<T::Model>, nat),
    ErrorKind,
> {
    match L::len_parse(s) {
        Ok((n, k)) => match parse_many::<T>(s.skip(k as int), n) {
            Ok((vs, m)) => Ok((vs, k + m)),
            Err(e) => Err(e),
        },
        Err(e) => Err(e),
    }
}

/// A length carried by `L`, then that many bytes of UTF-8.
pub open spec fn parse_str<L: LenType>(s: Seq<u8>) -> core::result::Result<
    (Seq<char>, nat),
    ErrorKind,
> {
    match L::len_parse(s) {
        Ok((n, k)) => if s.len() < k + n {
            Err(ErrorKind::InsufficientBytes)
        } else if !valid_utf8(s.subrange(k as int, (k + n) as int)) {
            Err(ErrorKind::InvalidUtf8)
        } else {
            Ok((decode_utf8(s.subrange(k as int, (k + n) as int)), k + n))
        },
        Err(e) => Err(e),
    }
}

/// How far a failing string decode moves: past the payload where it is not
/// UTF-8, nowhere otherwise.
pub open spec fn str_skip<L: LenType>(s: Seq<u8>) -> nat {
    match L::len_parse(s) {
        Ok((n, k)) => if s.len() >= k + n && !valid_utf8(s.subrange(k as int, (k + n) as int)) {
            k + n
        } else {
            0
        },
        Err(_) => 0,
    }
}

/// Encoding one more item appends its encoding.
pub proof fn lemma_wire_all_push<T: DataType>(s: Seq<T>, x: T)
    ensures
        wire_all(s.push(x)) == wire_all(s) + x.wire(),
    decreases s.len(),
{
    if s.len() == 0 {
        assert(s.push(x).drop_first() =~= Seq::<T>::empty());
        assert(s.push(x)[0] == x);
        assert(wire_all(Seq::<T>::empty()) == Seq::<u8>::empty());
        assert(wire_all(s.push(x)) == x.wire() + wire_all(Seq::<T>::empty()));
        assert(wire_all(s.push(x)) =~= wire_all(s) + x.wire());
    } else {
        assert(s.push(x).drop_first() =~= s.drop_first().push(x));
        lemma_wire_all_push(s.drop_first(), x);
        assert(s.push(x)[0] == s[0]);
        assert(wire_all(s.push(x)) == s[0].wire() + wire_all(s.drop_first().push(x)));
        assert(wire_all(s) == s[0].wire() + wire_all(s.drop_first()));
        assert(wire_all(s.push(x)) =~= wire_all(s) + x.wire());
    }
}

/// Reading back the encodings of `items` gives their meanings and takes
/// exactly their bytes.
pub proof fn lemma_parse_many_wire<T: DataType>(items: Seq<T>, rest: Seq<u8>)
    requires
        all_encodable(items),
    ensures
        parse_many::<T>(wire_all(items) + rest, items.len()) == Ok::<(Seq<T::Model>, nat), ErrorKind>(
            (models(items), wire_all(items).len()),
        ),
    decreases items.len(),
{
    if items.len() > 0 {
        let x = items[0];
        let tail = items.drop_first();
        let after = wire_all(tail) + rest;
        assert(all_encodable(tail)) by {
            assert forall|i: int| 0 <= i < tail.len() implies #[trigger] tail[i].encodable() by {
                assert(tail[i] == items[i + 1]);
            }
        }
        assert(items[0].encodable());
        x.lemma_parse_wire(after);
        assert(wire_all(items) + rest =~= x.wire() + after);
        assert((x.wire() + after).skip(x.wire().len() as int) =~= after);
        lemma_parse_many_wire(tail, rest);
        assert(models(items) =~= seq![x.model()] + models(tail));
    } else {
        assert(models(items) =~= Seq::<T::Model>::empty());
    }
}

/// Appends the encodings of the items in order, or fails with
/// `InvalidInput`, leaving `out` as it was, where an item has none.
pub fn put_items<T: DataType>(out: &mut Vec<u8>, items: &[T]) -> (r: crate::Result<()>)
    ensures
        r is Ok <==> all_encodable(items@),
        r is Ok ==> final(out)@ == old(out)@ + wire_all(items@),
        r is Err ==> r == Err::<(), ErrorKind>(ErrorKind::InvalidInput) && final(out)@ == old(
            out,
        )@,
{
    let start = out.len();
    let mut i: usize = 0;
    while i < items.len()
        invariant
            i <= items@.len(),
            start == old(out)@.len(),
            out@ == old(out)@ + wire_all(items@.take(i as int)),
            forall|j: int| 0 <= j < i ==> #[trigger] items@[j].encodable(),
        decreases items@.len() - i,
    {
        match items[i].serialize(out) {
            Ok(()) => {},
            Err(e) => {
                out.truncate(start);
                proof {
                    assert(out@ =~= old(out)@);
                }
                return Err(e);
            },
        }
        proof {
            assert(items@.take(i + 1) =~= items@.take(i as int).push(items@[i as int]));
            lemma_wire_all_push(items@.take(i as int), items@[i as int]);
        }
        i = i + 1;
    }
    proof {
        assert(items@.take(i as int) =~= items@);
    }
    Ok(())
}

/// Decodes `len` values one after another at the cursor, stopping at the
/// first that fails; on failure the cursor is put back where it was.
pub fn try_collect<T: DataType>(c: &mut Cursor<&[u8]>, len: usize) -> (r: crate::Result<Vec<T>>)
    requires
        old(c).wf(),
    ensures
        final(c).wf(),
        final(c).data == old(c).data,
        match parse_many::<T>(old(c).rest(), len as nat) {
            Ok((vs, m)) => r is Ok && models(r->Ok_0@) == vs && r->Ok_0@.len() == len
                && final(c).offset == old(c).offset + m,
            Err(e) => r == Err::<Vec<T>, ErrorKind>(e) && final(c).offset == old(c).offset,
        },
{
    let start = c.offset;
    let ghost s0 = c.rest();
    let ghost mut consumed: nat = 0;
    let mut items: Vec<T> = Vec::new();
    let mut i: usize = 0;
    while i < len
        invariant
            i <= len,
            c.wf(),
            c.data == old(c).data,
            old(c).wf(),
            s0 == old(c).rest(),
            start == old(c).offset,
            c.offset == old(c).offset + consumed,
            c.rest() == s0.skip(consumed as int),
            items@.len() == i,
            parse_many::<T>(s0, len as nat) == match parse_many::<T>(c.rest(), (len - i) as nat) {
                Ok((vs, m)) => Ok::<(Seq<T::Model>, nat), ErrorKind>(
                    (models(items@) + vs, consumed + m),
                ),
                Err(e) => Err(e),
            },
        decreases len - i,
    {
        let ghost rest = c.rest();
        proof {
            T::lemma_parse_within(rest);
        }
        let x = match T::deserialize(c) {
            Ok(x) => x,
            Err(e) => {
                c.offset = start;
                return Err(e);
            },
        };
        let ghost n = T::parse(rest)->Ok_0.1;
        proof {
            consumed = consumed + n;
            assert(c.rest() =~= s0.skip(consumed as int));
            assert(c.rest() =~= rest.skip(n as int));
            assert(models(items@.push(x)) =~= models(items@).push(x.model()));
            match parse_many::<T>(c.rest(), (len - i - 1) as nat) {
                Ok((vs, m)) => {
                    assert(models(items@).push(x.model()) + vs =~= models(items@) + (seq![
                        x.model(),
                    ] + vs));
                },
                Err(e) => {},
            }
        }
        items.push(x);
        i = i + 1;
    }
    proof {
        assert(models(items@) + Seq::<T::Model>::empty() =~= models(items@));
    }
    Ok(items)
}

/// A decode of `count` values takes no more bytes than there are.
pub proof fn lemma_parse_many_within<T: DataType>(s: Seq<u8>, count: nat)
    ensures
        parse_many::<T>(s, count) is Ok ==> parse_many::<T>(s, count)->Ok_0.1 <= s.len(),
    decreases count,
{
    if count > 0 {
        T::lemma_parse_within(s);
        if T::parse(s) is Ok {
            let n = T::parse(s)->Ok_0.1;
            lemma_parse_many_within::<T>(s.skip(n as int), (count - 1) as nat);
        }
    }
}

/// Appends the bytes of `b`.
fn put_bytes(out: &mut Vec<u8>, b: &[u8])
    ensures
        final(out)@ == old(out)@ + b@,
{
    let mut i: usize = 0;
    while i < b.len()
        invariant
            i <= b@.len(),
            out@ == old(out)@ + b@.take(i as int),
        decreases b@.len() - i,
    {
        out.push(b[i]);
        proof {
            assert(b@.take(i + 1) =~= b@.take(i as int).push(b@[i as int]));
        }
        i = i + 1;
    }
    proof {
        assert(b@.take(i as int) =~= b@);
    }
}

/// Relies on `core::str::from_utf8`: it succeeds exactly on valid UTF-8,
/// and the string it gives has the input as its bytes.
#[verifier::external_body]
fn utf8_str<'a>(b: &'a [u8]) -> (r: Option<&'a str>)
    ensures
        r is Some <==> valid_utf8(b@),
        r is Some ==> encode_utf8(r->Some_0@) == b@,
{
    core::str::from_utf8(b).ok()
}

/// Appends the length of `items`, carried by `L`, then their encodings; fails
/// with `InvalidInput`, appending nothing, where `L` cannot carry the length
/// or an item has no encoding.
pub fn encode_seq<L: LenType, T: DataType>(items: &Vec<T>, out: &mut Vec<u8>) -> (r: crate::Result<()>)
    ensures
        r is Ok <==> items@.len() <= L::max_len() && all_encodable(items@),
        r is Ok ==> final(out)@ == old(out)@ + L::len_wire(items@.len()) + wire_all(items@),
        r is Err ==> r == Err::<(), ErrorKind>(ErrorKind::InvalidInput) && final(out)@ == old(
            out,
        )@,
{
    if !L::fits(items.len()) {
        return Err(ErrorKind::InvalidInput);
    }
    let start = out.len();
    L::put_len(out, items.len());
    match put_items(out, items.as_slice()) {
        Ok(()) => Ok(()),
        Err(e) => {
            out.truncate(start);
            proof {
                assert(out@ =~= old(out)@);
            }
            Err(e)
        },
    }
}

/// Reads a length carried by `L`, then that many values; on failure the
/// cursor stays where it was.
pub fn decode_seq<L: LenType, T: DataType>(c: &mut Cursor<&[u8]>) -> (r: crate::Result<Vec<T>>)
    requires
        old(c).wf(),
    ensures
        final(c).wf(),
        final(c).data == old(c).data,
        match parse_seq::<L, T>(old(c).rest()) {
            Ok((vs, m)) => r is Ok && models(r->Ok_0@) == vs && final(c).offset == old(c).offset
                + m,
            Err(e) => r == Err::<Vec<T>, ErrorKind>(e) && final(c).offset == old(c).offset,
        },
{
    let start = c.offset;
    let ghost s0 = c.rest();
    proof {
        L::lemma_len_within(s0);
    }
    let n = match L::get_len(c) {
        Ok(n) => n,
        Err(e) => return Err(e),
    };
    proof {
        assert(c.rest() =~= s0.skip(L::len_parse(s0)->Ok_0.1 as int));
    }
    match try_collect(c, n) {
        Ok(v) => Ok(v),
        Err(e) => {
            c.offset = start;
            Err(e)
        },
    }
}

/// Appends the byte length of `s`, carried by `L`, then its UTF-8 bytes;
/// fails with `InvalidInput`, appending nothing, where `L` cannot carry the
/// length.
pub fn encode_str<L: LenType>(s: &String, out: &mut Vec<u8>) -> (r: crate::Result<()>)
    ensures
        r is Ok <==> encode_utf8(s@).len() <= L::max_len(),
        encode_utf8(s@).len() <= usize::MAX,
        r is Ok ==> final(out)@ == old(out)@ + L::len_wire(encode_utf8(s@).len()) + encode_utf8(
            s@,
        ),
        r is Err ==> r == Err::<(), ErrorKind>(ErrorKind::InvalidInput) && final(out)@ == old(
            out,
        )@,
{
    let b = s.as_str().as_bytes();
    proof {
        assert(b@.len() == b.len());
    }
    if !L::fits(b.len()) {
        return Err(ErrorKind::InvalidInput);
    }
    L::put_len(out, b.len());
    put_bytes(out, b);
    Ok(())
}

/// Reads a byte length carried by `L`, then that many bytes, which must be
/// UTF-8: where they are not, they are still consumed and the decode fails
/// with `InvalidUtf8`. On any other failure the cursor stays where it was.
pub fn decode_str<L: LenType>(c: &mut Cursor<&[u8]>) -> (r: crate::Result<String>)
    requires
        old(c).wf(),
    ensures
        final(c).wf(),
        final(c).data == old(c).data,
        match parse_str::<L>(old(c).rest()) {
            Ok((v, m)) => r is Ok && r->Ok_0@ == v && final(c).offset == old(c).offset + m,
            Err(e) => r == Err::<String, ErrorKind>(e) && final(c).offset == old(c).offset
                + str_skip::<L>(old(c).rest()),
        },
{
    let start = c.offset;
    let ghost s0 = c.rest();
    proof {
        L::lemma_len_within(s0);
    }
    let n = match L::get_len(c) {
        Ok(n) => n,
        Err(e) => return Err(e),
    };
    let ghost k = L::len_parse(s0)->Ok_0.1;
    proof {
        assert(c.rest() =~= s0.skip(k as int));
    }
    let b = match c.read_slice(n) {
        Ok(b) => b,
        Err(e) => {
            c.offset = start;
            return Err(e);
        },
    };
    proof {
        assert(b@ =~= s0.subrange(k as int, (k + n) as int));
    }
    match utf8_str(b) {
        Some(t) => {
            proof {
                encode_utf8_decode_utf8(t@);
            }
            Ok(t.to_owned())
        },
        None => Err(ErrorKind::InvalidUtf8),
    }
}

/// Reading back a sequence's encoding gives the meanings of its items and
/// takes exactly its bytes.
pub proof fn lemma_seq_round_trip<L: LenType, T: DataType>(items: Seq<T>, rest: Seq<u8>)
    requires
        items.len() <= L::max_len(),
        items.len() <= usize::MAX,
        all_encodable(items),
    ensures
        parse_seq::<L, T>(L::len_wire(items.len()) + wire_all(items) + rest) == Ok::<
            (Seq<T::Model>, nat),
            ErrorKind,
        >((models(items), L::len_wire(items.len()).len() + wire_all(items).len())),
{
    let head = L::len_wire(items.len());
    let after = wire_all(items) + rest;
    L::lemma_len_round_trip(items.len(), after);
    assert(head + wire_all(items) + rest =~= head + after);
    assert((head + after).skip(head.len() as int) =~= after);
    lemma_parse_many_wire(items, rest);
}

/// Reading back a string's encoding gives the string and takes exactly its
/// bytes.
pub proof fn lemma_str_round_trip<L: LenType>(chars: Seq<char>, rest: Seq<u8>)
    requires
        encode_utf8(chars).len() <= L::max_len(),
        encode_utf8(chars).len() <= usize::MAX,
    ensures
        parse_str::<L>(L::len_wire(encode_utf8(chars).len()) + encode_utf8(chars) + rest) == Ok::<
            (Seq<char>, nat),
            ErrorKind,
        >((chars, L::len_wire(encode_utf8(chars).len()).len() + encode_utf8(chars).len())),
{
    let b = encode_utf8(chars);
    let head = L::len_wire(b.len());
    let s = head + b + rest;
    L::lemma_len_round_trip(b.len(), b + rest);
    assert(s =~= head + (b + rest));
    assert(s.subrange(head.len() as int, (head.len() + b.len()) as int) =~= b);
    encode_utf8_valid_utf8(chars);
    encode_utf8_decode_utf8(chars);
}

/// A sequence decode takes no more bytes than there are.
pub proof fn lemma_seq_within<L: LenType, T: DataType>(s: Seq<u8>)
    ensures
        parse_seq::<L, T>(s) is Ok ==> parse_seq::<L, T>(s)->Ok_0.1 <= s.len(),
{
    L::lemma_len_within(s);
    if L::len_parse(s) is Ok {
        let (n, k) = L::len_parse(s)->Ok_0;
        lemma_parse_many_within::<T>(s.skip(k as int), n);
    }
}

/// Every strict prefix of the encodings of `items` is too short.
pub proof fn lemma_parse_many_truncated<T: DataType>(items: Seq<T>, j: nat)
    requires
        all_encodable(items),
        j < wire_all(items).len(),
    ensures
        parse_many::<T>(wire_all(items).take(j as int), items.len()) == Err::<
            (Seq<T::Model>, nat),
            ErrorKind,
        >(ErrorKind::InsufficientBytes),
    decreases items.len(),
{
    let x = items[0];
    let tail = items.drop_first();
    let xw = x.wire();
    let t = wire_all(items).take(j as int);
    assert(items[0].encodable());
    if j < xw.len() {
        assert(t =~= xw.take(j as int));
        x.lemma_parse_truncated(j);
    } else {
        let j2 = (j - xw.len()) as nat;
        let after = wire_all(tail).take(j2 as int);
        assert(all_encodable(tail)) by {
            assert forall|i: int| 0 <= i < tail.len() implies #[trigger] tail[i].encodable() by {
                assert(tail[i] == items[i + 1]);
            }
        }
        assert(t =~= xw + after);
        x.lemma_parse_wire(after);
        assert((xw + after).skip(xw.len() as int) =~= after);
        lemma_parse_many_truncated(tail, j2);
    }
}

/// Every strict prefix of a sequence's encoding is too short.
pub proof fn lemma_seq_truncated<L: LenType, T: DataType>(items: Seq<T>, k: nat)
    requires
        items.len() <= L::max_len(),
        items.len() <= usize::MAX,
        all_encodable(items),
        k < L::len_wire(items.len()).len() + wire_all(items).len(),
    ensures
        parse_seq::<L, T>((L::len_wire(items.len()) + wire_all(items)).take(k as int)) == Err::<
            (Seq<T::Model>, nat),
            ErrorKind,
        >(ErrorKind::InsufficientBytes),
{
    let head = L::len_wire(items.len());
    let t = (head + wire_all(items)).take(k as int);
    if k < head.len() {
        assert(t =~= head.take(k as int));
        L::lemma_len_truncated(items.len(), k);
    } else {
        let j = (k - head.len()) as nat;
        let after = wire_all(items).take(j as int);
        assert(t =~= head + after);
        L::lemma_len_round_trip(items.len(), after);
        assert((head + after).skip(head.len() as int) =~= after);
        lemma_parse_many_truncated(items, j);
    }
}

/// Every strict prefix of a string's encoding is too short.
pub proof fn lemma_str_truncated<L: LenType>(chars: Seq<char>, k: nat)
    requires
        encode_utf8(chars).len() <= L::max_len(),
        encode_utf8(chars).len() <= usize::MAX,
        k < L::len_wire(encode_utf8(chars).len()).len() + encode_utf8(chars).len(),
    ensures
        parse_str::<L>((L::len_wire(encode_utf8(chars).len()) + encode_utf8(chars)).take(k as int))
            == Err::<(Seq<char>, nat), ErrorKind>(ErrorKind::InsufficientBytes),
{
    let b = encode_utf8(chars);
    let head = L::len_wire(b.len());
    let t = (head + b).take(k as int);
    if k < head.len() {
        assert(t =~= head.take(k as int));
        L::lemma_len_truncated(b.len(), k);
    } else {
        let after = b.take(k - head.len());
        assert(t =~= head + after);
        L::lemma_len_round_trip(b.len(), after);
    }
}

/// A value together with the integer type `L` that carries its length.
/// `L` only decides the bytes of the length; nothing of it is stored.
#[derive(Debug)]
pub struct Record<L, T> {
    pub data: T,
    pub marker: PhantomData<L>,
}

impl<L, T> Record<L, T> {
    /// Wraps `data`.
    pub fn new(data: T) -> (r: Self)
        ensures
            r.data == data,
    {
        Record { data, marker: PhantomData }
    }
}

/// A sequence with an `L` length; a byte string is a `Vec<u8>`. Decoding
/// gives an owned `Vec`, copied out of the buffer.
impl<L: LenType, T: DataType> DataType for Record<L, Vec<T>> {
    type Model = Seq<T::Model>;

    open spec fn model(&self) -> Seq<T::Model> {
        models(self.data@)
    }

    open spec fn encodable(&self) -> bool {
        self.data@.len() <= L::max_len() && all_encodable(self.data@)
    }

    open spec fn wire(&self) -> Seq<u8> {
        L::len_wire(self.data@.len()) + wire_all(self.data@)
    }

    open spec fn parse(s: Seq<u8>) -> core::result::Result<(Seq<T::Model>, nat), ErrorKind> {
        parse_seq::<L, T>(s)
    }

    open spec fn skip_on_error(s: Seq<u8>) -> nat {
        0
    }

    fn serialize(&self, out: &mut Vec<u8>) -> (r: crate::Result<()>) {
        encode_seq::<L, T>(&self.data, out)
    }

    fn deserialize(c: &mut Cursor<&[u8]>) -> (r: crate::Result<Self>) {
        proof {
            assert(Self::skip_on_error(c.rest()) == 0);
        }
        match decode_seq::<L, T>(c) {
            Ok(v) => Ok(Record::new(v)),
            Err(e) => Err(e),
        }
    }

    proof fn lemma_parse_wire(&self, rest: Seq<u8>) {
        vstd::std_specs::vec::axiom_spec_len(&self.data);
        assert(self.data.len() == self.data@.len());
        lemma_seq_round_trip::<L, T>(self.data@, rest);
        assert(self.wire() + rest == L::len_wire(self.data@.len()) + wire_all(self.data@) + rest);
    }

    proof fn lemma_parse_truncated(&self, k: nat) {
        vstd::std_specs::vec::axiom_spec_len(&self.data);
        assert(self.data.len() == self.data@.len());
        lemma_seq_truncated::<L, T>(self.data@, k);
    }

    proof fn lemma_parse_within(s: Seq<u8>) {
        lemma_seq_within::<L, T>(s);
    }
}

/// A string with an `L` length of its UTF-8 bytes. Decoding gives an owned
/// `String`, copied out of the buffer.
impl<L: LenType> DataType for Record<L, String> {
    type Model = Seq<char>;

    open spec fn model(&self) -> Seq<char> {
        self.data@
    }

    open spec fn encodable(&self) -> bool {
        encode_utf8(self.data@).len() <= L::max_len() && encode_utf8(self.data@).len() <= usize::MAX
    }

    open spec fn wire(&self) -> Seq<u8> {
        L::len_wire(encode_utf8(self.data@).len()) + encode_utf8(self.data@)
    }

    open spec fn parse(s: Seq<u8>) -> core::result::Result<(Seq<char>, nat), ErrorKind> {
        parse_str::<L>(s)
    }

    open spec fn skip_on_error(s: Seq<u8>) -> nat {
        str_skip::<L>(s)
    }

    fn serialize(&self, out: &mut Vec<u8>) -> (r: crate::Result<()>) {
        encode_str::<L>(&self.data, out)
    }

    fn deserialize(c: &mut Cursor<&[u8]>) -> (r: crate::Result<Self>) {
        proof {
            assert(Self::skip_on_error(c.rest()) == str_skip::<L>(c.rest()));
        }
        match decode_str::<L>(c) {
            Ok(v) => Ok(Record::new(v)),
            Err(e) => Err(e),
        }
    }

    proof fn lemma_parse_wire(&self, rest: Seq<u8>) {
        lemma_str_round_trip::<L>(self.data@, rest);
    }

    proof fn lemma_parse_truncated(&self, k: nat) {
        lemma_str_truncated::<L>(self.data@, k);
    }

    proof fn lemma_parse_within(s: Seq<u8>) {
        L::lemma_len_within(s);
    }
}

/// A sequence with the default length: the 30-bit variable-width family.
/// Decoding gives an owned `Vec`, copied out of the buffer.
impl<T: DataType> DataType for Vec<T> {
    type Model = Seq<T::Model>;

    open spec fn model(&self) -> Seq<T::Model> {
        models(self@)
    }

    open spec fn encodable(&self) -> bool {
        self@.len() <= U30::max_len() && all_encodable(self@)
    }

    open spec fn wire(&self) -> Seq<u8> {
        U30::len_wire(self@.len()) + wire_all(self@)
    }

    open spec fn parse(s: Seq<u8>) -> core::result::Result<(Seq<T::Model>, nat), ErrorKind> {
        parse_seq::<U30, T>(s)
    }

    open spec fn skip_on_error(s: Seq<u8>) -> nat {
        0
    }

    fn serialize(&self, out: &mut Vec<u8>) -> (r: crate::Result<()>) {
        encode_seq::<U30, T>(self, out)
    }

    fn deserialize(c: &mut Cursor<&[u8]>) -> (r: crate::Result<Self>) {
        proof {
            assert(Self::skip_on_error(c.rest()) == 0);
        }
        decode_seq::<U30, T>(c)
    }

    proof fn lemma_parse_wire(&self, rest: Seq<u8>) {
        lemma_seq_round_trip::<U30, T>(self@, rest);
    }

    proof fn lemma_parse_truncated(&self, k: nat) {
        lemma_seq_truncated::<U30, T>(self@, k);
    }

    proof fn lemma_parse_within(s: Seq<u8>) {
        lemma_seq_within::<U30, T>(s);
    }
}

/// A string with the default length: the 30-bit variable-width family.
/// Decoding gives an owned `String`, copied out of the buffer.
impl DataType for String {
    type Model = Seq<char>;

    open spec fn model(&self) -> Seq<char> {
        self@
    }

    open spec fn encodable(&self) -> bool {
        encode_utf8(self@).len() <= U30::max_len()
    }

    open spec fn wire(&self) -> Seq<u8> {
        U30::len_wire(encode_utf8(self@).len()) + encode_utf8(self@)
    }

    open spec fn parse(s: Seq<u8>) -> core::result::Result<(Seq<char>, nat), ErrorKind> {
        parse_str::<U30>(s)
    }

    open spec fn skip_on_error(s: Seq<u8>) -> nat {
        str_skip::<U30>(s)
    }

    fn serialize(&self, out: &mut Vec<u8>) -> (r: crate::Result<()>) {
        encode_str::<U30>(self, out)
    }

    fn deserialize(c: &mut Cursor<&[u8]>) -> (r: crate::Result<Self>) {
        proof {
            assert(Self::skip_on_error(c.rest()) == str_skip::<U30>(c.rest()));
        }
        decode_str::<U30>(c)
    }

    proof fn lemma_parse_wire(&self, rest: Seq<u8>) {
        lemma_str_round_trip::<U30>(self@, rest);
    }

    proof fn lemma_parse_truncated(&self, k: nat) {
        lemma_str_truncated::<U30>(self@, k);
    }

    proof fn lemma_parse_within(s: Seq<u8>) {
        U30::lemma_len_within(s);
    }
}

/// A boxed value is encoded exactly as the value itself.
impl<T: DataType> DataType for Box<T> {
    type Model = T::Model;

    open spec fn model(&self) -> T::Model {
        (**self).model()
    }

    open spec fn encodable(&self) -> bool {
        (**self).encodable()
    }

    open spec fn wire(&self) -> Seq<u8> {
        (**self).wire()
    }

    open spec fn parse(s: Seq<u8>) -> core::result::Result<(T::Model, nat), ErrorKind> {
        T::parse(s)
    }

    open spec fn skip_on_error(s: Seq<u8>) -> nat {
        T::skip_on_error(s)
    }

    fn serialize(&self, out: &mut Vec<u8>) -> (r: crate::Result<()>) {
        (**self).serialize(out)
    }

    fn deserialize(c: &mut Cursor<&[u8]>) -> (r: crate::Result<Self>) {
        proof {
            assert(Self::skip_on_error(c.rest()) == T::skip_on_error(c.rest()));
        }
        match T::deserialize(c) {
            Ok(v) => Ok(Box::new(v)),
            Err(e) => Err(e),
        }
    }

    proof fn lemma_parse_wire(&self, rest: Seq<u8>) {
        (**self).lemma_parse_wire(rest);
    }

    proof fn lemma_parse_truncated(&self, k: nat) {
        (**self).lemma_parse_truncated(k);
    }

    proof fn lemma_parse_within(s: Seq<u8>) {
        T::lemma_parse_within(s);
    }
}

} // verus!
