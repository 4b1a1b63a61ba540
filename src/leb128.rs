//! The unbounded variable-width family: seven value bits per byte, least
//! significant group first, the high bit set on every byte but the last.
//! Signed values are zig-zag mapped first so that small magnitudes stay
//! short.
use vstd::prelude::*;

use crate::codec::DataType;
use crate::cursor::Cursor;
use crate::ErrorKind;

verus! {

/// The bytes that encode `v`.
pub open spec fn leb_wire(v: nat) -> Seq<u8>
    decreases v,
{
    if v < 128 {
        seq![v as u8]
    } else {
        seq![(128 + v % 128) as u8] + leb_wire(v / 128)
    }
}

/// The value at the front of `s` and its byte count, where every group of
/// seven bits must be zero or below `cap` divided by its weight: the value
/// must stay below `cap`. A group that breaks this fails with
/// `IntegerOverflow`, as soon as it is read; running out of bytes fails with
/// `InsufficientBytes`.
pub open spec fn leb_parse(s: Seq<u8>, cap: nat) -> core::result::Result<(nat, nat), ErrorKind>
    decreases s.len(),
{
    if s.len() == 0 {
        Err(ErrorKind::InsufficientBytes)
    } else {
        let p = (s[0] % 128) as nat;
        if p != 0 && p >= cap {
            Err(ErrorKind::IntegerOverflow)
        } else if s[0] < 128 {
            Ok((p, 1))
        } else {
            match leb_parse(s.drop_first(), cap / 128) {
                Ok((r, n)) => Ok((p + 128 * r, n + 1)),
                Err(e) => Err(e),
            }
        }
    }
}

/// `cap` is below 128 or a multiple of 128 whose quotient is again such a
/// bound: true of every power of two.
pub open spec fn leb_cap_ok(cap: nat) -> bool
    decreases cap,
{
    cap < 128 || (cap % 128 == 0 && leb_cap_ok(cap / 128))
}

/// The zig-zag image of `v`: `0, -1, 1, -2, ...` go to `0, 1, 2, 3, ...`;
/// for a `bits`-wide `v` it equals `(v << 1) ^ (v >> (bits - 1))`.
pub open spec fn zigzag(v: int) -> nat {
    if v >= 0 {
        (2 * v) as nat
    } else {
        (-2 * v - 1) as nat
    }
}

/// The inverse of `zigzag`.
pub open spec fn unzigzag(u: nat) -> int {
    if u % 2 == 0 {
        (u / 2) as int
    } else {
        -((u / 2) as int) - 1
    }
}

/// The caps of the unsigned widths are powers of two.
pub proof fn lemma_leb_cap_values()
    ensures
        leb_cap_ok(u16::MAX as nat + 1),
        leb_cap_ok(u32::MAX as nat + 1),
        leb_cap_ok(u64::MAX as nat + 1),
        leb_cap_ok(u128::MAX as nat + 1),
{
    reveal_with_fuel(leb_cap_ok, 20);
}

/// A decode below a power-of-two cap gives a value below it and takes at
/// least one byte and at most all of them.
pub proof fn lemma_leb_bound(s: Seq<u8>, cap: nat)
    requires
        leb_cap_ok(cap),
    ensures
        leb_parse(s, cap) is Ok ==> {
            &&& leb_parse(s, cap)->Ok_0.0 < if cap == 0 { 1 } else { cap }
            &&& 1 <= leb_parse(s, cap)->Ok_0.1 <= s.len()
        },
    decreases s.len(),
{
    if s.len() > 0 && s[0] >= 128 {
        lemma_leb_bound(s.drop_first(), cap / 128);
        let p = (s[0] % 128) as nat;
        if leb_parse(s, cap) is Ok {
            let r = leb_parse(s.drop_first(), cap / 128)->Ok_0.0;
            if cap >= 128 {
                assert(p + 128 * r < cap) by (nonlinear_arith)
                    requires
                        p < 128,
                        r < cap / 128,
                        cap % 128 == 0,
                ;
            }
        }
    }
}

/// Decoding what `v` encodes to, with anything after it, gives `v` back and
/// takes exactly its bytes, when `v` is below the cap.
pub proof fn lemma_leb_round_trip(v: nat, cap: nat, rest: Seq<u8>)
    requires
        leb_cap_ok(cap),
        v < cap,
    ensures
        leb_parse(leb_wire(v) + rest, cap) == Ok::<(nat, nat), ErrorKind>((v, leb_wire(v).len())),
    decreases v,
{
    let s = leb_wire(v) + rest;
    if v >= 128 {
        assert(v / 128 < cap / 128) by (nonlinear_arith)
            requires
                v < cap,
                cap % 128 == 0,
        ;
        lemma_leb_round_trip(v / 128, cap / 128, rest);
        assert(s.drop_first() =~= leb_wire(v / 128) + rest);
    }
}

/// A nonzero value at or above the cap is refused with `IntegerOverflow`,
/// whatever follows it: the wire never says how wide the target is, so the
/// decoder must check.
pub proof fn lemma_leb_overflow(v: nat, cap: nat, rest: Seq<u8>)
    requires
        v >= cap,
        v > 0,
    ensures
        leb_parse(leb_wire(v) + rest, cap) == Err::<(nat, nat), ErrorKind>(
            ErrorKind::IntegerOverflow,
        ),
    decreases v,
{
    let s = leb_wire(v) + rest;
    if v >= 128 {
        assert(v / 128 >= cap / 128) by (nonlinear_arith)
            requires
                v >= cap,
        ;
        lemma_leb_overflow(v / 128, cap / 128, rest);
        assert(s.drop_first() =~= leb_wire(v / 128) + rest);
    }
}

/// Every strict prefix of an encoding below the cap is too short.
pub proof fn lemma_leb_truncated(v: nat, cap: nat, k: nat)
    requires
        leb_cap_ok(cap),
        v < cap,
        k < leb_wire(v).len(),
    ensures
        leb_parse(leb_wire(v).take(k as int), cap) == Err::<(nat, nat), ErrorKind>(
            ErrorKind::InsufficientBytes,
        ),
    decreases v,
{
    let t = leb_wire(v).take(k as int);
    if k > 0 && v >= 128 {
        assert(v / 128 < cap / 128) by (nonlinear_arith)
            requires
                v < cap,
                cap % 128 == 0,
        ;
        assert(t.drop_first() =~= leb_wire(v / 128).take(k - 1));
        lemma_leb_truncated(v / 128, cap / 128, (k - 1) as nat);
    }
}

/// Caps of zero and one admit the same inputs: only zero groups.
proof fn lemma_leb_cap_one(s: Seq<u8>)
    ensures
        leb_parse(s, 0) == leb_parse(s, 1),
{
}

/// Appends the encoding of `v`.
pub fn put_leb(out: &mut Vec<u8>, v: u128)
    ensures
        final(out)@ == old(out)@ + leb_wire(v as nat),
{
    let mut x: u128 = v;
    while x >= 128
        invariant
            out@ + leb_wire(x as nat) == old(out)@ + leb_wire(v as nat),
        decreases x,
    {
        let ghost before = out@;
        out.push((128 + x % 128) as u8);
        proof {
            assert(out@ + leb_wire((x / 128) as nat) =~= before + leb_wire(x as nat));
        }
        x = x / 128;
    }
    out.push(x as u8);
}

/// Reads one value at the cursor that must not exceed `max`, and moves past
/// it; on failure the cursor stays where it was.
pub fn get_leb(c: &mut Cursor<&[u8]>, max: u128) -> (r: crate::Result<u128>)
    requires
        old(c).wf(),
        leb_cap_ok((max + 1) as nat),
    ensures
        final(c).wf(),
        final(c).data == old(c).data,
        match leb_parse(old(c).rest(), (max + 1) as nat) {
            Ok((v, n)) => r == Ok::<u128, ErrorKind>(v as u128) && final(c).offset == old(c).offset
                + n,
            Err(e) => r == Err::<u128, ErrorKind>(e) && final(c).offset == old(c).offset,
        },
{
    let start = c.offset;
    let ghost s0 = c.rest();
    let ghost cap0: nat = (max + 1) as nat;
    let ghost mut cap: nat = cap0;
    let ghost mut consumed: nat = 0;
    let mut acc: u128 = 0;
    let mut scale: u128 = 1;
    let mut limit: u128 = max;
    let mut closed = false;
    proof {
        lemma_leb_bound(s0, cap0);
    }
    loop
        invariant
            c.wf(),
            c.data == old(c).data,
            c.offset == old(c).offset + consumed,
            c.rest() == s0.skip(consumed as int),
            consumed <= s0.len(),
            leb_cap_ok(cap),
            scale >= 1,
            !closed ==> limit + 1 == cap && scale * cap == cap0 && acc < scale,
            closed ==> cap <= 1,
            closed ==> acc < cap0,
            cap0 == max + 1,
            s0 == old(c).rest(),
            old(c).wf(),
            start == old(c).offset,
            leb_parse(s0, cap0) == match leb_parse(c.rest(), cap) {
                Ok((v, n)) => Ok::<(nat, nat), ErrorKind>(((acc + scale * v) as nat, consumed + n)),
                Err(e) => Err(e),
            },
        decreases c.data@.len() - c.offset,
    {
        let ghost rest = c.rest();
        proof {
            lemma_leb_bound(rest, cap);
            if closed {
                lemma_leb_cap_one(rest);
            }
        }
        let b = match c.read_byte() {
            Ok(b) => b,
            Err(e) => {
                proof {
                    assert(rest.len() == 0);
                    assert(leb_parse(rest, cap) == Err::<(nat, nat), ErrorKind>(
                        ErrorKind::InsufficientBytes,
                    ));
                }
                c.offset = start;
                return Err(e);
            },
        };
        let p = (b % 128) as u128;
        if p != 0 && (closed || p > limit) {
            c.offset = start;
            return Err(ErrorKind::IntegerOverflow);
        }
        let ghost next = rest.drop_first();
        proof {
            lemma_leb_bound(next, cap / 128);
            if closed {
                assert(p == 0);
            } else {
                assert(acc + scale * p < cap0) by (nonlinear_arith)
                    requires
                        acc < scale,
                        p <= limit,
                        limit + 1 == cap,
                        scale * cap == cap0,
                ;
            }
        }
        let ghost acc0 = acc;
        let ghost scale0 = scale;
        let ghost cap_prev = cap;
        acc = acc + scale * p;
        if b < 128 {
            proof {
                assert(leb_parse(rest, cap) == Ok::<(nat, nat), ErrorKind>((p as nat, 1)));
                assert(leb_parse(s0, cap0) == Ok::<(nat, nat), ErrorKind>(
                    (acc as nat, consumed + 1),
                ));
            }
            return Ok(acc);
        }
        if !closed && limit >= 255 {
            proof {
                assert(scale * 128 * (cap / 128) == cap0 && scale * 256 <= cap0) by (nonlinear_arith)
                    requires
                        scale * cap == cap0,
                        cap % 128 == 0,
                        cap >= 256,
                        scale >= 1,
                ;
                assert(acc < scale * 128) by (nonlinear_arith)
                    requires
                        acc == acc0 + scale * p,
                        acc0 < scale,
                        p < 128,
                ;
            }
            scale = scale * 128;
            limit = limit / 128;
        } else {
            closed = true;
        }
        proof {
            cap = cap / 128;
            consumed = consumed + 1;
            assert(c.rest() =~= s0.skip(consumed as int));
            assert(next == c.rest());
            if cap_prev >= 128 {
                assert(leb_cap_ok(cap));
            }
            lemma_leb_bound(next, cap);
            match leb_parse(next, cap) {
                Ok((r, n)) => {
                    if closed {
                        assert(r == 0);
                    }
                    assert(acc0 + scale0 * (p + 128 * r) == acc + scale * r) by (nonlinear_arith)
                        requires
                            acc == acc0 + scale0 * p,
                            scale == scale0 * 128 || r == 0,
                    ;
                },
                Err(e) => {},
            }
        }
    }
}


/// The zig-zag image of `v`.
pub fn zigzag_of(v: i128) -> (r: u128)
    ensures
        r == zigzag(v as int),
{
    if v >= 0 {
        (v as u128) * 2
    } else {
        (-(v + 1)) as u128 * 2 + 1
    }
}

/// The signed value whose zig-zag image is `u`.
pub fn unzigzag_of(u: u128) -> (r: i128)
    ensures
        r == unzigzag(u as nat),
{
    if u % 2 == 0 {
        (u / 2) as i128
    } else {
        -((u / 2) as i128) - 1
    }
}

/// Zig-zag is undone by its inverse, and maps a value of `bits` bits
/// (`-half <= v < half`) below `2 * half`.
pub proof fn lemma_zigzag_round_trip(v: int, half: int)
    requires
        -half <= v < half,
    ensures
        unzigzag(zigzag(v)) == v,
        zigzag(v) < 2 * half,
{
}

/// Zig-zag sends `-v - 1` next to `v`, so their encodings differ only in
/// the first byte (the lowest seven bits), which is one more for `-v - 1`.
pub proof fn lemma_zigzag_neighbours(v: int)
    requires
        v >= 0,
    ensures
        leb_wire(zigzag(-v - 1)) == leb_wire(zigzag(v)).update(
            0,
            (leb_wire(zigzag(v))[0] + 1) as u8,
        ),
{
    let e = zigzag(v);
    let o = zigzag(-v - 1);
    assert(e == 2 * v && o == e + 1);
    assert(e % 2 == 0);
    if e >= 128 {
        assert(o % 128 == e % 128 + 1 && o / 128 == e / 128);
        assert(leb_wire(e) == seq![(128 + e % 128) as u8] + leb_wire(e / 128));
        assert(leb_wire(o) == seq![(128 + o % 128) as u8] + leb_wire(o / 128));
        assert(leb_wire(o) =~= leb_wire(e).update(0, (leb_wire(e)[0] + 1) as u8));
    } else {
        assert(o < 128);
        assert(leb_wire(o) =~= leb_wire(e).update(0, (leb_wire(e)[0] + 1) as u8));
    }
}

/// An integer in the unbounded family.
#[derive(Debug, Clone, Copy, PartialEq, Eq, Structural)]
pub struct Leb<T>(pub T);


impl DataType for Leb<u16> {
    type Model = Leb<u16>;

    open spec fn model(&self) -> Leb<u16> {
        *self
    }

    open spec fn encodable(&self) -> bool {
        true
    }

    open spec fn wire(&self) -> Seq<u8> {
        leb_wire(self.0 as nat)
    }

    open spec fn parse(s: Seq<u8>) -> core::result::Result<(Leb<u16>, nat), ErrorKind> {
        match leb_parse(s, u16::MAX as nat + 1) {
            Ok((v, n)) => Ok((Leb(v as u16), n)),
            Err(e) => Err(e),
        }
    }

    open spec fn skip_on_error(s: Seq<u8>) -> nat {
        0
    }

    fn serialize(&self, out: &mut Vec<u8>) -> (r: crate::Result<()>) {
        put_leb(out, self.0 as u128);
        Ok(())
    }

    fn deserialize(c: &mut Cursor<&[u8]>) -> (r: crate::Result<Leb<u16>>) {
        proof {
            assert(Self::skip_on_error(c.rest()) == 0);
        }
        proof {
            lemma_leb_cap_values();
            lemma_leb_bound(c.rest(), u16::MAX as nat + 1);
        }
        match get_leb(c, u16::MAX as u128) {
            Ok(v) => Ok(Leb(v as u16)),
            Err(e) => Err(e),
        }
    }

    proof fn lemma_parse_wire(&self, rest: Seq<u8>) {
        lemma_leb_cap_values();
        lemma_leb_round_trip(self.0 as nat, u16::MAX as nat + 1, rest);
    }

    proof fn lemma_parse_truncated(&self, k: nat) {
        lemma_leb_cap_values();
        lemma_leb_truncated(self.0 as nat, u16::MAX as nat + 1, k);
    }

    proof fn lemma_parse_within(s: Seq<u8>) {
        lemma_leb_cap_values();
        lemma_leb_bound(s, u16::MAX as nat + 1);
    }
}

impl DataType for Leb<u32> {
    type Model = Leb<u32>;

    open spec fn model(&self) -> Leb<u32> {
        *self
    }

    open spec fn encodable(&self) -> bool {
        true
    }

    open spec fn wire(&self) -> Seq<u8> {
        leb_wire(self.0 as nat)
    }

    open spec fn parse(s: Seq<u8>) -> core::result::Result<(Leb<u32>, nat), ErrorKind> {
        match leb_parse(s, u32::MAX as nat + 1) {
            Ok((v, n)) => Ok((Leb(v as u32), n)),
            Err(e) => Err(e),
        }
    }

    open spec fn skip_on_error(s: Seq<u8>) -> nat {
        0
    }

    fn serialize(&self, out: &mut Vec<u8>) -> (r: crate::Result<()>) {
        put_leb(out, self.0 as u128);
        Ok(())
    }

    fn deserialize(c: &mut Cursor<&[u8]>) -> (r: crate::Result<Leb<u32>>) {
        proof {
            assert(Self::skip_on_error(c.rest()) == 0);
        }
        proof {
            lemma_leb_cap_values();
            lemma_leb_bound(c.rest(), u32::MAX as nat + 1);
        }
        match get_leb(c, u32::MAX as u128) {
            Ok(v) => Ok(Leb(v as u32)),
            Err(e) => Err(e),
        }
    }

    proof fn lemma_parse_wire(&self, rest: Seq<u8>) {
        lemma_leb_cap_values();
        lemma_leb_round_trip(self.0 as nat, u32::MAX as nat + 1, rest);
    }

    proof fn lemma_parse_truncated(&self, k: nat) {
        lemma_leb_cap_values();
        lemma_leb_truncated(self.0 as nat, u32::MAX as nat + 1, k);
    }

    proof fn lemma_parse_within(s: Seq<u8>) {
        lemma_leb_cap_values();
        lemma_leb_bound(s, u32::MAX as nat + 1);
    }
}

impl DataType for Leb<u64> {
    type Model = Leb<u64>;

    open spec fn model(&self) -> Leb<u64> {
        *self
    }

    open spec fn encodable(&self) -> bool {
        true
    }

    open spec fn wire(&self) -> Seq<u8> {
        leb_wire(self.0 as nat)
    }

    open spec fn parse(s: Seq<u8>) -> core::result::Result<(Leb<u64>, nat), ErrorKind> {
        match leb_parse(s, u64::MAX as nat + 1) {
            Ok((v, n)) => Ok((Leb(v as u64), n)),
            Err(e) => Err(e),
        }
    }

    open spec fn skip_on_error(s: Seq<u8>) -> nat {
        0
    }

    fn serialize(&self, out: &mut Vec<u8>) -> (r: crate::Result<()>) {
        put_leb(out, self.0 as u128);
        Ok(())
    }

    fn deserialize(c: &mut Cursor<&[u8]>) -> (r: crate::Result<Leb<u64>>) {
        proof {
            assert(Self::skip_on_error(c.rest()) == 0);
        }
        proof {
            lemma_leb_cap_values();
            lemma_leb_bound(c.rest(), u64::MAX as nat + 1);
        }
        match get_leb(c, u64::MAX as u128) {
            Ok(v) => Ok(Leb(v as u64)),
            Err(e) => Err(e),
        }
    }

    proof fn lemma_parse_wire(&self, rest: Seq<u8>) {
        lemma_leb_cap_values();
        lemma_leb_round_trip(self.0 as nat, u64::MAX as nat + 1, rest);
    }

    proof fn lemma_parse_truncated(&self, k: nat) {
        lemma_leb_cap_values();
        lemma_leb_truncated(self.0 as nat, u64::MAX as nat + 1, k);
    }

    proof fn lemma_parse_within(s: Seq<u8>) {
        lemma_leb_cap_values();
        lemma_leb_bound(s, u64::MAX as nat + 1);
    }
}

impl DataType for Leb<u128> {
    type Model = Leb<u128>;

    open spec fn model(&self) -> Leb<u128> {
        *self
    }

    open spec fn encodable(&self) -> bool {
        true
    }

    open spec fn wire(&self) -> Seq<u8> {
        leb_wire(self.0 as nat)
    }

    open spec fn parse(s: Seq<u8>) -> core::result::Result<(Leb<u128>, nat), ErrorKind> {
        match leb_parse(s, u128::MAX as nat + 1) {
            Ok((v, n)) => Ok((Leb(v as u128), n)),
            Err(e) => Err(e),
        }
    }

    open spec fn skip_on_error(s: Seq<u8>) -> nat {
        0
    }

    fn serialize(&self, out: &mut Vec<u8>) -> (r: crate::Result<()>) {
        put_leb(out, self.0 as u128);
        Ok(())
    }

    fn deserialize(c: &mut Cursor<&[u8]>) -> (r: crate::Result<Leb<u128>>) {
        proof {
            assert(Self::skip_on_error(c.rest()) == 0);
        }
        proof {
            lemma_leb_cap_values();
            lemma_leb_bound(c.rest(), u128::MAX as nat + 1);
        }
        match get_leb(c, u128::MAX as u128) {
            Ok(v) => Ok(Leb(v as u128)),
            Err(e) => Err(e),
        }
    }

    proof fn lemma_parse_wire(&self, rest: Seq<u8>) {
        lemma_leb_cap_values();
        lemma_leb_round_trip(self.0 as nat, u128::MAX as nat + 1, rest);
    }

    proof fn lemma_parse_truncated(&self, k: nat) {
        lemma_leb_cap_values();
        lemma_leb_truncated(self.0 as nat, u128::MAX as nat + 1, k);
    }

    proof fn lemma_parse_within(s: Seq<u8>) {
        lemma_leb_cap_values();
        lemma_leb_bound(s, u128::MAX as nat + 1);
    }
}

impl DataType for Leb<i16> {
    type Model = Leb<i16>;

    open spec fn model(&self) -> Leb<i16> {
        *self
    }

    open spec fn encodable(&self) -> bool {
        true
    }

    open spec fn wire(&self) -> Seq<u8> {
        leb_wire(zigzag(self.0 as int))
    }

    open spec fn parse(s: Seq<u8>) -> core::result::Result<(Leb<i16>, nat), ErrorKind> {
        match leb_parse(s, u16::MAX as nat + 1) {
            Ok((v, n)) => Ok((Leb(unzigzag(v) as i16), n)),
            Err(e) => Err(e),
        }
    }

    open spec fn skip_on_error(s: Seq<u8>) -> nat {
        0
    }

    fn serialize(&self, out: &mut Vec<u8>) -> (r: crate::Result<()>) {
        put_leb(out, zigzag_of(self.0 as i128));
        Ok(())
    }

    fn deserialize(c: &mut Cursor<&[u8]>) -> (r: crate::Result<Leb<i16>>) {
        proof {
            assert(Self::skip_on_error(c.rest()) == 0);
        }
        proof {
            lemma_leb_cap_values();
            lemma_leb_bound(c.rest(), u16::MAX as nat + 1);
        }
        match get_leb(c, u16::MAX as u128) {
            Ok(v) => Ok(Leb(unzigzag_of(v) as i16)),
            Err(e) => Err(e),
        }
    }

    proof fn lemma_parse_wire(&self, rest: Seq<u8>) {
        lemma_leb_cap_values();
        lemma_zigzag_round_trip(self.0 as int, i16::MAX as int + 1);
        lemma_leb_round_trip(zigzag(self.0 as int), u16::MAX as nat + 1, rest);
    }

    proof fn lemma_parse_truncated(&self, k: nat) {
        lemma_leb_cap_values();
        lemma_zigzag_round_trip(self.0 as int, i16::MAX as int + 1);
        lemma_leb_truncated(zigzag(self.0 as int), u16::MAX as nat + 1, k);
    }

    proof fn lemma_parse_within(s: Seq<u8>) {
        lemma_leb_cap_values();
        lemma_leb_bound(s, u16::MAX as nat + 1);
    }
}

impl DataType for Leb<i32> {
    type Model = Leb<i32>;

    open spec fn model(&self) -> Leb<i32> {
        *self
    }

    open spec fn encodable(&self) -> bool {
        true
    }

    open spec fn wire(&self) -> Seq<u8> {
        leb_wire(zigzag(self.0 as int))
    }

    open spec fn parse(s: Seq<u8>) -> core::result::Result<(Leb<i32>, nat), ErrorKind> {
        match leb_parse(s, u32::MAX as nat + 1) {
            Ok((v, n)) => Ok((Leb(unzigzag(v) as i32), n)),
            Err(e) => Err(e),
        }
    }

    open spec fn skip_on_error(s: Seq<u8>) -> nat {
        0
    }

    fn serialize(&self, out: &mut Vec<u8>) -> (r: crate::Result<()>) {
        put_leb(out, zigzag_of(self.0 as i128));
        Ok(())
    }

    fn deserialize(c: &mut Cursor<&[u8]>) -> (r: crate::Result<Leb<i32>>) {
        proof {
            assert(Self::skip_on_error(c.rest()) == 0);
        }
        proof {
            lemma_leb_cap_values();
            lemma_leb_bound(c.rest(), u32::MAX as nat + 1);
        }
        match get_leb(c, u32::MAX as u128) {
            Ok(v) => Ok(Leb(unzigzag_of(v) as i32)),
            Err(e) => Err(e),
        }
    }

    proof fn lemma_parse_wire(&self, rest: Seq<u8>) {
        lemma_leb_cap_values();
        lemma_zigzag_round_trip(self.0 as int, i32::MAX as int + 1);
        lemma_leb_round_trip(zigzag(self.0 as int), u32::MAX as nat + 1, rest);
    }

    proof fn lemma_parse_truncated(&self, k: nat) {
        lemma_leb_cap_values();
        lemma_zigzag_round_trip(self.0 as int, i32::MAX as int + 1);
        lemma_leb_truncated(zigzag(self.0 as int), u32::MAX as nat + 1, k);
    }

    proof fn lemma_parse_within(s: Seq<u8>) {
        lemma_leb_cap_values();
        lemma_leb_bound(s, u32::MAX as nat + 1);
    }
}

impl DataType for Leb<i64> {
    type Model = Leb<i64>;

    open spec fn model(&self) -> Leb<i64> {
        *self
    }

    open spec fn encodable(&self) -> bool {
        true
    }

    open spec fn wire(&self) -> Seq<u8> {
        leb_wire(zigzag(self.0 as int))
    }

    open spec fn parse(s: Seq<u8>) -> core::result::Result<(Leb<i64>, nat), ErrorKind> {
        match leb_parse(s, u64::MAX as nat + 1) {
            Ok((v, n)) => Ok((Leb(unzigzag(v) as i64), n)),
            Err(e) => Err(e),
        }
    }

    open spec fn skip_on_error(s: Seq<u8>) -> nat {
        0
    }

    fn serialize(&self, out: &mut Vec<u8>) -> (r: crate::Result<()>) {
        put_leb(out, zigzag_of(self.0 as i128));
        Ok(())
    }

    fn deserialize(c: &mut Cursor<&[u8]>) -> (r: crate::Result<Leb<i64>>) {
        proof {
            assert(Self::skip_on_error(c.rest()) == 0);
        }
        proof {
            lemma_leb_cap_values();
            lemma_leb_bound(c.rest(), u64::MAX as nat + 1);
        }
        match get_leb(c, u64::MAX as u128) {
            Ok(v) => Ok(Leb(unzigzag_of(v) as i64)),
            Err(e) => Err(e),
        }
    }

    proof fn lemma_parse_wire(&self, rest: Seq<u8>) {
        lemma_leb_cap_values();
        lemma_zigzag_round_trip(self.0 as int, i64::MAX as int + 1);
        lemma_leb_round_trip(zigzag(self.0 as int), u64::MAX as nat + 1, rest);
    }

    proof fn lemma_parse_truncated(&self, k: nat) {
        lemma_leb_cap_values();
        lemma_zigzag_round_trip(self.0 as int, i64::MAX as int + 1);
        lemma_leb_truncated(zigzag(self.0 as int), u64::MAX as nat + 1, k);
    }

    proof fn lemma_parse_within(s: Seq<u8>) {
        lemma_leb_cap_values();
        lemma_leb_bound(s, u64::MAX as nat + 1);
    }
}

impl DataType for Leb<i128> {
    type Model = Leb<i128>;

    open spec fn model(&self) -> Leb<i128> {
        *self
    }

    open spec fn encodable(&self) -> bool {
        true
    }

    open spec fn wire(&self) -> Seq<u8> {
        leb_wire(zigzag(self.0 as int))
    }

    open spec fn parse(s: Seq<u8>) -> core::result::Result<(Leb<i128>, nat), ErrorKind> {
        match leb_parse(s, u128::MAX as nat + 1) {
            Ok((v, n)) => Ok((Leb(unzigzag(v) as i128), n)),
            Err(e) => Err(e),
        }
    }

    open spec fn skip_on_error(s: Seq<u8>) -> nat {
        0
    }

    fn serialize(&self, out: &mut Vec<u8>) -> (r: crate::Result<()>) {
        put_leb(out, zigzag_of(self.0 as i128));
        Ok(())
    }

    fn deserialize(c: &mut Cursor<&[u8]>) -> (r: crate::Result<Leb<i128>>) {
        proof {
            assert(Self::skip_on_error(c.rest()) == 0);
        }
        proof {
            lemma_leb_cap_values();
            lemma_leb_bound(c.rest(), u128::MAX as nat + 1);
        }
        match get_leb(c, u128::MAX as u128) {
            Ok(v) => Ok(Leb(unzigzag_of(v) as i128)),
            Err(e) => Err(e),
        }
    }

    proof fn lemma_parse_wire(&self, rest: Seq<u8>) {
        lemma_leb_cap_values();
        lemma_zigzag_round_trip(self.0 as int, i128::MAX as int + 1);
        lemma_leb_round_trip(zigzag(self.0 as int), u128::MAX as nat + 1, rest);
    }

    proof fn lemma_parse_truncated(&self, k: nat) {
        lemma_leb_cap_values();
        lemma_zigzag_round_trip(self.0 as int, i128::MAX as int + 1);
        lemma_leb_truncated(zigzag(self.0 as int), u128::MAX as nat + 1, k);
    }

    proof fn lemma_parse_within(s: Seq<u8>) {
        lemma_leb_cap_values();
        lemma_leb_bound(s, u128::MAX as nat + 1);
    }
}

/// The host's `usize` is 32 or 64 bits wide.
proof fn lemma_leb_cap_usize()
    ensures
        leb_cap_ok(usize::MAX as nat + 1),
        usize::MAX as nat + 1 == 2 * (isize::MAX as nat + 1),
        isize::MIN == -isize::MAX - 1,
{
    lemma_leb_cap_values();
    assert(usize::MAX == 0xffff_ffff || usize::MAX == 0xffff_ffff_ffff_ffff);
}

impl DataType for Leb<usize> {
    type Model = Leb<usize>;

    open spec fn model(&self) -> Leb<usize> {
        *self
    }

    open spec fn encodable(&self) -> bool {
        true
    }

    open spec fn wire(&self) -> Seq<u8> {
        leb_wire(self.0 as nat)
    }

    open spec fn parse(s: Seq<u8>) -> core::result::Result<(Leb<usize>, nat), ErrorKind> {
        match leb_parse(s, usize::MAX as nat + 1) {
            Ok((v, n)) => Ok((Leb(v as usize), n)),
            Err(e) => Err(e),
        }
    }

    open spec fn skip_on_error(s: Seq<u8>) -> nat {
        0
    }

    fn serialize(&self, out: &mut Vec<u8>) -> (r: crate::Result<()>) {
        put_leb(out, self.0 as u128);
        Ok(())
    }

    fn deserialize(c: &mut Cursor<&[u8]>) -> (r: crate::Result<Leb<usize>>) {
        proof {
            assert(Self::skip_on_error(c.rest()) == 0);
        }
        proof {
            lemma_leb_cap_usize();
            lemma_leb_bound(c.rest(), usize::MAX as nat + 1);
        }
        match get_leb(c, usize::MAX as u128) {
            Ok(v) => Ok(Leb(v as usize)),
            Err(e) => Err(e),
        }
    }

    proof fn lemma_parse_wire(&self, rest: Seq<u8>) {
        lemma_leb_cap_usize();
        lemma_leb_round_trip(self.0 as nat, usize::MAX as nat + 1, rest);
    }

    proof fn lemma_parse_truncated(&self, k: nat) {
        lemma_leb_cap_usize();
        lemma_leb_truncated(self.0 as nat, usize::MAX as nat + 1, k);
    }

    proof fn lemma_parse_within(s: Seq<u8>) {
        lemma_leb_cap_usize();
        lemma_leb_bound(s, usize::MAX as nat + 1);
    }
}

impl DataType for Leb<isize> {
    type Model = Leb<isize>;

    open spec fn model(&self) -> Leb<isize> {
        *self
    }

    open spec fn encodable(&self) -> bool {
        true
    }

    open spec fn wire(&self) -> Seq<u8> {
        leb_wire(zigzag(self.0 as int))
    }

    open spec fn parse(s: Seq<u8>) -> core::result::Result<(Leb<isize>, nat), ErrorKind> {
        match leb_parse(s, usize::MAX as nat + 1) {
            Ok((v, n)) => Ok((Leb(unzigzag(v) as isize), n)),
            Err(e) => Err(e),
        }
    }

    open spec fn skip_on_error(s: Seq<u8>) -> nat {
        0
    }

    fn serialize(&self, out: &mut Vec<u8>) -> (r: crate::Result<()>) {
        put_leb(out, zigzag_of(self.0 as i128));
        Ok(())
    }

    fn deserialize(c: &mut Cursor<&[u8]>) -> (r: crate::Result<Leb<isize>>) {
        proof {
            assert(Self::skip_on_error(c.rest()) == 0);
        }
        proof {
            lemma_leb_cap_usize();
            lemma_leb_bound(c.rest(), usize::MAX as nat + 1);
        }
        match get_leb(c, usize::MAX as u128) {
            Ok(v) => Ok(Leb(unzigzag_of(v) as isize)),
            Err(e) => Err(e),
        }
    }

    proof fn lemma_parse_wire(&self, rest: Seq<u8>) {
        lemma_leb_cap_usize();
        lemma_zigzag_round_trip(self.0 as int, isize::MAX as int + 1);
        lemma_leb_round_trip(zigzag(self.0 as int), usize::MAX as nat + 1, rest);
    }

    proof fn lemma_parse_truncated(&self, k: nat) {
        lemma_leb_cap_usize();
        lemma_zigzag_round_trip(self.0 as int, isize::MAX as int + 1);
        lemma_leb_truncated(zigzag(self.0 as int), usize::MAX as nat + 1, k);
    }

    proof fn lemma_parse_within(s: Seq<u8>) {
        lemma_leb_cap_usize();
        lemma_leb_bound(s, usize::MAX as nat + 1);
    }
}

/// The least and the greatest value of each signed width encode alike but
/// for the first byte, which is one more for the least.
pub proof fn lemma_signed_extremes()
    ensures
        Leb(i16::MIN).wire() == Leb(i16::MAX).wire().update(0, (Leb(i16::MAX).wire()[0] + 1) as u8),
        Leb(i32::MIN).wire() == Leb(i32::MAX).wire().update(0, (Leb(i32::MAX).wire()[0] + 1) as u8),
        Leb(i64::MIN).wire() == Leb(i64::MAX).wire().update(0, (Leb(i64::MAX).wire()[0] + 1) as u8),
        Leb(i128::MIN).wire() == Leb(i128::MAX).wire().update(
            0,
            (Leb(i128::MAX).wire()[0] + 1) as u8,
        ),
        Leb(isize::MIN).wire() == Leb(isize::MAX).wire().update(
            0,
            (Leb(isize::MAX).wire()[0] + 1) as u8,
        ),
{
    lemma_zigzag_neighbours(i16::MAX as int);
    lemma_zigzag_neighbours(i32::MAX as int);
    lemma_zigzag_neighbours(i64::MAX as int);
    lemma_zigzag_neighbours(i128::MAX as int);
    lemma_zigzag_neighbours(isize::MAX as int);
    lemma_leb_cap_usize();
}

/// One past the greatest value of an unsigned width, encoded in the
/// unbounded family, is refused with `IntegerOverflow` when decoded as that
/// width.
pub proof fn lemma_one_past_max_overflows()
    ensures
        <Leb<u16> as DataType>::parse(Leb(0x1_0000u128).wire()) is Err,
        <Leb<u16> as DataType>::parse(Leb(0x1_0000u128).wire())->Err_0
            == ErrorKind::IntegerOverflow,
        <Leb<u32> as DataType>::parse(Leb(0x1_0000_0000u128).wire())->Err_0
            == ErrorKind::IntegerOverflow,
        <Leb<u32> as DataType>::parse(Leb(0x1_0000_0000u128).wire()) is Err,
        <Leb<u64> as DataType>::parse(Leb(0x1_0000_0000_0000_0000u128).wire()) is Err,
        <Leb<u64> as DataType>::parse(Leb(0x1_0000_0000_0000_0000u128).wire())->Err_0
            == ErrorKind::IntegerOverflow,
{
    let e = Seq::<u8>::empty();
    lemma_leb_overflow(u16::MAX as nat + 1, u16::MAX as nat + 1, e);
    lemma_leb_overflow(u32::MAX as nat + 1, u32::MAX as nat + 1, e);
    lemma_leb_overflow(u64::MAX as nat + 1, u64::MAX as nat + 1, e);
    assert(leb_wire(u16::MAX as nat + 1) + e =~= leb_wire(u16::MAX as nat + 1));
    assert(leb_wire(u32::MAX as nat + 1) + e =~= leb_wire(u32::MAX as nat + 1));
    assert(leb_wire(u64::MAX as nat + 1) + e =~= leb_wire(u64::MAX as nat + 1));
}

} // verus!
