//! Bounded variable-width unsigned integers. The leading bits of the first
//! byte say how many bytes follow; the remaining bits of the first byte and
//! the following bytes hold the value, most significant first.
use vstd::prelude::*;

use crate::codec::DataType;
use crate::cursor::Cursor;
use crate::ErrorKind;

verus! {

/// The bounded families, named by the number of value bits they carry.
#[derive(Debug, Clone, Copy, PartialEq, Eq, Structural)]
pub enum Family {
    /// One selector bit: one or two bytes.
    Bits15,
    /// Selectors `0`, `10`, `11`: one to three bytes.
    Bits22,
    /// Selectors `0`, `10`, `110`, `111`: one to four bytes.
    Bits29,
    /// Two selector bits: one to four bytes.
    Bits30,
}

impl Family {
    /// The largest value the family can carry.
    pub open spec fn max(self) -> nat {
        match self {
            Family::Bits15 => 0x7fff,
            Family::Bits22 => 0x3f_ffff,
            Family::Bits29 => 0x1fff_ffff,
            Family::Bits30 => 0x3fff_ffff,
        }
    }

    /// The number of bytes that encode `v`: the fewest whose value bits hold it.
    pub open spec fn size_for(self, v: nat) -> nat {
        match self {
            Family::Bits15 => if v < 0x80 { 1 } else { 2 },
            Family::Bits22 => if v < 0x80 { 1 } else if v < 0x4000 { 2 } else { 3 },
            Family::Bits29 => if v < 0x80 {
                1
            } else if v < 0x4000 {
                2
            } else if v < 0x20_0000 {
                3
            } else {
                4
            },
            Family::Bits30 => if v < 0x40 {
                1
            } else if v < 0x4000 {
                2
            } else if v < 0x40_0000 {
                3
            } else {
                4
            },
        }
    }

    /// The number of bytes announced by a first byte `b`.
    pub open spec fn size_of_lead(self, b: u8) -> nat {
        match self {
            Family::Bits15 => if b < 0x80 { 1 } else { 2 },
            Family::Bits22 => if b < 0x80 { 1 } else if b < 0xc0 { 2 } else { 3 },
            Family::Bits29 => if b < 0x80 {
                1
            } else if b < 0xc0 {
                2
            } else if b < 0xe0 {
                3
            } else {
                4
            },
            Family::Bits30 => if b < 0x40 {
                1
            } else if b < 0x80 {
                2
            } else if b < 0xc0 {
                3
            } else {
                4
            },
        }
    }

    /// The selector bits of a `k`-byte encoding, in place in the first byte.
    pub open spec fn selector(self, k: nat) -> nat {
        match self {
            Family::Bits30 => if k == 1 {
                0
            } else if k == 2 {
                0x40
            } else if k == 3 {
                0x80
            } else {
                0xc0
            },
            _ => if k == 1 {
                0
            } else if k == 2 {
                0x80
            } else if k == 3 {
                0xc0
            } else {
                0xe0
            },
        }
    }

    /// The largest value, as an executable number.
    pub fn max_value(self) -> (r: u32)
        ensures
            r == self.max(),
    {
        match self {
            Family::Bits15 => 0x7fff,
            Family::Bits22 => 0x3f_ffff,
            Family::Bits29 => 0x1fff_ffff,
            Family::Bits30 => 0x3fff_ffff,
        }
    }

    fn exec_size_for(self, v: u32) -> (r: u32)
        ensures
            r == self.size_for(v as nat),
    {
        match self {
            Family::Bits15 => if v < 0x80 { 1 } else { 2 },
            Family::Bits22 => if v < 0x80 { 1 } else if v < 0x4000 { 2 } else { 3 },
            Family::Bits29 => if v < 0x80 {
                1
            } else if v < 0x4000 {
                2
            } else if v < 0x20_0000 {
                3
            } else {
                4
            },
            Family::Bits30 => if v < 0x40 {
                1
            } else if v < 0x4000 {
                2
            } else if v < 0x40_0000 {
                3
            } else {
                4
            },
        }
    }

    fn exec_size_of_lead(self, b: u8) -> (r: u32)
        ensures
            r == self.size_of_lead(b),
    {
        match self {
            Family::Bits15 => if b < 0x80 { 1 } else { 2 },
            Family::Bits22 => if b < 0x80 { 1 } else if b < 0xc0 { 2 } else { 3 },
            Family::Bits29 => if b < 0x80 {
                1
            } else if b < 0xc0 {
                2
            } else if b < 0xe0 {
                3
            } else {
                4
            },
            Family::Bits30 => if b < 0x40 {
                1
            } else if b < 0x80 {
                2
            } else if b < 0xc0 {
                3
            } else {
                4
            },
        }
    }

    fn exec_selector(self, k: u32) -> (r: u32)
        ensures
            r == self.selector(k as nat),
    {
        match self {
            Family::Bits30 => if k == 1 {
                0
            } else if k == 2 {
                0x40
            } else if k == 3 {
                0x80
            } else {
                0xc0
            },
            _ => if k == 1 {
                0
            } else if k == 2 {
                0x80
            } else if k == 3 {
                0xc0
            } else {
                0xe0
            },
        }
    }
}

/// The bytes that encode `v` in family `f`: the selector added to the high
/// part of `v` in the first byte, then the lower bytes of `v`, most
/// significant first.
pub open spec fn var_wire(f: Family, v: nat) -> Seq<u8> {
    let k = f.size_for(v);
    let s = f.selector(k);
    if k == 1 {
        seq![(s + v) as u8]
    } else if k == 2 {
        seq![(s + v / 0x100) as u8, (v % 0x100) as u8]
    } else if k == 3 {
        seq![(s + v / 0x1_0000) as u8, (v / 0x100 % 0x100) as u8, (v % 0x100) as u8]
    } else {
        seq![
            (s + v / 0x100_0000) as u8,
            (v / 0x1_0000 % 0x100) as u8,
            (v / 0x100 % 0x100) as u8,
            (v % 0x100) as u8,
        ]
    }
}

/// The value of the `k` bytes at the front of `s` whose first byte carries
/// `s[0] - selector` as its high part.
pub open spec fn var_value(f: Family, s: Seq<u8>, k: nat) -> nat {
    let high = (s[0] - f.selector(k)) as nat;
    if k == 1 {
        high
    } else if k == 2 {
        high * 0x100 + s[1] as nat
    } else if k == 3 {
        high * 0x1_0000 + s[1] as nat * 0x100 + s[2] as nat
    } else {
        high * 0x100_0000 + s[1] as nat * 0x1_0000 + s[2] as nat * 0x100 + s[3] as nat
    }
}

/// The value at the front of `s` in family `f` and its byte count, or
/// `InsufficientBytes` where `s` ends before the announced length.
pub open spec fn var_parse(f: Family, s: Seq<u8>) -> core::result::Result<(nat, nat), ErrorKind> {
    if s.len() == 0 {
        Err(ErrorKind::InsufficientBytes)
    } else if s.len() < f.size_of_lead(s[0]) {
        Err(ErrorKind::InsufficientBytes)
    } else {
        Ok((var_value(f, s, f.size_of_lead(s[0])), f.size_of_lead(s[0])))
    }
}

/// Decoding what `v` encodes to, with anything after it, gives `v` back and
/// takes exactly its bytes.
pub proof fn lemma_var_round_trip(f: Family, v: nat, rest: Seq<u8>)
    requires
        v <= f.max(),
    ensures
        var_parse(f, var_wire(f, v) + rest) == Ok::<(nat, nat), ErrorKind>(
            (v, var_wire(f, v).len()),
        ),
{
    let w = var_wire(f, v);
    let s = w + rest;
    let k = f.size_for(v);
    assert(w.len() == k);
    assert(f.size_of_lead(s[0]) == k);
    assert(var_value(f, s, k) == v);
}

/// Every strict prefix of an encoding is too short.
pub proof fn lemma_var_truncated(f: Family, v: nat, k: nat)
    requires
        v <= f.max(),
        k < var_wire(f, v).len(),
    ensures
        var_parse(f, var_wire(f, v).take(k as int)) == Err::<(nat, nat), ErrorKind>(
            ErrorKind::InsufficientBytes,
        ),
{
    let w = var_wire(f, v);
    assert(w.len() == f.size_for(v));
    assert(f.size_of_lead(w[0]) == f.size_for(v));
    if k > 0 {
        assert(w.take(k as int)[0] == w[0]);
    }
}

/// A decoded value lies within the family and its bytes within `s`.
pub proof fn lemma_var_parse_bound(f: Family, s: Seq<u8>)
    ensures
        var_parse(f, s) is Ok ==> var_parse(f, s)->Ok_0.0 <= f.max() && 1 <= var_parse(
            f,
            s,
        )->Ok_0.1 <= s.len(),
{
}

/// Appends the encoding of `v` in family `f`.
pub fn put_var(out: &mut Vec<u8>, f: Family, v: u32)
    requires
        v <= f.max(),
    ensures
        final(out)@ == old(out)@ + var_wire(f, v as nat),
{
    let k = f.exec_size_for(v);
    let s = f.exec_selector(k);
    if k == 1 {
        out.push((s + v) as u8);
    } else if k == 2 {
        out.push((s + v / 0x100) as u8);
        out.push((v % 0x100) as u8);
    } else if k == 3 {
        out.push((s + v / 0x1_0000) as u8);
        out.push((v / 0x100 % 0x100) as u8);
        out.push((v % 0x100) as u8);
    } else {
        out.push((s + v / 0x100_0000) as u8);
        out.push((v / 0x1_0000 % 0x100) as u8);
        out.push((v / 0x100 % 0x100) as u8);
        out.push((v % 0x100) as u8);
    }
    proof {
        assert(out@ =~= old(out)@ + var_wire(f, v as nat));
    }
}

/// Reads one value of family `f` at the cursor and moves past it.
pub fn get_var(c: &mut Cursor<&[u8]>, f: Family) -> (r: crate::Result<u32>)
    requires
        old(c).wf(),
    ensures
        final(c).wf(),
        final(c).data == old(c).data,
        match var_parse(f, old(c).rest()) {
            Ok((v, n)) => r == Ok::<u32, ErrorKind>(v as u32) && final(c).offset == old(c).offset
                + n,
            Err(e) => r == Err::<u32, ErrorKind>(e) && final(c).offset == old(c).offset,
        },
{
    let ghost s0 = c.rest();
    let start = c.offset;
    let first = match c.read_slice(1) {
        Ok(b) => b[0],
        Err(e) => return Err(e),
    };
    let k = f.exec_size_of_lead(first);
    let tail = match c.read_slice((k - 1) as usize) {
        Ok(t) => t,
        Err(e) => {
            c.offset = start;
            return Err(e);
        },
    };
    let high = (first as u32) - f.exec_selector(k);
    proof {
        assert(tail@ =~= s0.subrange(1, k as int));
    }
    let v = if k == 1 {
        high
    } else if k == 2 {
        high * 0x100 + tail[0] as u32
    } else if k == 3 {
        high * 0x1_0000 + tail[0] as u32 * 0x100 + tail[1] as u32
    } else {
        high * 0x100_0000 + tail[0] as u32 * 0x1_0000 + tail[1] as u32 * 0x100 + tail[2] as u32
    };
    Ok(v)
}

/// A 15-bit unsigned integer in family `Bits15`.
#[derive(Debug, Clone, Copy, PartialEq, Eq, Structural)]
pub struct U15(pub u16);

impl U15 {
    /// The value, where it fits in 15 bits.
    pub fn new(v: u16) -> (r: Option<U15>)
        ensures
            r is Some <==> v <= Family::Bits15.max(),
            r is Some ==> r->Some_0.0 == v,
    {
        if v as u32 <= Family::Bits15.max_value() {
            Some(U15(v))
        } else {
            None
        }
    }

    /// The value carried.
    pub fn get(&self) -> (r: u16)
        ensures
            r == self.0,
    {
        self.0
    }
}

impl DataType for U15 {
    type Model = U15;

    open spec fn model(&self) -> U15 {
        *self
    }

    open spec fn encodable(&self) -> bool {
        self.0 <= Family::Bits15.max()
    }

    open spec fn wire(&self) -> Seq<u8> {
        var_wire(Family::Bits15, self.0 as nat)
    }

    open spec fn parse(s: Seq<u8>) -> core::result::Result<(U15, nat), ErrorKind> {
        match var_parse(Family::Bits15, s) {
            Ok((v, n)) => Ok((U15(v as u16), n)),
            Err(e) => Err(e),
        }
    }

    open spec fn skip_on_error(s: Seq<u8>) -> nat {
        0
    }

    fn serialize(&self, out: &mut Vec<u8>) -> (r: crate::Result<()>) {
        if self.0 as u32 > Family::Bits15.max_value() {
            return Err(ErrorKind::InvalidInput);
        }
        put_var(out, Family::Bits15, self.0 as u32);
        Ok(())
    }

    fn deserialize(c: &mut Cursor<&[u8]>) -> (r: crate::Result<U15>) {
        proof {
            assert(Self::skip_on_error(c.rest()) == 0);
        }
        proof {
            lemma_var_parse_bound(Family::Bits15, c.rest());
        }
        match get_var(c, Family::Bits15) {
            Ok(v) => Ok(U15(v as u16)),
            Err(e) => Err(e),
        }
    }

    proof fn lemma_parse_wire(&self, rest: Seq<u8>) {
        lemma_var_round_trip(Family::Bits15, self.0 as nat, rest);
    }

    proof fn lemma_parse_truncated(&self, k: nat) {
        lemma_var_truncated(Family::Bits15, self.0 as nat, k);
    }

    proof fn lemma_parse_within(s: Seq<u8>) {
        lemma_var_parse_bound(Family::Bits15, s);
    }
}

/// A 22-bit unsigned integer in family `Bits22`.
#[derive(Debug, Clone, Copy, PartialEq, Eq, Structural)]
pub struct U22(pub u32);

impl U22 {
    /// The value, where it fits in 22 bits.
    pub fn new(v: u32) -> (r: Option<U22>)
        ensures
            r is Some <==> v <= Family::Bits22.max(),
            r is Some ==> r->Some_0.0 == v,
    {
        if v as u32 <= Family::Bits22.max_value() {
            Some(U22(v))
        } else {
            None
        }
    }

    /// The value carried.
    pub fn get(&self) -> (r: u32)
        ensures
            r == self.0,
    {
        self.0
    }
}

impl DataType for U22 {
    type Model = U22;

    open spec fn model(&self) -> U22 {
        *self
    }

    open spec fn encodable(&self) -> bool {
        self.0 <= Family::Bits22.max()
    }

    open spec fn wire(&self) -> Seq<u8> {
        var_wire(Family::Bits22, self.0 as nat)
    }

    open spec fn parse(s: Seq<u8>) -> core::result::Result<(U22, nat), ErrorKind> {
        match var_parse(Family::Bits22, s) {
            Ok((v, n)) => Ok((U22(v as u32), n)),
            Err(e) => Err(e),
        }
    }

    open spec fn skip_on_error(s: Seq<u8>) -> nat {
        0
    }

    fn serialize(&self, out: &mut Vec<u8>) -> (r: crate::Result<()>) {
        if self.0 as u32 > Family::Bits22.max_value() {
            return Err(ErrorKind::InvalidInput);
        }
        put_var(out, Family::Bits22, self.0 as u32);
        Ok(())
    }

    fn deserialize(c: &mut Cursor<&[u8]>) -> (r: crate::Result<U22>) {
        proof {
            assert(Self::skip_on_error(c.rest()) == 0);
        }
        proof {
            lemma_var_parse_bound(Family::Bits22, c.rest());
        }
        match get_var(c, Family::Bits22) {
            Ok(v) => Ok(U22(v as u32)),
            Err(e) => Err(e),
        }
    }

    proof fn lemma_parse_wire(&self, rest: Seq<u8>) {
        lemma_var_round_trip(Family::Bits22, self.0 as nat, rest);
    }

    proof fn lemma_parse_truncated(&self, k: nat) {
        lemma_var_truncated(Family::Bits22, self.0 as nat, k);
    }

    proof fn lemma_parse_within(s: Seq<u8>) {
        lemma_var_parse_bound(Family::Bits22, s);
    }
}

/// A 29-bit unsigned integer in family `Bits29`.
#[derive(Debug, Clone, Copy, PartialEq, Eq, Structural)]
pub struct U29(pub u32);

impl U29 {
    /// The value, where it fits in 29 bits.
    pub fn new(v: u32) -> (r: Option<U29>)
        ensures
            r is Some <==> v <= Family::Bits29.max(),
            r is Some ==> r->Some_0.0 == v,
    {
        if v as u32 <= Family::Bits29.max_value() {
            Some(U29(v))
        } else {
            None
        }
    }

    /// The value carried.
    pub fn get(&self) -> (r: u32)
        ensures
            r == self.0,
    {
        self.0
    }
}

impl DataType for U29 {
    type Model = U29;

    open spec fn model(&self) -> U29 {
        *self
    }

    open spec fn encodable(&self) -> bool {
        self.0 <= Family::Bits29.max()
    }

    open spec fn wire(&self) -> Seq<u8> {
        var_wire(Family::Bits29, self.0 as nat)
    }

    open spec fn parse(s: Seq<u8>) -> core::result::Result<(U29, nat), ErrorKind> {
        match var_parse(Family::Bits29, s) {
            Ok((v, n)) => Ok((U29(v as u32), n)),
            Err(e) => Err(e),
        }
    }

    open spec fn skip_on_error(s: Seq<u8>) -> nat {
        0
    }

    fn serialize(&self, out: &mut Vec<u8>) -> (r: crate::Result<()>) {
        if self.0 as u32 > Family::Bits29.max_value() {
            return Err(ErrorKind::InvalidInput);
        }
        put_var(out, Family::Bits29, self.0 as u32);
        Ok(())
    }

    fn deserialize(c: &mut Cursor<&[u8]>) -> (r: crate::Result<U29>) {
        proof {
            assert(Self::skip_on_error(c.rest()) == 0);
        }
        proof {
            lemma_var_parse_bound(Family::Bits29, c.rest());
        }
        match get_var(c, Family::Bits29) {
            Ok(v) => Ok(U29(v as u32)),
            Err(e) => Err(e),
        }
    }

    proof fn lemma_parse_wire(&self, rest: Seq<u8>) {
        lemma_var_round_trip(Family::Bits29, self.0 as nat, rest);
    }

    proof fn lemma_parse_truncated(&self, k: nat) {
        lemma_var_truncated(Family::Bits29, self.0 as nat, k);
    }

    proof fn lemma_parse_within(s: Seq<u8>) {
        lemma_var_parse_bound(Family::Bits29, s);
    }
}

/// A 30-bit unsigned integer in family `Bits30`.
#[derive(Debug, Clone, Copy, PartialEq, Eq, Structural)]
pub struct U30(pub u32);

impl U30 {
    /// The value, where it fits in 30 bits.
    pub fn new(v: u32) -> (r: Option<U30>)
        ensures
            r is Some <==> v <= Family::Bits30.max(),
            r is Some ==> r->Some_0.0 == v,
    {
        if v as u32 <= Family::Bits30.max_value() {
            Some(U30(v))
        } else {
            None
        }
    }

    /// The value carried.
    pub fn get(&self) -> (r: u32)
        ensures
            r == self.0,
    {
        self.0
    }
}

impl DataType for U30 {
    type Model = U30;

    open spec fn model(&self) -> U30 {
        *self
    }

    open spec fn encodable(&self) -> bool {
        self.0 <= Family::Bits30.max()
    }

    open spec fn wire(&self) -> Seq<u8> {
        var_wire(Family::Bits30, self.0 as nat)
    }

    open spec fn parse(s: Seq<u8>) -> core::result::Result<(U30, nat), ErrorKind> {
        match var_parse(Family::Bits30, s) {
            Ok((v, n)) => Ok((U30(v as u32), n)),
            Err(e) => Err(e),
        }
    }

    open spec fn skip_on_error(s: Seq<u8>) -> nat {
        0
    }

    fn serialize(&self, out: &mut Vec<u8>) -> (r: crate::Result<()>) {
        if self.0 as u32 > Family::Bits30.max_value() {
            return Err(ErrorKind::InvalidInput);
        }
        put_var(out, Family::Bits30, self.0 as u32);
        Ok(())
    }

    fn deserialize(c: &mut Cursor<&[u8]>) -> (r: crate::Result<U30>) {
        proof {
            assert(Self::skip_on_error(c.rest()) == 0);
        }
        proof {
            lemma_var_parse_bound(Family::Bits30, c.rest());
        }
        match get_var(c, Family::Bits30) {
            Ok(v) => Ok(U30(v as u32)),
            Err(e) => Err(e),
        }
    }

    proof fn lemma_parse_wire(&self, rest: Seq<u8>) {
        lemma_var_round_trip(Family::Bits30, self.0 as nat, rest);
    }

    proof fn lemma_parse_truncated(&self, k: nat) {
        lemma_var_truncated(Family::Bits30, self.0 as nat, k);
    }

    proof fn lemma_parse_within(s: Seq<u8>) {
        lemma_var_parse_bound(Family::Bits30, s);
    }
}

} // verus!
