//! Fixed-width scalars: integers as their little-endian bytes, `bool` as one
//! byte, `char` as its 32-bit code point.
use vstd::prelude::*;
use vstd::utf8::{char_is_scalar, char_u32_cast, is_scalar};

use crate::bytes::{
    get_le, host_bytes, host_width, lemma_host_bytes, lemma_le_round_trip, lemma_le_value_bound,
    lemma_pow256_values, le_bytes, le_value, put_le,
};
use crate::codec::DataType;
use crate::cursor::Cursor;
use crate::ErrorKind;

verus! {

/// Relies on `char::from_u32`: `Some` exactly for the Unicode scalar values,
/// holding the character with that code point.
#[verifier::external_body]
fn char_from_code(v: u32) -> (r: Option<char>)
    ensures
        r is Some <==> is_scalar(v),
        r is Some ==> r->Some_0 as u32 == v,
{
    char::from_u32(v)
}

impl DataType for u8 {
    type Model = u8;

    open spec fn model(&self) -> u8 {
        *self
    }

    open spec fn encodable(&self) -> bool {
        true
    }

    open spec fn wire(&self) -> Seq<u8> {
        seq![*self]
    }

    open spec fn parse(s: Seq<u8>) -> core::result::Result<(u8, nat), ErrorKind> {
        if s.len() == 0 {
            Err(ErrorKind::InsufficientBytes)
        } else {
            Ok((s[0], 1))
        }
    }

    open spec fn skip_on_error(s: Seq<u8>) -> nat {
        0
    }

    fn serialize(&self, out: &mut Vec<u8>) -> (r: crate::Result<()>) {
        out.push(*self);
        Ok(())
    }

    fn deserialize(c: &mut Cursor<&[u8]>) -> (r: crate::Result<u8>) {
        proof {
            assert(Self::skip_on_error(c.rest()) == 0);
        }
        match c.read_byte() {
            Ok(b) => Ok(b),
            Err(e) => Err(e),
        }
    }

    proof fn lemma_parse_wire(&self, rest: Seq<u8>) {
    }

    proof fn lemma_parse_truncated(&self, k: nat) {
    }

    proof fn lemma_parse_within(s: Seq<u8>) {
    }
}

impl DataType for i8 {
    type Model = i8;

    open spec fn model(&self) -> i8 {
        *self
    }

    open spec fn encodable(&self) -> bool {
        true
    }

    open spec fn wire(&self) -> Seq<u8> {
        seq![*self as u8]
    }

    open spec fn parse(s: Seq<u8>) -> core::result::Result<(i8, nat), ErrorKind> {
        if s.len() == 0 {
            Err(ErrorKind::InsufficientBytes)
        } else {
            Ok((s[0] as i8, 1))
        }
    }

    open spec fn skip_on_error(s: Seq<u8>) -> nat {
        0
    }

    fn serialize(&self, out: &mut Vec<u8>) -> (r: crate::Result<()>) {
        out.push(*self as u8);
        Ok(())
    }

    fn deserialize(c: &mut Cursor<&[u8]>) -> (r: crate::Result<i8>) {
        proof {
            assert(Self::skip_on_error(c.rest()) == 0);
        }
        match c.read_byte() {
            Ok(b) => Ok(b as i8),
            Err(e) => Err(e),
        }
    }

    proof fn lemma_parse_wire(&self, rest: Seq<u8>) {
        let x = *self;
        assert((x as u8) as i8 == x) by (bit_vector);
    }

    proof fn lemma_parse_truncated(&self, k: nat) {
    }

    proof fn lemma_parse_within(s: Seq<u8>) {
    }
}

impl DataType for bool {
    type Model = bool;

    open spec fn model(&self) -> bool {
        *self
    }

    open spec fn encodable(&self) -> bool {
        true
    }

    open spec fn wire(&self) -> Seq<u8> {
        seq![if *self { 1u8 } else { 0u8 }]
    }

    open spec fn parse(s: Seq<u8>) -> core::result::Result<(bool, nat), ErrorKind> {
        if s.len() == 0 {
            Err(ErrorKind::InsufficientBytes)
        } else {
            Ok((s[0] != 0, 1))
        }
    }

    open spec fn skip_on_error(s: Seq<u8>) -> nat {
        0
    }

    fn serialize(&self, out: &mut Vec<u8>) -> (r: crate::Result<()>) {
        out.push(if *self { 1u8 } else { 0u8 });
        Ok(())
    }

    fn deserialize(c: &mut Cursor<&[u8]>) -> (r: crate::Result<bool>) {
        proof {
            assert(Self::skip_on_error(c.rest()) == 0);
        }
        match c.read_byte() {
            Ok(b) => Ok(b != 0),
            Err(e) => Err(e),
        }
    }

    proof fn lemma_parse_wire(&self, rest: Seq<u8>) {
    }

    proof fn lemma_parse_truncated(&self, k: nat) {
    }

    proof fn lemma_parse_within(s: Seq<u8>) {
    }
}

impl DataType for u16 {
    type Model = u16;

    open spec fn model(&self) -> u16 {
        *self
    }

    open spec fn encodable(&self) -> bool {
        true
    }

    open spec fn wire(&self) -> Seq<u8> {
        le_bytes(*self as nat, 2)
    }

    open spec fn parse(s: Seq<u8>) -> core::result::Result<(u16, nat), ErrorKind> {
        if s.len() < 2 {
            Err(ErrorKind::InsufficientBytes)
        } else {
            Ok((le_value(s.take(2)) as u16, 2))
        }
    }

    open spec fn skip_on_error(s: Seq<u8>) -> nat {
        0
    }

    fn serialize(&self, out: &mut Vec<u8>) -> (r: crate::Result<()>) {
        proof {
            lemma_pow256_values();
        }
        put_le(out, *self as u128, 2);
        Ok(())
    }

    fn deserialize(c: &mut Cursor<&[u8]>) -> (r: crate::Result<u16>) {
        proof {
            assert(Self::skip_on_error(c.rest()) == 0);
        }
        let ghost s = c.rest();
        proof {
            lemma_pow256_values();
            lemma_le_value_bound(s.take(2));
        }
        match get_le(c, 2) {
            Ok(v) => Ok(v as u16),
            Err(e) => Err(e),
        }
    }

    proof fn lemma_parse_wire(&self, rest: Seq<u8>) {
        lemma_pow256_values();
        lemma_le_round_trip(*self as nat, 2);
        assert((self.wire() + rest).take(2) =~= self.wire());
    }

    proof fn lemma_parse_truncated(&self, k: nat) {
        lemma_pow256_values();
        lemma_le_round_trip(*self as nat, 2);
    }

    proof fn lemma_parse_within(s: Seq<u8>) {
    }
}

impl DataType for u32 {
    type Model = u32;

    open spec fn model(&self) -> u32 {
        *self
    }

    open spec fn encodable(&self) -> bool {
        true
    }

    open spec fn wire(&self) -> Seq<u8> {
        le_bytes(*self as nat, 4)
    }

    open spec fn parse(s: Seq<u8>) -> core::result::Result<(u32, nat), ErrorKind> {
        if s.len() < 4 {
            Err(ErrorKind::InsufficientBytes)
        } else {
            Ok((le_value(s.take(4)) as u32, 4))
        }
    }

    open spec fn skip_on_error(s: Seq<u8>) -> nat {
        0
    }

    fn serialize(&self, out: &mut Vec<u8>) -> (r: crate::Result<()>) {
        proof {
            lemma_pow256_values();
        }
        put_le(out, *self as u128, 4);
        Ok(())
    }

    fn deserialize(c: &mut Cursor<&[u8]>) -> (r: crate::Result<u32>) {
        proof {
            assert(Self::skip_on_error(c.rest()) == 0);
        }
        let ghost s = c.rest();
        proof {
            lemma_pow256_values();
            lemma_le_value_bound(s.take(4));
        }
        match get_le(c, 4) {
            Ok(v) => Ok(v as u32),
            Err(e) => Err(e),
        }
    }

    proof fn lemma_parse_wire(&self, rest: Seq<u8>) {
        lemma_pow256_values();
        lemma_le_round_trip(*self as nat, 4);
        assert((self.wire() + rest).take(4) =~= self.wire());
    }

    proof fn lemma_parse_truncated(&self, k: nat) {
        lemma_pow256_values();
        lemma_le_round_trip(*self as nat, 4);
    }

    proof fn lemma_parse_within(s: Seq<u8>) {
    }
}

impl DataType for u64 {
    type Model = u64;

    open spec fn model(&self) -> u64 {
        *self
    }

    open spec fn encodable(&self) -> bool {
        true
    }

    open spec fn wire(&self) -> Seq<u8> {
        le_bytes(*self as nat, 8)
    }

    open spec fn parse(s: Seq<u8>) -> core::result::Result<(u64, nat), ErrorKind> {
        if s.len() < 8 {
            Err(ErrorKind::InsufficientBytes)
        } else {
            Ok((le_value(s.take(8)) as u64, 8))
        }
    }

    open spec fn skip_on_error(s: Seq<u8>) -> nat {
        0
    }

    fn serialize(&self, out: &mut Vec<u8>) -> (r: crate::Result<()>) {
        proof {
            lemma_pow256_values();
        }
        put_le(out, *self as u128, 8);
        Ok(())
    }

    fn deserialize(c: &mut Cursor<&[u8]>) -> (r: crate::Result<u64>) {
        proof {
            assert(Self::skip_on_error(c.rest()) == 0);
        }
        let ghost s = c.rest();
        proof {
            lemma_pow256_values();
            lemma_le_value_bound(s.take(8));
        }
        match get_le(c, 8) {
            Ok(v) => Ok(v as u64),
            Err(e) => Err(e),
        }
    }

    proof fn lemma_parse_wire(&self, rest: Seq<u8>) {
        lemma_pow256_values();
        lemma_le_round_trip(*self as nat, 8);
        assert((self.wire() + rest).take(8) =~= self.wire());
    }

    proof fn lemma_parse_truncated(&self, k: nat) {
        lemma_pow256_values();
        lemma_le_round_trip(*self as nat, 8);
    }

    proof fn lemma_parse_within(s: Seq<u8>) {
    }
}

impl DataType for u128 {
    type Model = u128;

    open spec fn model(&self) -> u128 {
        *self
    }

    open spec fn encodable(&self) -> bool {
        true
    }

    open spec fn wire(&self) -> Seq<u8> {
        le_bytes(*self as nat, 16)
    }

    open spec fn parse(s: Seq<u8>) -> core::result::Result<(u128, nat), ErrorKind> {
        if s.len() < 16 {
            Err(ErrorKind::InsufficientBytes)
        } else {
            Ok((le_value(s.take(16)) as u128, 16))
        }
    }

    open spec fn skip_on_error(s: Seq<u8>) -> nat {
        0
    }

    fn serialize(&self, out: &mut Vec<u8>) -> (r: crate::Result<()>) {
        proof {
            lemma_pow256_values();
        }
        put_le(out, *self as u128, 16);
        Ok(())
    }

    fn deserialize(c: &mut Cursor<&[u8]>) -> (r: crate::Result<u128>) {
        proof {
            assert(Self::skip_on_error(c.rest()) == 0);
        }
        match get_le(c, 16) {
            Ok(v) => Ok(v as u128),
            Err(e) => Err(e),
        }
    }

    proof fn lemma_parse_wire(&self, rest: Seq<u8>) {
        lemma_pow256_values();
        lemma_le_round_trip(*self as nat, 16);
        assert((self.wire() + rest).take(16) =~= self.wire());
    }

    proof fn lemma_parse_truncated(&self, k: nat) {
        lemma_pow256_values();
        lemma_le_round_trip(*self as nat, 16);
    }

    proof fn lemma_parse_within(s: Seq<u8>) {
    }
}

impl DataType for i16 {
    type Model = i16;

    open spec fn model(&self) -> i16 {
        *self
    }

    open spec fn encodable(&self) -> bool {
        true
    }

    open spec fn wire(&self) -> Seq<u8> {
        le_bytes((*self as u16) as nat, 2)
    }

    open spec fn parse(s: Seq<u8>) -> core::result::Result<(i16, nat), ErrorKind> {
        if s.len() < 2 {
            Err(ErrorKind::InsufficientBytes)
        } else {
            Ok(((le_value(s.take(2)) as u16) as i16, 2))
        }
    }

    open spec fn skip_on_error(s: Seq<u8>) -> nat {
        0
    }

    fn serialize(&self, out: &mut Vec<u8>) -> (r: crate::Result<()>) {
        proof {
            lemma_pow256_values();
        }
        put_le(out, (*self as u16) as u128, 2);
        Ok(())
    }

    fn deserialize(c: &mut Cursor<&[u8]>) -> (r: crate::Result<i16>) {
        proof {
            assert(Self::skip_on_error(c.rest()) == 0);
        }
        let ghost s = c.rest();
        proof {
            lemma_pow256_values();
            lemma_le_value_bound(s.take(2));
        }
        match get_le(c, 2) {
            Ok(v) => Ok((v as u16) as i16),
            Err(e) => Err(e),
        }
    }

    proof fn lemma_parse_wire(&self, rest: Seq<u8>) {
        let x = *self;
        lemma_pow256_values();
        lemma_le_round_trip((x as u16) as nat, 2);
        assert((self.wire() + rest).take(2) =~= self.wire());
        assert((x as u16) as i16 == x) by (bit_vector);
    }

    proof fn lemma_parse_truncated(&self, k: nat) {
        lemma_pow256_values();
        lemma_le_round_trip((*self as u16) as nat, 2);
    }

    proof fn lemma_parse_within(s: Seq<u8>) {
    }
}

impl DataType for i32 {
    type Model = i32;

    open spec fn model(&self) -> i32 {
        *self
    }

    open spec fn encodable(&self) -> bool {
        true
    }

    open spec fn wire(&self) -> Seq<u8> {
        le_bytes((*self as u32) as nat, 4)
    }

    open spec fn parse(s: Seq<u8>) -> core::result::Result<(i32, nat), ErrorKind> {
        if s.len() < 4 {
            Err(ErrorKind::InsufficientBytes)
        } else {
            Ok(((le_value(s.take(4)) as u32) as i32, 4))
        }
    }

    open spec fn skip_on_error(s: Seq<u8>) -> nat {
        0
    }

    fn serialize(&self, out: &mut Vec<u8>) -> (r: crate::Result<()>) {
        proof {
            lemma_pow256_values();
        }
        put_le(out, (*self as u32) as u128, 4);
        Ok(())
    }

    fn deserialize(c: &mut Cursor<&[u8]>) -> (r: crate::Result<i32>) {
        proof {
            assert(Self::skip_on_error(c.rest()) == 0);
        }
        let ghost s = c.rest();
        proof {
            lemma_pow256_values();
            lemma_le_value_bound(s.take(4));
        }
        match get_le(c, 4) {
            Ok(v) => Ok((v as u32) as i32),
            Err(e) => Err(e),
        }
    }

    proof fn lemma_parse_wire(&self, rest: Seq<u8>) {
        let x = *self;
        lemma_pow256_values();
        lemma_le_round_trip((x as u32) as nat, 4);
        assert((self.wire() + rest).take(4) =~= self.wire());
        assert((x as u32) as i32 == x) by (bit_vector);
    }

    proof fn lemma_parse_truncated(&self, k: nat) {
        lemma_pow256_values();
        lemma_le_round_trip((*self as u32) as nat, 4);
    }

    proof fn lemma_parse_within(s: Seq<u8>) {
    }
}

impl DataType for i64 {
    type Model = i64;

    open spec fn model(&self) -> i64 {
        *self
    }

    open spec fn encodable(&self) -> bool {
        true
    }

    open spec fn wire(&self) -> Seq<u8> {
        le_bytes((*self as u64) as nat, 8)
    }

    open spec fn parse(s: Seq<u8>) -> core::result::Result<(i64, nat), ErrorKind> {
        if s.len() < 8 {
            Err(ErrorKind::InsufficientBytes)
        } else {
            Ok(((le_value(s.take(8)) as u64) as i64, 8))
        }
    }

    open spec fn skip_on_error(s: Seq<u8>) -> nat {
        0
    }

    fn serialize(&self, out: &mut Vec<u8>) -> (r: crate::Result<()>) {
        proof {
            lemma_pow256_values();
        }
        put_le(out, (*self as u64) as u128, 8);
        Ok(())
    }

    fn deserialize(c: &mut Cursor<&[u8]>) -> (r: crate::Result<i64>) {
        proof {
            assert(Self::skip_on_error(c.rest()) == 0);
        }
        let ghost s = c.rest();
        proof {
            lemma_pow256_values();
            lemma_le_value_bound(s.take(8));
        }
        match get_le(c, 8) {
            Ok(v) => Ok((v as u64) as i64),
            Err(e) => Err(e),
        }
    }

    proof fn lemma_parse_wire(&self, rest: Seq<u8>) {
        let x = *self;
        lemma_pow256_values();
        lemma_le_round_trip((x as u64) as nat, 8);
        assert((self.wire() + rest).take(8) =~= self.wire());
        assert((x as u64) as i64 == x) by (bit_vector);
    }

    proof fn lemma_parse_truncated(&self, k: nat) {
        lemma_pow256_values();
        lemma_le_round_trip((*self as u64) as nat, 8);
    }

    proof fn lemma_parse_within(s: Seq<u8>) {
    }
}

impl DataType for i128 {
    type Model = i128;

    open spec fn model(&self) -> i128 {
        *self
    }

    open spec fn encodable(&self) -> bool {
        true
    }

    open spec fn wire(&self) -> Seq<u8> {
        le_bytes((*self as u128) as nat, 16)
    }

    open spec fn parse(s: Seq<u8>) -> core::result::Result<(i128, nat), ErrorKind> {
        if s.len() < 16 {
            Err(ErrorKind::InsufficientBytes)
        } else {
            Ok(((le_value(s.take(16)) as u128) as i128, 16))
        }
    }

    open spec fn skip_on_error(s: Seq<u8>) -> nat {
        0
    }

    fn serialize(&self, out: &mut Vec<u8>) -> (r: crate::Result<()>) {
        proof {
            lemma_pow256_values();
        }
        put_le(out, (*self as u128) as u128, 16);
        Ok(())
    }

    fn deserialize(c: &mut Cursor<&[u8]>) -> (r: crate::Result<i128>) {
        proof {
            assert(Self::skip_on_error(c.rest()) == 0);
        }
        match get_le(c, 16) {
            Ok(v) => Ok((v as u128) as i128),
            Err(e) => Err(e),
        }
    }

    proof fn lemma_parse_wire(&self, rest: Seq<u8>) {
        let x = *self;
        lemma_pow256_values();
        lemma_le_round_trip((x as u128) as nat, 16);
        assert((self.wire() + rest).take(16) =~= self.wire());
        assert((x as u128) as i128 == x) by (bit_vector);
    }

    proof fn lemma_parse_truncated(&self, k: nat) {
        lemma_pow256_values();
        lemma_le_round_trip((*self as u128) as nat, 16);
    }

    proof fn lemma_parse_within(s: Seq<u8>) {
    }
}

/// The bits of `v` as the host's `usize` holds them: two's complement.
pub open spec fn isize_bits(v: int) -> nat {
    if v >= 0 {
        v as nat
    } else {
        (v + usize::MAX + 1) as nat
    }
}

/// The `isize` whose two's-complement bits are `x`.
pub open spec fn isize_of_bits(x: nat) -> int {
    if x > isize::MAX {
        x - usize::MAX - 1
    } else {
        x as int
    }
}

/// `usize` takes as many bytes as it has on the host.
impl DataType for usize {
    type Model = usize;

    open spec fn model(&self) -> usize {
        *self
    }

    open spec fn encodable(&self) -> bool {
        true
    }

    open spec fn wire(&self) -> Seq<u8> {
        le_bytes(*self as nat, host_bytes())
    }

    open spec fn parse(s: Seq<u8>) -> core::result::Result<(usize, nat), ErrorKind> {
        if s.len() < host_bytes() {
            Err(ErrorKind::InsufficientBytes)
        } else {
            Ok((le_value(s.take(host_bytes() as int)) as usize, host_bytes()))
        }
    }

    open spec fn skip_on_error(s: Seq<u8>) -> nat {
        0
    }

    fn serialize(&self, out: &mut Vec<u8>) -> (r: crate::Result<()>) {
        proof {
            lemma_host_bytes();
        }
        put_le(out, *self as u128, host_width());
        Ok(())
    }

    fn deserialize(c: &mut Cursor<&[u8]>) -> (r: crate::Result<usize>) {
        proof {
            assert(Self::skip_on_error(c.rest()) == 0);
        }
        let ghost s = c.rest();
        proof {
            lemma_host_bytes();
            lemma_le_value_bound(s.take(host_bytes() as int));
        }
        match get_le(c, host_width()) {
            Ok(v) => Ok(v as usize),
            Err(e) => Err(e),
        }
    }

    proof fn lemma_parse_wire(&self, rest: Seq<u8>) {
        lemma_host_bytes();
        lemma_le_round_trip(*self as nat, host_bytes());
        assert((self.wire() + rest).take(host_bytes() as int) =~= self.wire());
    }

    proof fn lemma_parse_truncated(&self, k: nat) {
        lemma_host_bytes();
        lemma_le_round_trip(*self as nat, host_bytes());
    }

    proof fn lemma_parse_within(s: Seq<u8>) {
    }
}

/// `isize` takes as many bytes as it has on the host, in two's complement.
impl DataType for isize {
    type Model = isize;

    open spec fn model(&self) -> isize {
        *self
    }

    open spec fn encodable(&self) -> bool {
        true
    }

    open spec fn wire(&self) -> Seq<u8> {
        le_bytes(isize_bits(*self as int), host_bytes())
    }

    open spec fn parse(s: Seq<u8>) -> core::result::Result<(isize, nat), ErrorKind> {
        if s.len() < host_bytes() {
            Err(ErrorKind::InsufficientBytes)
        } else {
            Ok((isize_of_bits(le_value(s.take(host_bytes() as int))) as isize, host_bytes()))
        }
    }

    open spec fn skip_on_error(s: Seq<u8>) -> nat {
        0
    }

    fn serialize(&self, out: &mut Vec<u8>) -> (r: crate::Result<()>) {
        proof {
            lemma_host_bytes();
        }
        let x: u128 = if *self >= 0 {
            *self as u128
        } else {
            ((*self as i128) + (usize::MAX as i128) + 1) as u128
        };
        put_le(out, x, host_width());
        Ok(())
    }

    fn deserialize(c: &mut Cursor<&[u8]>) -> (r: crate::Result<isize>) {
        proof {
            assert(Self::skip_on_error(c.rest()) == 0);
        }
        let ghost s = c.rest();
        proof {
            lemma_host_bytes();
            lemma_le_value_bound(s.take(host_bytes() as int));
        }
        match get_le(c, host_width()) {
            Ok(v) => {
                if v > isize::MAX as u128 {
                    Ok(((v as i128) - (usize::MAX as i128) - 1) as isize)
                } else {
                    Ok(v as isize)
                }
            },
            Err(e) => Err(e),
        }
    }

    proof fn lemma_parse_wire(&self, rest: Seq<u8>) {
        lemma_host_bytes();
        lemma_le_round_trip(isize_bits(*self as int), host_bytes());
        assert((self.wire() + rest).take(host_bytes() as int) =~= self.wire());
    }

    proof fn lemma_parse_truncated(&self, k: nat) {
        lemma_host_bytes();
        lemma_le_round_trip(isize_bits(*self as int), host_bytes());
    }

    proof fn lemma_parse_within(s: Seq<u8>) {
    }
}

/// A `char` travels as its code point; a decoded number that is no Unicode
/// scalar value fails with `InvalidChar`, leaving the cursor where it was.
impl DataType for char {
    type Model = char;

    open spec fn model(&self) -> char {
        *self
    }

    open spec fn encodable(&self) -> bool {
        true
    }

    open spec fn wire(&self) -> Seq<u8> {
        le_bytes((*self as u32) as nat, 4)
    }

    open spec fn parse(s: Seq<u8>) -> core::result::Result<(char, nat), ErrorKind> {
        if s.len() < 4 {
            Err(ErrorKind::InsufficientBytes)
        } else if !is_scalar(le_value(s.take(4)) as u32) {
            Err(ErrorKind::InvalidChar)
        } else {
            Ok(((le_value(s.take(4)) as u32) as char, 4))
        }
    }

    open spec fn skip_on_error(s: Seq<u8>) -> nat {
        0
    }

    fn serialize(&self, out: &mut Vec<u8>) -> (r: crate::Result<()>) {
        proof {
            lemma_pow256_values();
        }
        put_le(out, (*self as u32) as u128, 4);
        Ok(())
    }

    fn deserialize(c: &mut Cursor<&[u8]>) -> (r: crate::Result<char>) {
        proof {
            assert(Self::skip_on_error(c.rest()) == 0);
        }
        let ghost s = c.rest();
        let start = c.offset;
        match get_le(c, 4) {
            Ok(v) => {
                proof {
                    lemma_pow256_values();
                    lemma_le_value_bound(s.take(4));
                }
                match char_from_code(v as u32) {
                    Some(ch) => {
                        proof {
                            char_u32_cast(ch, v as u32);
                        }
                        Ok(ch)
                    },
                    None => {
                        c.offset = start;
                        Err(ErrorKind::InvalidChar)
                    },
                }
            },
            Err(e) => Err(e),
        }
    }

    proof fn lemma_parse_wire(&self, rest: Seq<u8>) {
        lemma_pow256_values();
        let u = *self as u32;
        lemma_le_round_trip(u as nat, 4);
        assert((self.wire() + rest).take(4) =~= self.wire());
        char_is_scalar(*self);
        char_u32_cast(*self, u);
    }

    proof fn lemma_parse_truncated(&self, k: nat) {
        lemma_pow256_values();
        lemma_le_round_trip((*self as u32) as nat, 4);
    }

    proof fn lemma_parse_within(s: Seq<u8>) {
    }
}

} // verus!
