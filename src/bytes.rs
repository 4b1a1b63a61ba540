//! Little-endian byte strings of integers, as spec functions and as the
//! executable loops that write and read them.
use vstd::prelude::*;

use crate::cursor::Cursor;
use crate::ErrorKind;

verus! {

/// `256` to the power `n`: the number of values that `n` bytes can hold.
pub open spec fn pow256(n: nat) -> nat
    decreases n,
{
    if n == 0 {
        1
    } else {
        256 * pow256((n - 1) as nat)
    }
}

/// The `n` low bytes of `v`, least significant first.
pub open spec fn le_bytes(v: nat, n: nat) -> Seq<u8>
    decreases n,
{
    if n == 0 {
        Seq::empty()
    } else {
        seq![(v % 256) as u8] + le_bytes(v / 256, (n - 1) as nat)
    }
}

/// The number whose bytes, least significant first, are `s`.
pub open spec fn le_value(s: Seq<u8>) -> nat
    decreases s.len(),
{
    if s.len() == 0 {
        0
    } else {
        s[0] as nat + 256 * le_value(s.drop_first())
    }
}

/// The byte ranges of the integer widths.
pub proof fn lemma_pow256_values()
    ensures
        pow256(1) == 0x100,
        pow256(2) == 0x1_0000,
        pow256(4) == 0x1_0000_0000,
        pow256(8) == 0x1_0000_0000_0000_0000,
        pow256(16) == 0x1_0000_0000_0000_0000_0000_0000_0000_0000,
{
    reveal_with_fuel(pow256, 17);
}

/// More bytes hold at least as many values.
pub proof fn lemma_pow256_monotonic(a: nat, b: nat)
    requires
        a <= b,
    ensures
        pow256(a) <= pow256(b),
    decreases b,
{
    if a < b {
        lemma_pow256_monotonic(a, (b - 1) as nat);
    }
}

/// Reading back the `n` bytes written for `v` gives `v`, when `v` fits.
pub proof fn lemma_le_round_trip(v: nat, n: nat)
    requires
        v < pow256(n),
    ensures
        le_bytes(v, n).len() == n,
        le_value(le_bytes(v, n)) == v,
    decreases n,
{
    if n > 0 {
        let m = (n - 1) as nat;
        assert(v / 256 < pow256(m)) by (nonlinear_arith)
            requires
                v < 256 * pow256(m),
        ;
        lemma_le_round_trip(v / 256, m);
        assert(le_bytes(v, n).drop_first() =~= le_bytes(v / 256, m));
    }
}

/// `n` bytes hold a number below `pow256(n)`.
pub proof fn lemma_le_value_bound(s: Seq<u8>)
    ensures
        le_value(s) < pow256(s.len()),
    decreases s.len(),
{
    if s.len() > 0 {
        lemma_le_value_bound(s.drop_first());
        let t = le_value(s.drop_first());
        let p = pow256(s.drop_first().len());
        assert(s[0] as nat + 256 * t < 256 * p) by (nonlinear_arith)
            requires
                t < p,
                s[0] < 256,
        ;
    }
}

/// The width of the host's `usize` in bytes.
pub open spec fn host_bytes() -> nat {
    if usize::MAX == u32::MAX {
        4
    } else {
        8
    }
}

/// The host's `usize` is 32 or 64 bits wide.
pub proof fn lemma_host_bytes()
    ensures
        host_bytes() == 4 || host_bytes() == 8,
        pow256(host_bytes()) == usize::MAX + 1,
        usize::MAX + 1 == 2 * (isize::MAX + 1),
        isize::MIN == -isize::MAX - 1,
{
    lemma_pow256_values();
    assert(usize::MAX == 0xffff_ffff || usize::MAX == 0xffff_ffff_ffff_ffff);
}

/// The width of the host's `usize` in bytes.
pub fn host_width() -> (r: usize)
    ensures
        r == host_bytes(),
{
    if usize::MAX as u128 == u32::MAX as u128 {
        4
    } else {
        8
    }
}

/// Appends the `n` low bytes of `v`, least significant first.
pub fn put_le(out: &mut Vec<u8>, v: u128, n: usize)
    requires
        v < pow256(n as nat),
    ensures
        final(out)@ == old(out)@ + le_bytes(v as nat, n as nat),
{
    let mut x: u128 = v;
    let mut i: usize = 0;
    while i < n
        invariant
            i <= n,
            out@ + le_bytes(x as nat, (n - i) as nat) == old(out)@ + le_bytes(v as nat, n as nat),
        decreases n - i,
    {
        let ghost before = out@;
        out.push((x % 256) as u8);
        proof {
            let k = (n - i) as nat;
            assert(le_bytes(x as nat, k) == seq![(x % 256) as u8] + le_bytes(
                (x / 256) as nat,
                (k - 1) as nat,
            ));
            assert(out@ + le_bytes((x / 256) as nat, (k - 1) as nat) =~= before + le_bytes(
                x as nat,
                k,
            ));
        }
        x = x / 256;
        i = i + 1;
    }
    proof {
        assert(out@ + le_bytes(x as nat, 0) =~= out@);
    }
}

/// Reads `n` bytes as a little-endian number, or fails with
/// `InsufficientBytes` where fewer remain.
pub fn get_le(c: &mut Cursor<&[u8]>, n: usize) -> (r: crate::Result<u128>)
    requires
        old(c).wf(),
        n <= 16,
    ensures
        final(c).wf(),
        final(c).data == old(c).data,
        n <= old(c).rest().len() ==> {
            &&& r == Ok::<u128, ErrorKind>(le_value(old(c).rest().take(n as int)) as u128)
            &&& final(c).offset == old(c).offset + n
        },
        n > old(c).rest().len() ==> {
            &&& r == Err::<u128, ErrorKind>(ErrorKind::InsufficientBytes)
            &&& final(c).offset == old(c).offset
        },
{
    let s = match c.read_slice(n) {
        Ok(s) => s,
        Err(e) => return Err(e),
    };
    let mut acc: u128 = 0;
    let mut i: usize = n;
    while i > 0
        invariant
            i <= n,
            n <= 16,
            s@.len() == n,
            acc as nat == le_value(s@.subrange(i as int, n as int)),
            acc < pow256((n - i) as nat),
        decreases i,
    {
        proof {
            lemma_pow256_values();
            lemma_pow256_monotonic((n - i + 1) as nat, 16);
            assert(acc * 256 + s@[i - 1] < 256 * pow256((n - i) as nat)) by (nonlinear_arith)
                requires
                    acc < pow256((n - i) as nat),
                    s@[i - 1] < 256,
            ;
            assert(s@.subrange(i - 1, n as int).drop_first() =~= s@.subrange(i as int, n as int));
        }
        i = i - 1;
        acc = acc * 256 + s[i] as u128;
    }
    proof {
        assert(s@.subrange(0, n as int) =~= s@);
    }
    Ok(acc)
}

} // verus!
