//! Fixed-width decimal rendering of a candidate's numeric suffix: exactly
//! `w` ASCII digits, most significant first, left-padded with `'0'`. A value
//! that needs more than `w` digits keeps only its low `w` digits — a
//! deliberate policy, not an error.

use vstd::prelude::*;

verus! {

/// `10^k`.
pub open spec fn pow10(k: nat) -> nat
    decreases k,
{
    if k == 0 {
        1
    } else {
        10 * pow10((k - 1) as nat)
    }
}

/// The ASCII digit standing at position `i` (from the left) when `n` is
/// rendered over `w` digit positions.
pub open spec fn digit_at(n: nat, w: nat, i: int) -> u8 {
    (48 + (n / pow10((w - 1 - i) as nat)) % 10) as u8
}

/// The `w`-digit rendering of `n`: its low `w` decimal digits, zero-padded.
pub open spec fn rendered(n: nat, w: nat) -> Seq<u8> {
    Seq::new(w, |i: int| digit_at(n, w, i))
}

/// `10^k` is positive.
pub proof fn lemma_pow10_pos(k: nat)
    ensures
        pow10(k) >= 1,
    decreases k,
{
    if k > 0 {
        lemma_pow10_pos((k - 1) as nat);
    }
}

/// `10^k` does not shrink as `k` grows.
pub proof fn lemma_pow10_mono(j: nat, k: nat)
    requires
        j <= k,
    ensures
        pow10(j) <= pow10(k),
    decreases k - j,
{
    if j < k {
        lemma_pow10_mono(j, (k - 1) as nat);
        lemma_pow10_pos((k - 1) as nat);
    }
}

/// Computes `10^w`. The width cap of 19 keeps the result within `u64`.
pub fn pow10_u64(w: usize) -> (r: u64)
    requires
        w <= 19,
    ensures
        r == pow10(w as nat),
{
    proof {
        reveal_with_fuel(pow10, 21);
        assert(pow10(19) == 10_000_000_000_000_000_000);
    }
    let mut acc: u64 = 1;
    let mut i: usize = 0;
    while i < w
        invariant
            i <= w <= 19,
            acc == pow10(i as nat),
            pow10(19) == 10_000_000_000_000_000_000,
        decreases w - i,
    {
        proof {
            lemma_pow10_mono((i + 1) as nat, 19);
        }
        acc = acc * 10;
        i = i + 1;
    }
    acc
}

/// Overwrites `buf` with the `w`-digit rendering of `n`, in place: digits are
/// extracted low-to-high by divide and modulo, so only the low `w` digits of
/// `n` are kept.
pub fn fill_digits(buf: &mut Vec<u8>, n: u64, w: usize)
    requires
        old(buf).len() == w,
    ensures
        final(buf)@ == rendered(n as nat, w as nat),
{
    let mut i: usize = w;
    let mut x: u64 = n;
    proof {
        assert(pow10(0) == 1);
        assert(n as nat / 1 == n as nat);
    }
    while i > 0
        invariant
            i <= w,
            buf.len() == w,
            x == n as nat / pow10((w - i) as nat),
            forall|j: int| i <= j < w ==> buf[j] == digit_at(n as nat, w as nat, j),
        decreases i,
    {
        i = i - 1;
        buf[i] = 48 + (x % 10) as u8;
        proof {
            let e = (w - 1 - i) as nat;
            lemma_pow10_pos(e);
            assert(x % 10 == (n as nat / pow10(e)) % 10);
            vstd::arithmetic::div_mod::lemma_div_denominator(n as int, pow10(e) as int, 10);
            assert(pow10(e) * 10 == pow10((e + 1) as nat));
            assert((x / 10) as nat == n as nat / pow10((w - i) as nat));
        }
        x = x / 10;
    }
    proof {
        assert(buf@ =~= rendered(n as nat, w as nat));
    }
}

/// Builds the `w`-digit rendering of `n` as a fresh byte vector.
pub fn render_digits(n: u64, w: usize) -> (out: Vec<u8>)
    ensures
        out@ == rendered(n as nat, w as nat),
{
    let mut out: Vec<u8> = Vec::new();
    let mut i: usize = 0;
    while i < w
        invariant
            i <= w,
            out.len() == i,
        decreases w - i,
    {
        out.push(0);
        i = i + 1;
    }
    fill_digits(&mut out, n, w);
    out
}

} // verus!
