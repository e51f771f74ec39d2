//! Canonicalization of 13-bit sector patterns.
//!
//! A marker's data ring yields a raw 13-bit word. Its identifier is the
//! numerically smallest value among the 13 rotations of that word, and a
//! word can belong to a marker only if it carries exactly five one-bits.

use vstd::arithmetic::power2::pow2;
use vstd::prelude::*;

verus! {

/// One left rotation of a 13-bit word: the top bit (weight 4096) wraps
/// around to become the low bit.
pub open spec fn rot13(b: u16) -> u16
    recommends
        b < 8192,
{
    (((b % 4096) * 2) + (b / 4096)) as u16
}

/// `b` rotated left `k` times.
pub open spec fn rotn(b: u16, k: nat) -> u16
    decreases k,
{
    if k == 0 {
        b
    } else {
        rot13(rotn(b, (k - 1) as nat))
    }
}

/// Number of one-bits in `n`.
pub open spec fn popcount(n: nat) -> nat
    decreases n,
{
    if n == 0 {
        0
    } else {
        n % 2 + popcount(n / 2)
    }
}

/// The smallest value among rotations 0..=k of `b`.
pub open spec fn min_rot_upto(b: u16, k: nat) -> u16
    decreases k,
{
    if k == 0 {
        b
    } else if rotn(b, k) < min_rot_upto(b, (k - 1) as nat) {
        rotn(b, k)
    } else {
        min_rot_upto(b, (k - 1) as nat)
    }
}

/// The canonical form of a 13-bit word: the smallest of its 13 rotations.
pub open spec fn canonical(b: u16) -> u16 {
    min_rot_upto(b, 12)
}

/// A word is a valid marker identifier iff it is 13 bits wide, carries
/// exactly five one-bits, and is the canonical rotation of itself.
pub open spec fn is_valid_code(b: u16) -> bool {
    b < 8192 && popcount(b as nat) == 5 && canonical(b) == b
}

/// Rotation keeps a word inside 13 bits.
pub proof fn lemma_rotn_range(b: u16, k: nat)
    requires
        b < 8192,
    ensures
        rotn(b, k) < 8192,
    decreases k,
{
    if k > 0 {
        lemma_rotn_range(b, (k - 1) as nat);
    }
}

/// Rotating `a` times and then `c` times is rotating `a + c` times.
pub proof fn lemma_rotn_add(b: u16, a: nat, c: nat)
    ensures
        rotn(b, a + c) == rotn(rotn(b, a), c),
    decreases c,
{
    if c > 0 {
        lemma_rotn_add(b, a, (c - 1) as nat);
    }
}

/// Thirteen rotations are the identity.
pub proof fn lemma_rotn_period(b: u16)
    requires
        b < 8192,
    ensures
        rotn(b, 13) == b,
{
    let b1 = rot13(b);
    let b2 = rot13(b1);
    let b3 = rot13(b2);
    let b4 = rot13(b3);
    let b5 = rot13(b4);
    let b6 = rot13(b5);
    let b7 = rot13(b6);
    let b8 = rot13(b7);
    let b9 = rot13(b8);
    let b10 = rot13(b9);
    let b11 = rot13(b10);
    let b12 = rot13(b11);
    let b13 = rot13(b12);
    lemma_rotn_range(b, 1);
    lemma_rotn_range(b, 2);
    lemma_rotn_range(b, 3);
    lemma_rotn_range(b, 4);
    lemma_rotn_range(b, 5);
    lemma_rotn_range(b, 6);
    lemma_rotn_range(b, 7);
    lemma_rotn_range(b, 8);
    lemma_rotn_range(b, 9);
    lemma_rotn_range(b, 10);
    lemma_rotn_range(b, 11);
    lemma_rotn_range(b, 12);
    assert(rotn(b, 0) == b);
    assert(rotn(b, 1) == rot13(rotn(b, 0)));
    assert(rotn(b, 1) == b1);
    assert(rotn(b, 2) == b2);
    assert(rotn(b, 3) == b3);
    assert(rotn(b, 4) == b4);
    assert(rotn(b, 5) == b5);
    assert(rotn(b, 6) == b6);
    assert(rotn(b, 7) == b7);
    assert(rotn(b, 8) == b8);
    assert(rotn(b, 9) == b9);
    assert(rotn(b, 10) == b10);
    assert(rotn(b, 11) == b11);
    assert(rotn(b, 12) == b12);
    assert(rotn(b, 13) == b13);
    assert(b13 == b) by (bit_vector)
        requires
            b < 8192,
            b1 == ((b % 4096) * 2) + (b / 4096),
            b2 == ((b1 % 4096) * 2) + (b1 / 4096),
            b3 == ((b2 % 4096) * 2) + (b2 / 4096),
            b4 == ((b3 % 4096) * 2) + (b3 / 4096),
            b5 == ((b4 % 4096) * 2) + (b4 / 4096),
            b6 == ((b5 % 4096) * 2) + (b5 / 4096),
            b7 == ((b6 % 4096) * 2) + (b6 / 4096),
            b8 == ((b7 % 4096) * 2) + (b7 / 4096),
            b9 == ((b8 % 4096) * 2) + (b8 / 4096),
            b10 == ((b9 % 4096) * 2) + (b9 / 4096),
            b11 == ((b10 % 4096) * 2) + (b10 / 4096),
            b12 == ((b11 % 4096) * 2) + (b11 / 4096),
            b13 == ((b12 % 4096) * 2) + (b12 / 4096),
    ;
}

/// Splitting off a single high bit adds one to the count when it is set.
proof fn lemma_popcount_high_bit(x: nat, k: nat, t: nat)
    requires
        x < pow2(k),
        t <= 1,
    ensures
        popcount(x + pow2(k) * t) == popcount(x) + t,
    decreases k,
{
    if k == 0 {
        assert(pow2(0) == 1) by {
            vstd::arithmetic::power2::lemma2_to64();
        }
        assert(x == 0);
        assert(popcount(0) == 0);
        assert(popcount(1) == 1nat % 2 + popcount(0));
    } else {
        let n = x + pow2(k) * t;
        assert(pow2(k) == 2 * pow2((k - 1) as nat)) by {
            vstd::arithmetic::power2::lemma_pow2_unfold(k);
        }
        assert(n == x + 2 * (pow2((k - 1) as nat) * t));
        assert(n % 2 == x % 2 && n / 2 == x / 2 + pow2((k - 1) as nat) * t) by (nonlinear_arith)
            requires
                n == x + 2 * (pow2((k - 1) as nat) * t),
        ;
        lemma_popcount_high_bit(x / 2, (k - 1) as nat, t);
        assert(popcount(0) == 0);
        if n != 0 {
            assert(popcount(n) == n % 2 + popcount(n / 2));
        } else {
            vstd::arithmetic::power2::lemma_pow2_pos(k);
            assert(t == 0 && x == 0);
        }
        if x != 0 {
            assert(popcount(x) == x % 2 + popcount(x / 2));
        }
    }
}

/// Rotation does not change the number of one-bits.
pub proof fn lemma_rot13_popcount(b: u16)
    requires
        b < 8192,
    ensures
        popcount(rot13(b) as nat) == popcount(b as nat),
{
    let x = (b % 4096) as nat;
    let c = (b / 4096) as nat;
    assert(pow2(12) == 4096) by {
        vstd::arithmetic::power2::lemma2_to64();
    }
    assert(c <= 1);
    lemma_popcount_high_bit(x, 12, c);
    assert(b as nat == x + 4096 * c);
    let r = rot13(b) as nat;
    assert(r == 2 * x + c);
    assert(r % 2 == c && r / 2 == x) by (nonlinear_arith)
        requires
            r == 2 * x + c,
            c <= 1,
    ;
    if r != 0 {
        assert(popcount(r) == r % 2 + popcount(r / 2));
    }
}

/// Any number of rotations keeps the number of one-bits.
pub proof fn lemma_rotn_popcount(b: u16, k: nat)
    requires
        b < 8192,
    ensures
        popcount(rotn(b, k) as nat) == popcount(b as nat),
    decreases k,
{
    if k > 0 {
        lemma_rotn_popcount(b, (k - 1) as nat);
        lemma_rotn_range(b, (k - 1) as nat);
        lemma_rot13_popcount(rotn(b, (k - 1) as nat));
    }
}

/// The running minimum is a lower bound on every rotation it has seen.
proof fn lemma_min_rot_le(b: u16, k: nat, i: nat)
    requires
        i <= k,
    ensures
        min_rot_upto(b, k) <= rotn(b, i),
    decreases k,
{
    if k > 0 && i < k {
        lemma_min_rot_le(b, (k - 1) as nat, i);
    }
}

/// The running minimum is one of the rotations it has seen.
proof fn lemma_min_rot_attained(b: u16, k: nat)
    ensures
        exists|i: nat| i <= k && rotn(b, i) == min_rot_upto(b, k),
    decreases k,
{
    if k == 0 {
        assert(rotn(b, 0) == min_rot_upto(b, 0));
    } else {
        lemma_min_rot_attained(b, (k - 1) as nat);
        if rotn(b, k) < min_rot_upto(b, (k - 1) as nat) {
            assert(rotn(b, k) == min_rot_upto(b, k));
        }
    }
}

/// Rotating `13 + m` times is the same as rotating `m` times.
proof fn lemma_rotn_reduce(b: u16, m: nat)
    requires
        b < 8192,
        m < 26,
    ensures
        m >= 13 ==> rotn(b, m) == rotn(b, (m - 13) as nat),
{
    if m >= 13 {
        lemma_rotn_add(b, 13, (m - 13) as nat);
        lemma_rotn_period(b);
    }
}

/// The canonical form of a word does not depend on how the word was
/// rotated first: every rotation of a pattern has the same identifier.
pub proof fn lemma_canonical_rotation_invariant(b: u16, k: nat)
    requires
        b < 8192,
        k < 13,
    ensures
        canonical(rotn(b, k)) == canonical(b),
{
    let r = rotn(b, k);
    lemma_rotn_range(b, k);
    // canonical(b) <= canonical(r): canonical(r) is some rotation of b.
    lemma_min_rot_attained(r, 12);
    let j0 = choose|j: nat| j <= 12 && rotn(r, j) == min_rot_upto(r, 12);
    lemma_rotn_add(b, k, j0);
    assert(rotn(b, k + j0) == canonical(r));
    let m0: nat = if k + j0 < 13 { (k + j0) as nat } else { (k + j0 - 13) as nat };
    lemma_rotn_reduce(b, k + j0);
    assert(rotn(b, m0) == canonical(r));
    lemma_min_rot_le(b, 12, m0);
    assert(canonical(b) <= canonical(r));
    // canonical(r) <= canonical(b): canonical(b) is some rotation of r.
    lemma_min_rot_attained(b, 12);
    let i0 = choose|i: nat| i <= 12 && rotn(b, i) == min_rot_upto(b, 12);
    let j1: nat = if i0 >= k { (i0 - k) as nat } else { (i0 + 13 - k) as nat };
    lemma_rotn_add(b, k, j1);
    assert(rotn(r, j1) == rotn(b, k + j1));
    lemma_rotn_reduce(b, k + j1);
    assert(rotn(b, k + j1) == rotn(b, i0));
    assert(rotn(r, j1) == canonical(b));
    lemma_min_rot_le(r, 12, j1);
}

/// Canonicalization is idempotent: the identifier of an identifier is
/// itself.
pub proof fn lemma_canonical_idempotent(b: u16)
    requires
        b < 8192,
    ensures
        canonical(canonical(b)) == canonical(b),
{
    lemma_min_rot_attained(b, 12);
    let i0 = choose|i: nat| i <= 12 && rotn(b, i) == min_rot_upto(b, 12);
    lemma_canonical_rotation_invariant(b, i0);
}

/// Every 13-bit word that carries exactly five one-bits canonicalizes to a
/// valid code identifier: the dictionary holds the canonical form of every
/// such pattern.
pub proof fn lemma_five_bit_words_canonicalize(b: u16)
    requires
        b < 8192,
        popcount(b as nat) == 5,
    ensures
        is_valid_code(canonical(b)),
{
    lemma_min_rot_attained(b, 12);
    let i0 = choose|i: nat| i <= 12 && rotn(b, i) == min_rot_upto(b, 12);
    lemma_rotn_range(b, i0);
    lemma_rotn_popcount(b, i0);
    lemma_canonical_idempotent(b);
}

/// Smallest rotation of a raw 13-bit word. Returns the canonical code and
/// the number of left rotations that reach it from the raw word.
pub fn rotate_lowest(bits: u16) -> (r: (u16, u16))
    requires
        bits < 8192,
    ensures
        r.0 == canonical(bits),
        r.0 < 8192,
        r.1 < 13,
        rotn(bits, r.1 as nat) == r.0,
        forall|i: nat| i < 13 ==> r.0 <= rotn(bits, i),
        canonical(r.0) == r.0,
{
    let mut best = bits;
    let mut rot: u16 = 0;
    let mut cur = bits;
    let mut i: u16 = 1;
    while i < 13
        invariant
            bits < 8192,
            1 <= i <= 13,
            cur == rotn(bits, (i - 1) as nat),
            cur < 8192,
            best == min_rot_upto(bits, (i - 1) as nat),
            rot < i,
            rotn(bits, rot as nat) == best,
        decreases 13 - i,
    {
        proof {
            lemma_rotn_range(bits, i as nat);
        }
        cur = ((cur % 4096) * 2) + (cur / 4096);
        assert(cur == rotn(bits, i as nat));
        if cur < best {
            best = cur;
            rot = i;
        }
        i = i + 1;
    }
    proof {
        assert forall|j: nat| j < 13 implies best <= rotn(bits, j) by {
            lemma_min_rot_le(bits, 12, j);
        }
        lemma_rotn_range(bits, rot as nat);
        // canonical(best) == best: best is the least rotation of itself.
        lemma_min_rot_attained(best, 12);
        let j0 = choose|j: nat| j <= 12 && rotn(best, j) == min_rot_upto(best, 12);
        lemma_rotn_add(bits, rot as nat, j0);
        let m0: nat = if rot as nat + j0 < 13 { rot as nat + j0 } else { (rot as nat + j0 - 13) as nat };
        lemma_rotn_reduce(bits, rot as nat + j0);
        assert(canonical(best) == rotn(bits, m0));
        lemma_min_rot_le(bits, 12, m0);
        lemma_min_rot_le(best, 12, 0);
        assert(rotn(best, 0) == best);
    }
    (best, rot)
}

/// The count of one-bits never exceeds the value itself.
proof fn lemma_popcount_le(n: nat)
    ensures
        popcount(n) <= n,
    decreases n,
{
    if n > 0 {
        lemma_popcount_le(n / 2);
    }
}

/// True iff the raw 13-bit word carries exactly five one-bits.
pub fn checksum(bits: u16) -> (r: bool)
    requires
        bits < 8192,
    ensures
        r == (popcount(bits as nat) == 5),
{
    let mut rem = bits;
    let mut count: u16 = 0;
    proof {
        lemma_popcount_le(bits as nat);
    }
    while rem > 0
        invariant
            count <= 8191,
            popcount(bits as nat) == count + popcount(rem as nat),
            rem <= bits,
            bits < 8192,
        decreases rem,
    {
        proof {
            lemma_popcount_le(bits as nat);
            assert(popcount(rem as nat) == rem as nat % 2 + popcount(rem as nat / 2));
        }
        count = count + rem % 2;
        rem = rem / 2;
    }
    count == 5
}

} // verus!
