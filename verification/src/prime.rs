//! The primality oracle: a deterministic Miller-Rabin test over a fixed
//! witness base set, and the hash-to-prime mapping that turns arbitrary
//! byte content into a prime member below `LAMBDA`.
//!
//! The base set {2, 3, ..., 41} makes the test a true primality decision
//! only for numbers below roughly 3.3e24; the contract therefore states
//! exactly what the algorithm computes (no base is a compositeness
//! witness), not primality itself, and callers must respect that bound.

use vstd::prelude::*;
use vstd::arithmetic::power::{pow, lemma_pow_mod_noop, lemma_pow_multiplies};
use vstd::arithmetic::power2::{pow2, lemma_pow2_adds, lemma_pow2_strictly_increases, lemma2_to64};
use vstd::arithmetic::div_mod::{lemma_mod_multiples_vanish, lemma_small_mod};
use crate::arith::{mod_exp, HALF_RANGE};
use crate::AccumulatorError;

verus! {

/// How many rehash attempts `hash_to_prime` makes before giving up. The
/// expected number of attempts is about ln(LAMBDA), so reaching this cap
/// on honest input is vanishingly unlikely; it exists to bound worst-case
/// latency under adversarial input.
pub const PRIME_SEARCH_CAP: u64 = 4096;

/// The largest odd divisor of `m`.
pub open spec fn odd_part(m: nat) -> nat
    decreases m,
{
    if m % 2 == 0 && m > 0 {
        odd_part(m / 2)
    } else {
        m
    }
}

/// The exponent of 2 in `m`: `m == odd_part(m) * pow2(two_adic(m))`.
pub open spec fn two_adic(m: nat) -> nat
    decreases m,
{
    if m % 2 == 0 && m > 0 {
        1 + two_adic(m / 2)
    } else {
        0
    }
}

/// The fixed Miller-Rabin witness bases.
pub open spec fn mr_bases() -> Seq<u128> {
    seq![2u128, 3, 5, 7, 11, 13, 17, 19, 23, 29, 31, 37, 41]
}

/// Base `a` does not witness compositeness of `n`: with `n-1 == d * 2^r`
/// and `d` odd, either `a^d == 1 (mod n)`, or `a^(d * 2^j) == n-1 (mod n)`
/// for some `j < r` (the `j == 0` case is folded into the first squaring
/// check and carries no constraint on `r`).
pub open spec fn mr_strong_probable(n: nat, a: nat) -> bool {
    let d = odd_part((n - 1) as nat);
    let r = two_adic((n - 1) as nat);
    ||| pow(a as int, d) % (n as int) == 1
    ||| pow(a as int, d) % (n as int) == n - 1
    ||| exists|j: int|
        1 <= j < r && pow(a as int, d * #[trigger] pow2(j as nat)) % (n as int) == n - 1
}

/// What the deterministic Miller-Rabin test computes: no applicable base
/// (one with `a <= n - 2`) witnesses compositeness of `n`.
pub open spec fn mr_spec(n: nat) -> bool {
    forall|i: int|
        0 <= i < mr_bases().len() && mr_bases()[i] + 2 <= n
            ==> mr_strong_probable(n, #[trigger] mr_bases()[i] as nat)
}

fn mr_base_at(i: usize) -> (b: u128)
    requires
        i < 13,
    ensures
        b == mr_bases()[i as int],
{
    if i == 0 { 2 } else if i == 1 { 3 } else if i == 2 { 5 } else if i == 3 { 7 }
    else if i == 4 { 11 } else if i == 5 { 13 } else if i == 6 { 17 } else if i == 7 { 19 }
    else if i == 8 { 23 } else if i == 9 { 29 } else if i == 10 { 31 } else if i == 11 { 37 }
    else { 41 }
}

/// One base of the Miller-Rabin loop: squares `a^d` up to `r - 1` times
/// looking for `n - 1`.
#[verifier::loop_isolation(false)]
fn mr_check_base(n: u128, d: u128, r: u128, a: u128) -> (res: bool)
    requires
        2 <= n <= HALF_RANGE,
        d == odd_part((n - 1) as nat),
        r == two_adic((n - 1) as nat),
    ensures
        res == mr_strong_probable(n as nat, a as nat),
{
    let ghost ni = n as int;
    let x0 = mod_exp(a, d, n);
    if x0 == 1 || x0 == n - 1 {
        return true;
    }
    let mut x = x0;
    let mut k: u128 = 1;
    proof {
        lemma2_to64();
        assert(d * pow2(0nat) == d) by (nonlinear_arith)
            requires
                pow2(0nat) == 1,
        ;
    }
    while k < r
        invariant
            2 <= n <= HALF_RANGE,
            ni == n as int,
            1 <= k,
            x == pow(a as int, (d * pow2((k - 1) as nat)) as nat) % ni,
            forall|j: int|
                1 <= j < k ==> pow(a as int, (d * #[trigger] pow2(j as nat)) as nat) % ni
                    != n - 1,
            pow(a as int, d as nat) % ni != 1,
            pow(a as int, d as nat) % ni != n - 1,
        decreases r - k,
    {
        let ghost e0 = (d * pow2((k - 1) as nat)) as nat;
        x = mod_exp(x, 2, n);
        proof {
            lemma_pow_mod_noop(pow(a as int, e0), 2, ni);
            lemma_pow_multiplies(a as int, e0, 2);
            lemma_pow2_adds((k - 1) as nat, 1);
            lemma2_to64();
            assert(e0 * 2 == d * pow2(k as nat)) by (nonlinear_arith)
                requires
                    e0 == d * pow2((k - 1) as nat),
                    pow2(k as nat) == pow2((k - 1) as nat) * 2,
            ;
            assert(x == pow(a as int, (d * pow2(k as nat)) as nat) % ni);
        }
        if x == n - 1 {
            proof {
                let j0: int = k as int;
                assert(1 <= j0 < r);
                assert(pow(a as int, (d * pow2(j0 as nat)) as nat) % ni == n - 1);
            }
            return true;
        }
        k = k + 1;
    }
    false
}

/// Deterministic Miller-Rabin primality test over the fixed base set.
/// Returns exactly whether no applicable base witnesses compositeness;
/// that equals true primality only below the documented determinism bound
/// (about 3.3e24), which covers every value below `LAMBDA`.
#[verifier::loop_isolation(false)]
pub fn miller_rabin(n: u128) -> (res: bool)
    requires
        2 <= n <= HALF_RANGE,
    ensures
        res == mr_spec(n as nat),
{
    let ghost m1 = (n - 1) as nat;
    // Find r and d with d * 2^r == n - 1 and d odd.
    let mut d: u128 = n - 1;
    let mut r: u128 = 0;
    proof {
        lemma2_to64();
    }
    while d % 2 == 0
        invariant
            1 <= d,
            odd_part(m1) == odd_part(d as nat),
            two_adic(m1) == r + two_adic(d as nat),
            d * pow2(r as nat) == m1,
        decreases d,
    {
        proof {
            lemma_pow2_adds(r as nat, 1);
            lemma2_to64();
            assert((d / 2) * pow2((r + 1) as nat) == d * pow2(r as nat)) by (nonlinear_arith)
                requires
                    d % 2 == 0,
                    d >= 1,
                    pow2((r + 1) as nat) == pow2(r as nat) * 2,
            ;
            assert(r < 340282366920938463463374607431768211455u128) by {
                if r >= 128 {
                    lemma_pow2_adds(64, 64);
                    if r > 128 {
                        lemma_pow2_strictly_increases(128, r as nat);
                    }
                    assert(d * pow2(r as nat) >= pow2(r as nat)) by (nonlinear_arith)
                        requires
                            d >= 1,
                            pow2(r as nat) >= 0,
                    ;
                }
            }
        }
        d = d / 2;
        r = r + 1;
    }
    let mut i: usize = 0;
    while i < 13
        invariant
            2 <= n <= HALF_RANGE,
            d == odd_part(m1),
            r == two_adic(m1),
            m1 == (n - 1) as nat,
            forall|j: int|
                0 <= j < i && mr_bases()[j] + 2 <= n
                    ==> mr_strong_probable(n as nat, #[trigger] mr_bases()[j] as nat),
        decreases 13 - i,
    {
        let a = mr_base_at(i);
        if n - 2 >= a {
            if !mr_check_base(n, d, r, a) {
                return false;
            }
        }
        i = i + 1;
    }
    true
}

/// The BLAKE2b-256 digest of `bytes`: named, not spelled out, since the
/// algorithm is a function of its input alone and its full definition
/// belongs to the hash crate.
pub uninterp spec fn blake2_of(bytes: Seq<u8>) -> Seq<u8>;

/// Relies on blake2::Blake2b256 (BLAKE2b with a 32-byte output): the
/// digest depends on the input bytes alone and is always 32 bytes long.
#[verifier::external_body]
fn blake2_256(input: &[u8]) -> (r: Vec<u8>)
    ensures
        r@ == blake2_of(input@),
        r@.len() == 32,
{
    <blake2::Blake2b256 as blake2::Digest>::digest(input).to_vec()
}

/// The i-th digest of the rehash chain that hash-to-prime walks: hash the
/// input, then repeatedly hash the previous digest.
pub open spec fn chain_digest(s: Seq<u8>, i: nat) -> Seq<u8>
    decreases i,
{
    if i == 0 {
        blake2_of(s)
    } else {
        blake2_of(chain_digest(s, (i - 1) as nat))
    }
}

/// The big-endian value of a byte string: the digest is read as one
/// integer with its first byte most significant.
pub open spec fn be_nat(s: Seq<u8>) -> nat
    decreases s.len(),
{
    if s.len() == 0 {
        0
    } else {
        (s[s.len() - 1] + 256 * be_nat(s.subrange(0, s.len() - 1))) as nat
    }
}

/// The i-th candidate that hash-to-prime examines: the big-endian value
/// of the i-th chain digest, reduced mod the prime bound.
pub open spec fn h2p_candidate(s: Seq<u8>, i: nat) -> nat {
    be_nat(chain_digest(s, i)) % (crate::LAMBDA as nat)
}

/// Whether a candidate is accepted: at least 2 and passing Miller-Rabin.
pub open spec fn h2p_passes(c: nat) -> bool {
    c >= 2 && mr_spec(c)
}

/// Whether some candidate within the search cap is accepted.
pub open spec fn h2p_found(s: Seq<u8>) -> bool {
    exists|i: nat| i < PRIME_SEARCH_CAP && h2p_passes(#[trigger] h2p_candidate(s, i))
}

/// Whether `v` is the first accepted candidate of the chain for `s`.
pub open spec fn h2p_yields(s: Seq<u8>, v: u128) -> bool {
    exists|i: nat|
        i < PRIME_SEARCH_CAP && v == h2p_candidate(s, i) && h2p_passes(
            #[trigger] h2p_candidate(s, i),
        ) && (forall|j: nat| j < i ==> !h2p_passes(#[trigger] h2p_candidate(s, j)))
}

/// The first accepted candidate is unique: two values that both satisfy
/// `h2p_yields` for the same input are equal. This is what makes the
/// hash-to-prime challenge reproducible across prover and verifier.
pub proof fn lemma_h2p_yields_unique(s: Seq<u8>, v1: u128, v2: u128)
    requires
        h2p_yields(s, v1),
        h2p_yields(s, v2),
    ensures
        v1 == v2,
{
    let i1 = choose|i: nat|
        i < PRIME_SEARCH_CAP && v1 == h2p_candidate(s, i) && h2p_passes(
            #[trigger] h2p_candidate(s, i),
        ) && (forall|j: nat| j < i ==> !h2p_passes(#[trigger] h2p_candidate(s, j)));
    let i2 = choose|i: nat|
        i < PRIME_SEARCH_CAP && v2 == h2p_candidate(s, i) && h2p_passes(
            #[trigger] h2p_candidate(s, i),
        ) && (forall|j: nat| j < i ==> !h2p_passes(#[trigger] h2p_candidate(s, j)));
    if i1 < i2 {
        assert(!h2p_passes(h2p_candidate(s, i1)));
    } else if i2 < i1 {
        assert(!h2p_passes(h2p_candidate(s, i2)));
    }
}

/// The value of a byte string of length at least 4, reduced mod 2^32, is
/// the big-endian value of its last four bytes.
proof fn lemma_be_nat_low4(s: Seq<u8>)
    requires
        s.len() >= 4,
    ensures
        be_nat(s) % 0x1_0000_0000 == s[s.len() - 1] + 256 * s[s.len() - 2] + 0x1_0000 * s[s.len()
            - 3] + 0x100_0000 * s[s.len() - 4],
{
    let l = s.len() as int;
    let t1 = s.subrange(0, l - 1);
    let t2 = s.subrange(0, l - 2);
    let t3 = s.subrange(0, l - 3);
    let t4 = s.subrange(0, l - 4);
    assert(t1.subrange(0, t1.len() - 1) =~= t2);
    assert(t2.subrange(0, t2.len() - 1) =~= t3);
    assert(t3.subrange(0, t3.len() - 1) =~= t4);
    let low = s[l - 1] + 256 * s[l - 2] + 0x1_0000 * s[l - 3] + 0x100_0000 * s[l - 4];
    assert(be_nat(s) == s[l - 1] + 256 * be_nat(t1));
    assert(be_nat(t1) == s[l - 2] + 256 * be_nat(t2));
    assert(be_nat(t2) == s[l - 3] + 256 * be_nat(t3));
    assert(be_nat(t3) == s[l - 4] + 256 * be_nat(t4));
    assert(be_nat(s) == low + 0x1_0000_0000 * be_nat(t4));
    lemma_mod_multiples_vanish(be_nat(t4) as int, low as int, 0x1_0000_0000);
    lemma_small_mod(low as nat, 0x1_0000_0000);
}

/// Hashes the input, reduces mod `LAMBDA`, and rehashes the previous
/// digest until the candidate passes the primality test, up to the
/// iteration cap: returns the first accepted candidate of the digest
/// chain, or `PrimeSearchExhausted` when no candidate within the cap is
/// accepted.
#[verifier::loop_isolation(false)]
pub fn hash_to_prime(elem: &[u8]) -> (res: Result<u128, AccumulatorError>)
    ensures
        res is Ok <==> h2p_found(elem@),
        res is Ok ==> h2p_yields(elem@, res->Ok_0) && res->Ok_0 < crate::LAMBDA,
        res is Err ==> res->Err_0 == AccumulatorError::PrimeSearchExhausted,
{
    let mut digest: Vec<u8> = blake2_256(elem);
    let mut i: u64 = 0;
    while i < PRIME_SEARCH_CAP
        invariant
            i <= PRIME_SEARCH_CAP,
            digest@ == chain_digest(elem@, i as nat),
            digest@.len() == 32,
            forall|j: nat| j < i ==> !h2p_passes(#[trigger] h2p_candidate(elem@, j)),
        decreases PRIME_SEARCH_CAP - i,
    {
        let c: u128 = digest[31] as u128 + 256 * (digest[30] as u128)
            + 0x1_0000 * (digest[29] as u128) + 0x100_0000 * (digest[28] as u128);
        proof {
            lemma_be_nat_low4(digest@);
            assert(c == h2p_candidate(elem@, i as nat));
        }
        if c >= 2 {
            if miller_rabin(c) {
                return Ok(c);
            }
        }
        proof {
            assert(!h2p_passes(h2p_candidate(elem@, i as nat)));
        }
        digest = blake2_256(digest.as_slice());
        i = i + 1;
    }
    Err(AccumulatorError::PrimeSearchExhausted)
}

} // verus!
