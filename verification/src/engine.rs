//! The accumulator engine: batched addition and deletion of members as
//! pure state transitions, each returning the new state, the batch's
//! aggregated exponent, and a proof of exponentiation that lets a
//! verifier check the transition without redoing the full work.
//!
//! The proof of exponentiation is Wesolowski-style: the challenge prime
//! is derived by hashing the transition's endpoints to a prime, the
//! proof is the base raised to the quotient of the exponent by the
//! challenge, and the verifier checks one small equation. Completeness
//! is proved here; soundness rests on the hash-to-prime challenge being
//! outside the prover's control, a cryptographic rather than logical
//! property.

use vstd::prelude::*;
use vstd::arithmetic::power::{pow, lemma_pow1, lemma_pow_adds};
use vstd::arithmetic::div_mod::{
    lemma_fundamental_div_mod, lemma_mod_bound, lemma_mul_mod_noop, lemma_small_mod,
};
use crate::arith::{gcd, mod_exp, mul_mod, lemma_pow_then_pow, lemma_root_is_unit,
    GCD_INPUT_BOUND};
use crate::prime::{
    hash_to_prime, h2p_found, h2p_yields, lemma_h2p_yields_unique, PRIME_SEARCH_CAP,
};
use crate::witness::{
    prod, lemma_prod_concat, lemma_prod_pos, lemma_prod_push, shamir_combined, shamir_trick,
    verify_mem_wit,
};
use crate::{AccumulatorError, MODULUS};

verus! {

/// The little-endian encoding of `v` in `n` bytes.
pub open spec fn le_bytes_of(v: nat, n: nat) -> Seq<u8>
    decreases n,
{
    if n == 0 {
        Seq::empty()
    } else {
        seq![(v % 256) as u8] + le_bytes_of(v / 256, (n - 1) as nat)
    }
}

/// Fixed-width little-endian encoding of a value in `width` bytes: the
/// boundary format for group elements and primes.
pub fn le_encode(v: u128, width: usize) -> (out: Vec<u8>)
    ensures
        out@ == le_bytes_of(v as nat, width as nat),
{
    let mut out: Vec<u8> = Vec::new();
    let mut x = v;
    let mut i: usize = 0;
    while i < width
        invariant
            i <= width,
            out@.len() == i,
            out@ + le_bytes_of(x as nat, (width - i) as nat) == le_bytes_of(
                v as nat,
                width as nat,
            ),
        decreases width - i,
    {
        let ghost out0 = out@;
        let ghost x0 = x as nat;
        let b: u8 = (x % 256) as u8;
        out.push(b);
        x = x / 256;
        i = i + 1;
        proof {
            assert(le_bytes_of(x0, (width - i + 1) as nat) == seq![(x0 % 256) as u8]
                + le_bytes_of(x0 / 256, (width - i) as nat));
            assert(out@ + le_bytes_of(x as nat, (width - i) as nat) =~= out0 + le_bytes_of(
                x0,
                (width - i + 1) as nat,
            ));
        }
    }
    proof {
        assert(out@ + le_bytes_of(x as nat, 0) =~= out@);
    }
    out
}

/// The challenge transcript of a transition: the little-endian encodings
/// of the base and the claimed result.
pub open spec fn poe_transcript(base: u128, target: u128) -> Seq<u8> {
    le_bytes_of(base as nat, 16) + le_bytes_of(target as nat, 16)
}

fn poe_transcript_bytes(base: u128, target: u128) -> (out: Vec<u8>)
    ensures
        out@ == poe_transcript(base, target),
{
    let mut out = le_encode(base, 16);
    let mut tail = le_encode(target, 16);
    out.append(&mut tail);
    out
}

/// Whether `proof_value` convinces the verifier that
/// `base^exponent == target (mod N)`: with `l` the prime derived from
/// the transcript, `proof_value^l * base^(exponent % l) == target`.
pub open spec fn poe_accepts(base: u128, target: u128, exponent: u128, proof_value: u128) -> bool {
    exists|l: u128|
        #[trigger] h2p_yields(poe_transcript(base, target), l) && l >= 2 && (pow(
            proof_value as int,
            l as nat,
        ) * pow(base as int, (exponent % l) as nat)) % (MODULUS as int) == target
}

/// The first accepted hash-to-prime candidate is at least 2.
proof fn lemma_h2p_yields_ge2(s: Seq<u8>, v: u128)
    requires
        h2p_yields(s, v),
    ensures
        v >= 2,
{
    let i = choose|i: nat|
        i < PRIME_SEARCH_CAP && v == crate::prime::h2p_candidate(s, i)
            && crate::prime::h2p_passes(#[trigger] crate::prime::h2p_candidate(s, i)) && (
        forall|j: nat| j < i ==> !crate::prime::h2p_passes(#[trigger] crate::prime::h2p_candidate(s, j)));
    assert(crate::prime::h2p_passes(crate::prime::h2p_candidate(s, i)));
}

/// Produces the proof of exponentiation for `base^exponent == target`.
/// Fails only when the transcript's hash-to-prime search is exhausted.
pub fn poe_prove(base: u128, target: u128, exponent: u128) -> (res: Result<
    u128,
    AccumulatorError,
>)
    requires
        base < MODULUS,
        target as int == pow(base as int, exponent as nat) % (MODULUS as int),
    ensures
        res is Ok <==> h2p_found(poe_transcript(base, target)),
        res is Ok ==> poe_accepts(base, target, exponent, res->Ok_0),
        res is Err ==> res->Err_0 == AccumulatorError::PrimeSearchExhausted,
{
    let ghost m = MODULUS as int;
    let tb = poe_transcript_bytes(base, target);
    match hash_to_prime(tb.as_slice()) {
        Err(_) => Err(AccumulatorError::PrimeSearchExhausted),
        Ok(l) => {
            proof {
                lemma_h2p_yields_ge2(tb@, l);
            }
            let q = exponent / l;
            let r = exponent % l;
            let pf = mod_exp(base, q, MODULUS);
            proof {
                lemma_pow_then_pow(base as int, q as nat, l as nat, m);
                lemma_fundamental_div_mod(exponent as int, l as int);
                lemma_pow_adds(base as int, (q * l) as nat, r as nat);
                lemma_mul_mod_noop(pow(base as int, (q * l) as nat), pow(base as int, r as nat), m);
                assert(pow(pf as int, l as nat) % m == pow(base as int, (q * l) as nat) % m);
                assert((pow(pf as int, l as nat) * pow(base as int, r as nat)) % m == (pow(
                    base as int,
                    (q * l) as nat,
                ) * pow(base as int, r as nat)) % m) by {
                    lemma_mul_mod_noop(pow(pf as int, l as nat), pow(base as int, r as nat), m);
                };
                assert(q * l == l * q && q * l >= 0) by (nonlinear_arith)
                    requires
                        q >= 0,
                        l >= 0,
                ;
                assert((q * l + r) as nat == exponent as nat);
                assert((pow(pf as int, l as nat) * pow(base as int, r as nat)) % m == target);
            }
            Ok(pf)
        },
    }
}

/// Checks a proof of exponentiation for `base^exponent == target`.
/// Fails only when the transcript's hash-to-prime search is exhausted;
/// otherwise returns exactly whether the proof is accepted.
pub fn poe_verify(base: u128, target: u128, exponent: u128, proof_value: u128) -> (res: Result<
    bool,
    AccumulatorError,
>)
    ensures
        res is Ok <==> h2p_found(poe_transcript(base, target)),
        res is Ok ==> res->Ok_0 == poe_accepts(base, target, exponent, proof_value),
        res is Err ==> res->Err_0 == AccumulatorError::PrimeSearchExhausted,
{
    let ghost m = MODULUS as int;
    let tb = poe_transcript_bytes(base, target);
    match hash_to_prime(tb.as_slice()) {
        Err(_) => Err(AccumulatorError::PrimeSearchExhausted),
        Ok(l) => {
            proof {
                lemma_h2p_yields_ge2(tb@, l);
            }
            let r = exponent % l;
            let lhs = mul_mod(
                mod_exp(proof_value, l, MODULUS),
                mod_exp(base, r, MODULUS),
                MODULUS,
            );
            let ok = lhs == target;
            proof {
                lemma_mul_mod_noop(
                    pow(proof_value as int, l as nat),
                    pow(base as int, r as nat),
                    m,
                );
                if ok {
                    assert(poe_accepts(base, target, exponent, proof_value));
                } else {
                    if poe_accepts(base, target, exponent, proof_value) {
                        let l2 = choose|l2: u128|
                            #[trigger] h2p_yields(poe_transcript(base, target), l2) && l2 >= 2
                                && (pow(proof_value as int, l2 as nat) * pow(
                                base as int,
                                (exponent % l2) as nat,
                            )) % (MODULUS as int) == target;
                        lemma_h2p_yields_unique(poe_transcript(base, target), l, l2);
                        assert(false);
                    }
                }
            }
            Ok(ok)
        },
    }
}

/// Adds a batch of members to the accumulator: the new state is
/// `state^(product of members) mod N`, the aggregate is the exponent
/// product itself, and the proof certifies the transition. The empty
/// batch leaves the state unchanged. Fails with `Overflow` exactly when
/// the exponent product does not fit the integer width, and with
/// `PrimeSearchExhausted` when the transition's challenge cannot be
/// derived.
#[verifier::loop_isolation(false)]
pub fn batch_add(state: u128, members: &[u128]) -> (res: Result<
    (u128, u128, u128),
    AccumulatorError,
>)
    requires
        state < MODULUS,
        forall|i: int| 0 <= i < members@.len() ==> #[trigger] members@[i] >= 1,
    ensures
        res is Ok ==> ({
            let (ns, agg, pf) = res->Ok_0;
            &&& agg == prod(members@)
            &&& ns == pow(state as int, prod(members@)) % (MODULUS as int)
            &&& ns < MODULUS
            &&& poe_accepts(state, ns, agg, pf)
        }),
        res is Ok <==> (prod(members@) <= u128::MAX && h2p_found(
            poe_transcript(
                state,
                (pow(state as int, prod(members@)) % (MODULUS as int)) as u128,
            ),
        )),
        res is Err ==> (res->Err_0 == AccumulatorError::Overflow && prod(members@) > u128::MAX)
            || (res->Err_0 == AccumulatorError::PrimeSearchExhausted && prod(members@)
            <= u128::MAX),
{
    let ghost m = MODULUS as int;
    let mut ns = state;
    let mut agg: u128 = 1;
    let mut i: usize = 0;
    proof {
        lemma_pow1(state as int);
        lemma_small_mod(state as nat, MODULUS as nat);
        assert(prod(members@.subrange(0, 0)) == 1);
    }
    while i < members.len()
        invariant
            i <= members@.len(),
            ns < MODULUS,
            ns == pow(state as int, prod(members@.subrange(0, i as int))) % m,
            agg == prod(members@.subrange(0, i as int)),
        decreases members@.len() - i,
    {
        let e = members[i];
        let ghost pfx = members@.subrange(0, i as int);
        proof {
            assert(members@.subrange(0, i + 1) =~= pfx.push(members@[i as int]));
            lemma_prod_push(pfx, members@[i as int]);
        }
        match agg.checked_mul(e) {
            Some(v) => {
                agg = v;
            },
            None => {
                proof {
                    let rest = members@.subrange(i + 1, members@.len() as int);
                    assert(members@ =~= members@.subrange(0, i + 1) + rest);
                    lemma_prod_concat(members@.subrange(0, i + 1), rest);
                    lemma_prod_pos(rest);
                    assert(prod(members@) >= prod(members@.subrange(0, i + 1)))
                        by (nonlinear_arith)
                        requires
                            prod(members@) == prod(members@.subrange(0, i + 1)) * prod(rest),
                            prod(rest) >= 1,
                            prod(members@.subrange(0, i + 1)) >= 0,
                    ;
                }
                return Err(AccumulatorError::Overflow);
            },
        }
        ns = mod_exp(ns, e, MODULUS);
        proof {
            lemma_pow_then_pow(state as int, prod(pfx), e as nat, m);
        }
        i = i + 1;
    }
    proof {
        assert(members@.subrange(0, members@.len() as int) =~= members@);
    }
    match poe_prove(state, ns, agg) {
        Ok(pf) => Ok((ns, agg, pf)),
        Err(_) => Err(AccumulatorError::PrimeSearchExhausted),
    }
}

/// The members of a deletion batch, in order.
pub open spec fn del_members(d: Seq<(u128, u128)>) -> Seq<u128> {
    d.map_values(|p: (u128, u128)| p.0)
}

/// Every proper prefix of the member sequence is coprime with the next
/// member: the condition under which the pairwise witness folding of
/// `batch_delete` goes through.
pub open spec fn prefixes_coprime(ms: Seq<u128>) -> bool {
    forall|i: int|
        1 <= i < ms.len() ==> gcd(prod(#[trigger] ms.subrange(0, i)), ms[i] as nat) == 1
}

/// Every prefix product of the member sequence stays below the signed
/// coefficient bound of the extended Euclidean algorithm.
pub open spec fn prefixes_bounded(ms: Seq<u128>) -> bool {
    forall|i: int| 2 <= i <= ms.len() ==> prod(#[trigger] ms.subrange(0, i)) < GCD_INPUT_BOUND
}

/// The value the pairwise Shamir fold of a deletion batch produces: the
/// first witness, combined left to right with each further witness under
/// the running member product. The empty batch folds to the state
/// itself. This is a function of the batch and state alone, so the
/// outcome of `batch_delete` is pinned exactly.
pub open spec fn folded_root(state: u128, d: Seq<(u128, u128)>) -> u128
    decreases d.len(),
{
    if d.len() == 0 {
        state
    } else if d.len() == 1 {
        d[0].1
    } else {
        shamir_combined(
            folded_root(state, d.drop_last()),
            d.last().1,
            prod(del_members(d.drop_last())) as u128,
            d.last().0,
        ) as u128
    }
}

/// Deletes a batch of `(member, witness)` pairs from the accumulator.
/// Every witness is checked against the current state first; one bad
/// witness rejects the whole batch, so the state never reflects a
/// partial deletion. The remaining witnesses are folded pairwise with
/// Shamir's trick into the single root of the state for the whole
/// product of deleted members, which becomes the new state:
/// `new_state^(product of members) == state (mod N)`.
#[verifier::loop_isolation(false)]
pub fn batch_delete(state: u128, deletions: &[(u128, u128)]) -> (res: Result<
    (u128, u128, u128),
    AccumulatorError,
>)
    requires
        state < MODULUS,
        gcd(state as nat, MODULUS as nat) == 1,
        forall|i: int|
            0 <= i < deletions@.len() ==> 1 <= (#[trigger] deletions@[i]).0 < GCD_INPUT_BOUND
                && deletions@[i].1 < MODULUS,
    ensures
        res is Ok ==> ({
            let (ns, agg, pf) = res->Ok_0;
            &&& agg == prod(del_members(deletions@))
            &&& ns < MODULUS
            &&& pow(ns as int, prod(del_members(deletions@))) % (MODULUS as int) == state
            &&& poe_accepts(ns, state, agg, pf)
            &&& ns == folded_root(state, deletions@)
        }),
        res is Ok <==> ((forall|i: int|
            0 <= i < deletions@.len() ==> pow(
                (#[trigger] deletions@[i]).1 as int,
                deletions@[i].0 as nat,
            ) % (MODULUS as int) == state) && prefixes_coprime(del_members(deletions@))
            && prefixes_bounded(del_members(deletions@)) && h2p_found(
            poe_transcript(folded_root(state, deletions@), state),
        )),
        res == Err::<(u128, u128, u128), AccumulatorError>(AccumulatorError::InvalidWitness)
            <==> exists|i: int|
            0 <= i < deletions@.len() && pow(
                (#[trigger] deletions@[i]).1 as int,
                deletions@[i].0 as nat,
            ) % (MODULUS as int) != state,
        res == Err::<(u128, u128, u128), AccumulatorError>(AccumulatorError::NotCoprime)
            ==> !prefixes_coprime(del_members(deletions@)),
        res == Err::<(u128, u128, u128), AccumulatorError>(AccumulatorError::Overflow)
            ==> !prefixes_bounded(del_members(deletions@)),
        res == Err::<(u128, u128, u128), AccumulatorError>(AccumulatorError::PrimeSearchExhausted)
            ==> prefixes_coprime(del_members(deletions@)) && prefixes_bounded(
                del_members(deletions@),
            ),
{
    let ghost m = MODULUS as int;
    let ghost ms = del_members(deletions@);
    let n = deletions.len();
    let mut i: usize = 0;
    while i < n
        invariant
            i <= n,
            forall|j: int|
                0 <= j < i ==> pow((#[trigger] deletions@[j]).1 as int, deletions@[j].0 as nat)
                    % (MODULUS as int) == state,
        decreases n - i,
    {
        let d = deletions[i];
        if !verify_mem_wit(state, d.1, d.0) {
            return Err(AccumulatorError::InvalidWitness);
        }
        i = i + 1;
    }
    if n == 0 {
        proof {
            lemma_pow1(state as int);
            lemma_small_mod(state as nat, MODULUS as nat);
            assert(prod(ms) == 1);
            assert(folded_root(state, deletions@) == state);
        }
        return match poe_prove(state, state, 1) {
            Ok(pf) => Ok((state, 1, pf)),
            Err(_) => Err(AccumulatorError::PrimeSearchExhausted),
        };
    }
    let first = deletions[0];
    let mut acc = first.1;
    let mut x_acc = first.0;
    proof {
        assert(ms.subrange(0, 1).subrange(1, 1) =~= Seq::<u128>::empty());
        assert(prod(Seq::<u128>::empty()) == 1);
        assert(prod(ms.subrange(0, 1)) == (ms.subrange(0, 1)[0] * prod(
            ms.subrange(0, 1).subrange(1, 1),
        )) as nat);
        assert(prod(ms.subrange(0, 1)) == ms[0]);
        lemma_root_is_unit(acc, x_acc as nat, state, MODULUS);
        assert(deletions@.subrange(0, 1).len() == 1);
        assert(folded_root(state, deletions@.subrange(0, 1)) == deletions@[0].1);
    }
    let mut k: usize = 1;
    while k < n
        invariant
            1 <= k <= n,
            acc < MODULUS,
            1 <= x_acc < GCD_INPUT_BOUND,
            x_acc == prod(ms.subrange(0, k as int)),
            pow(acc as int, x_acc as nat) % m == state,
            gcd(acc as nat, MODULUS as nat) == 1,
            acc == folded_root(state, deletions@.subrange(0, k as int)),
            forall|j: int|
                1 <= j < k ==> gcd(prod(#[trigger] ms.subrange(0, j)), ms[j] as nat) == 1,
            forall|j: int| 2 <= j <= k ==> prod(#[trigger] ms.subrange(0, j)) < GCD_INPUT_BOUND,
        decreases n - k,
    {
        let d = deletions[k];
        let ghost pfx = ms.subrange(0, k as int);
        proof {
            assert(ms.subrange(0, k + 1) =~= pfx.push(ms[k as int]));
            lemma_prod_push(pfx, ms[k as int]);
            lemma_root_is_unit(d.1, d.0 as nat, state, MODULUS);
        }
        let p = match x_acc.checked_mul(d.0) {
            Some(p) => p,
            None => {
                return Err(AccumulatorError::Overflow);
            },
        };
        if p >= GCD_INPUT_BOUND {
            return Err(AccumulatorError::Overflow);
        }
        match shamir_trick(acc, d.1, x_acc, d.0) {
            None => {
                proof {
                    assert(pow(acc as int, x_acc as nat) % m == pow(d.1 as int, d.0 as nat) % m);
                }
                return Err(AccumulatorError::NotCoprime);
            },
            Some(r) => {
                proof {
                    assert(x_acc * d.0 >= 1) by (nonlinear_arith)
                        requires
                            x_acc >= 1,
                            d.0 >= 1,
                    ;
                    lemma_root_is_unit(r, (x_acc * d.0) as nat, state, MODULUS);
                    // The exec fold step matches the spec fold step.
                    let d2 = deletions@.subrange(0, k + 1);
                    assert(d2.drop_last() =~= deletions@.subrange(0, k as int));
                    assert(del_members(d2.drop_last()) =~= pfx);
                    assert(d2.last() == deletions@[k as int]);
                    assert(folded_root(state, d2) == r);
                }
                acc = r;
                x_acc = p;
            },
        }
        k = k + 1;
    }
    proof {
        assert(ms.subrange(0, n as int) =~= ms);
        assert(deletions@.subrange(0, n as int) =~= deletions@);
    }
    match poe_prove(acc, state, x_acc) {
        Ok(pf) => Ok((acc, x_acc, pf)),
        Err(_) => Err(AccumulatorError::PrimeSearchExhausted),
    }
}

} // verus!
