//! Witness algebra: Shamir's trick for combining roots under coprime
//! exponents, divide-and-conquer root factoring, and the membership
//! witness service built on them.

use vstd::prelude::*;
use vstd::arithmetic::power::{
    pow, lemma_pow1, lemma_pow_adds, lemma_pow_distributes, lemma_pow_mod_noop, lemma1_pow,
};
use vstd::arithmetic::div_mod::{
    lemma_mul_mod_noop, lemma_mul_mod_noop_right, lemma_small_mod,
};
use crate::arith::{
    bezout, bezout_coeffs, gcd, inv_mod, mod_exp, mod_inverse, mul_mod, lemma_pow_split_base,
    lemma_pow_then_pow, lemma_pow_units_cancel, GCD_INPUT_BOUND,
};
use crate::MODULUS;
use vstd::math::abs;

verus! {

/// The exact value Shamir's trick combines two roots into: the roots,
/// each replaced by its modular inverse where its Bezout coefficient is
/// negative, raised to the coefficients' magnitudes and multiplied mod N.
pub open spec fn shamir_combined(xr: u128, yr: u128, x: u128, y: u128) -> nat {
    let p = bezout_coeffs(x, y);
    let u = if p.1 < 0 { inv_mod(xr) as int } else { xr as int };
    let w = if p.0 < 0 { inv_mod(yr) as int } else { yr as int };
    ((pow(u, abs(p.1)) * pow(w, abs(p.0))) % (MODULUS as int)) as nat
}

/// Given an xth root and a yth root of one common value `h` — that is,
/// `xth_root^x == yth_root^y == h (mod N)` — and coprime `x` and `y`,
/// combines them into the xyth root of `h`. Returns `None` exactly when
/// the two inputs are not roots of a common value or `x` and `y` are not
/// coprime. Roots must be group elements coprime with the modulus, since
/// a negative Bezout coefficient is handled through a modular inverse.
pub fn shamir_trick(xth_root: u128, yth_root: u128, x: u128, y: u128) -> (res: Option<u128>)
    requires
        xth_root < MODULUS,
        yth_root < MODULUS,
        gcd(xth_root as nat, MODULUS as nat) == 1,
        gcd(yth_root as nat, MODULUS as nat) == 1,
        1 <= x < GCD_INPUT_BOUND,
        1 <= y < GCD_INPUT_BOUND,
    ensures
        res is Some <==> (pow(xth_root as int, x as nat) % (MODULUS as int) == pow(
            yth_root as int,
            y as nat,
        ) % (MODULUS as int) && gcd(x as nat, y as nat) == 1),
        res is Some ==> res->Some_0 < MODULUS && pow(res->Some_0 as int, (x * y) as nat) % (
        MODULUS as int) == pow(xth_root as int, x as nat) % (MODULUS as int),
        res is Some ==> res->Some_0 == shamir_combined(xth_root, yth_root, x, y),
{
    let ghost m = MODULUS as int;
    // The inputs must be roots of the same underlying value.
    let hx = mod_exp(xth_root, x, MODULUS);
    let hy = mod_exp(yth_root, y, MODULUS);
    if hx != hy {
        return None;
    }
    match bezout(x, y) {
        None => None,
        Some(c) => {
            let (a0, b0) = c;
            let mut u = xth_root;
            let mut w = yth_root;
            let mut b1 = b0;
            let mut a1 = a0;
            proof {
                if a0 < 0 && b0 < 0 {
                    assert(false) by (nonlinear_arith)
                        requires
                            x * a0 + y * b0 == 1,
                            x >= 1,
                            y >= 1,
                            a0 <= -1,
                            b0 <= -1,
                    ;
                }
            }
            // A negative coefficient becomes a positive exponent on the
            // inverse of the corresponding root.
            if b1 < 0 {
                u = mod_inverse(u);
                b1 = -b1;
            }
            if a1 < 0 {
                w = mod_inverse(w);
                a1 = -a1;
            }
            let pu = mod_exp(u, b1 as u128, MODULUS);
            let pw = mod_exp(w, a1 as u128, MODULUS);
            let combined = mul_mod(pu, pw, MODULUS);
            proof {
                let gx = x as nat;
                let gy = y as nat;
                let kk = (gx * gy) as nat;
                let bb = b1 as nat;
                let aa = a1 as nat;
                let ui = u as int;
                let wi = w as int;
                let hi = hx as int;
                let ux = pow(ui, gx) % m;
                let wy = pow(wi, gy) % m;
                assert((x * y) as nat == kk);
                // The combined value to the power x*y splits into the two
                // root contributions.
                lemma_pow_split_base(pu as int, pw as int, kk, m);
                lemma_mul_mod_noop(pow(pu as int, kk), pow(pw as int, kk), m);
                lemma_pow_then_pow(ui, bb, kk, m);
                lemma_pow_then_pow(ui, gx, (bb * gy) as nat, m);
                assert(bb * kk == gx * (bb * gy)) by (nonlinear_arith)
                    requires
                        kk == gx * gy,
                ;
                assert(pow(pu as int, kk) % m == pow(ux, (bb * gy) as nat) % m);
                lemma_pow_then_pow(wi, aa, kk, m);
                lemma_pow_then_pow(wi, gy, (aa * gx) as nat, m);
                assert(aa * kk == gy * (aa * gx)) by (nonlinear_arith)
                    requires
                        kk == gx * gy,
                ;
                assert(pow(pw as int, kk) % m == pow(wy, (aa * gx) as nat) % m);
                lemma_mul_mod_noop(pow(ux, (bb * gy) as nat), pow(wy, (aa * gx) as nat), m);
                assert(pow(combined as int, kk) % m == (pow(ux, (bb * gy) as nat) * pow(
                    wy,
                    (aa * gx) as nat,
                )) % m);
                if b0 >= 0 && a0 >= 0 {
                    // Both coefficients positive: a plain Bezout split of
                    // the exponent 1.
                    assert(ux == hi && wy == hi);
                    assert(aa * gx + bb * gy == 1) by (nonlinear_arith)
                        requires
                            x * a0 + y * b0 == 1,
                            aa == a0,
                            bb == b0,
                            gx == x,
                            gy == y,
                    ;
                    lemma_pow_adds(hi, (bb * gy) as nat, (aa * gx) as nat);
                    lemma_pow1(hi);
                    lemma_small_mod(hi as nat, m as nat);
                } else if b0 < 0 {
                    // The x-root was inverted: its contribution cancels
                    // against the surplus powers of h from the other side.
                    assert(wy == hi);
                    assert(aa * gx == 1 + bb * gy) by (nonlinear_arith)
                        requires
                            x * a0 + y * b0 == 1,
                            aa == a0,
                            bb == -b0,
                            gx == x,
                            gy == y,
                    ;
                    lemma_pow_units_cancel(xth_root as int, ui, gx, m);
                    lemma_mul_mod_noop(pow(ui, gx), pow(xth_root as int, gx), m);
                    assert((ux * hi) % m == 1) by {
                        assert(pow(ui, gx) * pow(xth_root as int, gx) == pow(
                            xth_root as int,
                            gx,
                        ) * pow(ui, gx));
                    }
                    lemma_pow_adds(hi, 1, (bb * gy) as nat);
                    lemma_pow1(hi);
                    lemma_pow_distributes(ux, hi, (bb * gy) as nat);
                    lemma_pow_mod_noop(ux * hi, (bb * gy) as nat, m);
                    lemma1_pow((bb * gy) as nat);
                    lemma_small_mod(1nat, m as nat);
                    let q = pow(ux, (bb * gy) as nat) * pow(hi, (bb * gy) as nat);
                    assert(q % m == 1);
                    assert(pow(ux, (bb * gy) as nat) * pow(hi, (aa * gx) as nat) == hi * q)
                        by (nonlinear_arith)
                        requires
                            pow(hi, (aa * gx) as nat) == hi * pow(hi, (bb * gy) as nat),
                            q == pow(ux, (bb * gy) as nat) * pow(hi, (bb * gy) as nat),
                    ;
                    lemma_mul_mod_noop_right(hi, q, m);
                    lemma_small_mod(hi as nat, m as nat);
                    assert(pow(combined as int, kk) % m == hi);
                } else {
                    // Symmetric: the y-root was inverted.
                    assert(ux == hi);
                    assert(bb * gy == 1 + aa * gx) by (nonlinear_arith)
                        requires
                            x * a0 + y * b0 == 1,
                            aa == -a0,
                            bb == b0,
                            gx == x,
                            gy == y,
                    ;
                    lemma_pow_units_cancel(yth_root as int, wi, gy, m);
                    lemma_mul_mod_noop(pow(wi, gy), pow(yth_root as int, gy), m);
                    assert((wy * hi) % m == 1) by {
                        assert(pow(wi, gy) * pow(yth_root as int, gy) == pow(
                            yth_root as int,
                            gy,
                        ) * pow(wi, gy));
                    }
                    lemma_pow_adds(hi, 1, (aa * gx) as nat);
                    lemma_pow1(hi);
                    lemma_pow_distributes(wy, hi, (aa * gx) as nat);
                    lemma_pow_mod_noop(wy * hi, (aa * gx) as nat, m);
                    lemma1_pow((aa * gx) as nat);
                    lemma_small_mod(1nat, m as nat);
                    let q = pow(wy, (aa * gx) as nat) * pow(hi, (aa * gx) as nat);
                    assert(q % m == 1);
                    assert(pow(hi, (bb * gy) as nat) * pow(wy, (aa * gx) as nat) == hi * q)
                        by (nonlinear_arith)
                        requires
                            pow(hi, (bb * gy) as nat) == hi * pow(hi, (aa * gx) as nat),
                            q == pow(wy, (aa * gx) as nat) * pow(hi, (aa * gx) as nat),
                    ;
                    lemma_mul_mod_noop_right(hi, q, m);
                    lemma_small_mod(hi as nat, m as nat);
                    assert(pow(combined as int, kk) % m == hi);
                }
                // The result is exactly the Bezout combination of the two
                // (possibly inverted) roots.
                assert((a0 as int, b0 as int) == bezout_coeffs(x, y));
                assert(bb == abs(b0 as int) && aa == abs(a0 as int));
                lemma_mul_mod_noop(pow(ui, bb), pow(wi, aa), m);
                assert(combined == shamir_combined(xth_root, yth_root, x, y));
            }
            Some(combined)
        },
    }
}

/// The product of all elements of a sequence; 1 for the empty sequence.
pub open spec fn prod(s: Seq<u128>) -> nat
    decreases s.len(),
{
    if s.len() == 0 {
        1
    } else {
        (s[0] * prod(s.subrange(1, s.len() as int))) as nat
    }
}

/// Appending one element multiplies the product by it.
pub proof fn lemma_prod_push(s: Seq<u128>, x: u128)
    ensures
        prod(s.push(x)) == prod(s) * x,
    decreases s.len(),
{
    let t = s.push(x);
    assert(prod(t) == (t[0] * prod(t.subrange(1, t.len() as int))) as nat);
    if s.len() == 0 {
        assert(t.subrange(1, t.len() as int) =~= Seq::<u128>::empty());
        assert(prod(Seq::<u128>::empty()) == 1);
        assert(prod(s) == 1);
        assert(t[0] == x);
        assert(prod(t) == (x * 1) as nat);
        assert(prod(t) == x);
    } else {
        let st = s.subrange(1, s.len() as int);
        assert(prod(s) == (s[0] * prod(st)) as nat);
        assert(t.subrange(1, t.len() as int) =~= st.push(x));
        lemma_prod_push(st, x);
        assert(s[0] * (prod(st) * x) == (s[0] * prod(st)) * x && s[0] * prod(st) >= 0 && (s[0]
            * prod(st)) * x >= 0) by (nonlinear_arith)
            requires
                s[0] >= 0,
                prod(st) >= 0,
                x >= 0,
        ;
        assert(prod(t) == (s[0] * (prod(st) * x)) as nat);
        assert(prod(t) == (s[0] * prod(st)) * x);
        assert(prod(s) * x == (s[0] * prod(st)) * x);
    }
}

/// The product of a concatenation is the product of the products.
pub proof fn lemma_prod_concat(a: Seq<u128>, b: Seq<u128>)
    ensures
        prod(a + b) == prod(a) * prod(b),
    decreases a.len(),
{
    if a.len() == 0 {
        assert(a + b =~= b);
        assert(prod(a) == 1);
    } else {
        let at = a.subrange(1, a.len() as int);
        assert(prod(a) == (a[0] * prod(at)) as nat);
        assert(prod(a + b) == ((a + b)[0] * prod((a + b).subrange(1, (a + b).len() as int)))
            as nat);
        assert((a + b).subrange(1, (a + b).len() as int) =~= at + b);
        lemma_prod_concat(at, b);
        assert(a[0] * (prod(at) * prod(b)) == (a[0] * prod(at)) * prod(b) && a[0] * prod(at)
            >= 0 && (a[0] * prod(at)) * prod(b) >= 0) by (nonlinear_arith)
            requires
                a[0] >= 0,
                prod(at) >= 0,
                prod(b) >= 0,
        ;
    }
}

/// The inner divide-and-conquer walk of `root_factor` over
/// `elems[lo..hi]`: the left half's witnesses are grown from the base
/// raised to the right half's product, and vice versa.
#[verifier::loop_isolation(false)]
#[verifier::rlimit(60)]
fn root_factor_range(g: u128, elems: &[u128], lo: usize, hi: usize) -> (ws: Vec<u128>)
    requires
        g < MODULUS,
        lo < hi,
        hi <= elems@.len(),
    ensures
        ws@.len() == hi - lo,
        forall|i: int|
            0 <= i < hi - lo ==> ws@[i] == pow(
                g as int,
                prod(elems@.subrange(lo as int, hi as int).remove(i)),
            ) % (MODULUS as int),
    decreases hi - lo,
{
    let ghost m = MODULUS as int;
    let ghost seg = elems@.subrange(lo as int, hi as int);
    if hi - lo == 1 {
        let mut ret: Vec<u128> = Vec::new();
        ret.push(g);
        proof {
            assert(seg.remove(0) =~= Seq::<u128>::empty());
            lemma_pow1(g as int);
            lemma_small_mod(g as nat, MODULUS as nat);
        }
        return ret;
    }
    let n_prime = lo + (hi - lo) / 2;
    let ghost lhalf = elems@.subrange(lo as int, n_prime as int);
    let ghost rhalf = elems@.subrange(n_prime as int, hi as int);
    proof {
        lemma_pow1(g as int);
        lemma_small_mod(g as nat, MODULUS as nat);
    }
    let mut g_left = g;
    let mut i = lo;
    while i < n_prime
        invariant
            lo <= i <= n_prime,
            g_left < MODULUS,
            g_left == pow(g as int, prod(elems@.subrange(lo as int, i as int))) % m,
        decreases n_prime - i,
    {
        let ghost pfx = elems@.subrange(lo as int, i as int);
        g_left = mod_exp(g_left, elems[i], MODULUS);
        proof {
            lemma_pow_then_pow(g as int, prod(pfx), elems@[i as int] as nat, m);
            assert(elems@.subrange(lo as int, i + 1) =~= pfx.push(elems@[i as int]));
            lemma_prod_push(pfx, elems@[i as int]);
        }
        i = i + 1;
    }
    let mut g_right = g;
    let mut j = n_prime;
    while j < hi
        invariant
            n_prime <= j <= hi,
            g_right < MODULUS,
            g_right == pow(g as int, prod(elems@.subrange(n_prime as int, j as int))) % m,
        decreases hi - j,
    {
        let ghost pfx = elems@.subrange(n_prime as int, j as int);
        g_right = mod_exp(g_right, elems[j], MODULUS);
        proof {
            lemma_pow_then_pow(g as int, prod(pfx), elems@[j as int] as nat, m);
            assert(elems@.subrange(n_prime as int, j + 1) =~= pfx.push(elems@[j as int]));
            lemma_prod_push(pfx, elems@[j as int]);
        }
        j = j + 1;
    }
    // The right half's product seeds the left half's base and vice
    // versa: each side's witnesses then already carry the other side's
    // members in their exponent.
    let mut left = root_factor_range(g_right, elems, lo, n_prime);
    let mut right = root_factor_range(g_left, elems, n_prime, hi);
    let ghost left_ws = left@;
    let ghost right_ws = right@;
    left.append(&mut right);
    proof {
        assert(left@ == left_ws + right_ws);
        assert(left_ws.len() == n_prime - lo);
        assert(right_ws.len() == hi - n_prime);
        assert(g_left == pow(g as int, prod(lhalf)) % m);
        assert(g_right == pow(g as int, prod(rhalf)) % m);
        assert forall|i: int| 0 <= i < hi - lo implies left@[i] == pow(
            g as int,
            prod(seg.remove(i)),
        ) % m by {
            if i < n_prime - lo {
                assert(left@[i] == left_ws[i]);
                assert(left_ws[i] == pow(g_right as int, prod(lhalf.remove(i))) % m);
                lemma_pow_then_pow(g as int, prod(rhalf), prod(lhalf.remove(i)), m);
                assert(left@[i] == pow(g as int, prod(rhalf) * prod(lhalf.remove(i))) % m);
                assert(seg.remove(i) =~= lhalf.remove(i) + rhalf);
                lemma_prod_concat(lhalf.remove(i), rhalf);
                assert(prod(seg.remove(i)) == prod(lhalf.remove(i)) * prod(rhalf));
                assert(prod(rhalf) * prod(lhalf.remove(i)) == prod(seg.remove(i)))
                    by (nonlinear_arith)
                    requires
                        prod(seg.remove(i)) == prod(lhalf.remove(i)) * prod(rhalf),
                ;
                assert(left@[i] == pow(g as int, prod(seg.remove(i))) % m);
            } else {
                let k = i - (n_prime - lo);
                assert(left@[i] == right_ws[k]);
                assert(right_ws[k] == pow(g_left as int, prod(rhalf.remove(k))) % m);
                lemma_pow_then_pow(g as int, prod(lhalf), prod(rhalf.remove(k)), m);
                assert(left@[i] == pow(g as int, prod(lhalf) * prod(rhalf.remove(k))) % m);
                assert(seg.remove(i) =~= lhalf + rhalf.remove(k));
                lemma_prod_concat(lhalf, rhalf.remove(k));
                assert(prod(seg.remove(i)) == prod(lhalf) * prod(rhalf.remove(k)));
                assert(prod(lhalf) * prod(rhalf.remove(k)) == prod(seg.remove(i)));
                assert(left@[i] == pow(g as int, prod(seg.remove(i))) % m);
            }
        }
    }
    left
}

/// For a base `g` and members `elems`, computes for each index `i` the
/// value `g^(product of all members but elems[i]) mod N` — the
/// membership witness for `elems[i]` against the state that results from
/// accumulating all of `elems` onto `g`. Output order matches input
/// order; the divide-and-conquer recursion costs O(n log n) modular
/// exponentiations.
pub fn root_factor(g: u128, elems: &[u128]) -> (ws: Vec<u128>)
    requires
        g < MODULUS,
        elems@.len() >= 1,
    ensures
        ws@.len() == elems@.len(),
        forall|i: int|
            0 <= i < elems@.len() ==> ws@[i] == pow(g as int, prod(elems@.remove(i))) % (
            MODULUS as int),
{
    let n = elems.len();
    let ws = root_factor_range(g, elems, 0, n);
    proof {
        assert(elems@.subrange(0, n as int) =~= elems@);
    }
    ws
}

/// A sequence of elements that are all at least 1 has product at least 1.
pub proof fn lemma_prod_pos(s: Seq<u128>)
    requires
        forall|i: int| 0 <= i < s.len() ==> #[trigger] s[i] >= 1,
    ensures
        prod(s) >= 1,
    decreases s.len(),
{
    if s.len() > 0 {
        let st = s.subrange(1, s.len() as int);
        lemma_prod_pos(st);
        assert(prod(s) == (s[0] * prod(st)) as nat);
        assert(s[0] * prod(st) >= 1) by (nonlinear_arith)
            requires
                s[0] >= 1,
                prod(st) >= 1,
        ;
    }
}

/// Removing one element divides the product: the whole product is the
/// removed element times the rest.
pub proof fn lemma_prod_remove(s: Seq<u128>, i: int)
    requires
        0 <= i < s.len(),
    ensures
        prod(s) == prod(s.remove(i)) * s[i],
{
    let a = s.subrange(0, i);
    let b = s.subrange(i + 1, s.len() as int);
    let mid = seq![s[i]];
    assert(s =~= a + (mid + b));
    assert(s.remove(i) =~= a + b);
    lemma_prod_concat(a, mid + b);
    lemma_prod_concat(a, b);
    assert((mid + b).subrange(1, (mid + b).len() as int) =~= b);
    assert(prod(mid + b) == ((mid + b)[0] * prod(b)) as nat);
    assert((mid + b)[0] == s[i]);
    assert(s[i] * prod(b) >= 0) by (nonlinear_arith)
        requires
            s[i] >= 0,
            prod(b) >= 0,
    ;
    assert(prod(a) * (s[i] * prod(b)) == (prod(a) * prod(b)) * s[i]) by (nonlinear_arith);
}

/// Witness soundness: a witness created against the pre-batch state by
/// root factoring validates against the post-batch state. Raising
/// `state^(product of all members but the i-th)` to the i-th member
/// gives exactly `state^(product of all members)`, which is the state
/// after the batch is added.
pub proof fn lemma_created_witness_verifies(state: u128, elems: Seq<u128>, i: int)
    requires
        0 <= i < elems.len(),
    ensures
        pow(
            pow(state as int, prod(elems.remove(i))) % (MODULUS as int),
            elems[i] as nat,
        ) % (MODULUS as int) == pow(state as int, prod(elems)) % (MODULUS as int),
{
    let m = MODULUS as int;
    lemma_pow_then_pow(state as int, prod(elems.remove(i)), elems[i] as nat, m);
    lemma_prod_remove(elems, i);
}

/// Whether `witness` is a valid membership witness for `member` against
/// accumulator value `state`: `witness^member == state (mod N)`.
pub fn verify_mem_wit(state: u128, witness: u128, member: u128) -> (res: bool)
    ensures
        res == (pow(witness as int, member as nat) % (MODULUS as int) == state),
{
    let p = mod_exp(witness, member, MODULUS);
    p == state
}

/// For a not-yet-added batch `members` against the pre-batch state,
/// returns the membership witness each member will need once the batch
/// has been added: index `i` holds `state^(product of all members but
/// the i-th) mod N`.
pub fn create_all_mem_wit(state: u128, members: &[u128]) -> (ws: Vec<u128>)
    requires
        state < MODULUS,
    ensures
        ws@.len() == members@.len(),
        forall|i: int|
            0 <= i < members@.len() ==> ws@[i] == pow(state as int, prod(members@.remove(i)))
                % (MODULUS as int),
{
    if members.len() == 0 {
        Vec::new()
    } else {
        root_factor(state, members)
    }
}

/// Which kind of batch a stale witness is being refreshed across.
#[derive(Clone, Copy, Debug, PartialEq, Eq, Structural)]
pub enum UpdateContext {
    Addition,
    Deletion,
}

/// Refreshes a stale membership witness after the accumulator advanced
/// past a batch, using the batch's aggregated exponent rather than the
/// full member set. After an addition the witness is raised to the
/// aggregate; after a deletion it is combined with the new state through
/// Shamir's trick, which yields the root for the member against the new
/// state whenever the inputs are consistent and coprime.
pub fn update_mem_wit(
    old_witness: u128,
    member: u128,
    aggregate: u128,
    new_state: u128,
    context: UpdateContext,
) -> (res: Option<u128>)
    requires
        context is Deletion ==> old_witness < MODULUS && new_state < MODULUS && gcd(
            old_witness as nat,
            MODULUS as nat,
        ) == 1 && gcd(new_state as nat, MODULUS as nat) == 1 && 1 <= member < GCD_INPUT_BOUND
            && 1 <= aggregate < GCD_INPUT_BOUND,
    ensures
        context is Addition ==> res == Some(
            (pow(old_witness as int, aggregate as nat) % (MODULUS as int)) as u128,
        ),
        context is Deletion ==> {
            &&& res is Some <==> (pow(old_witness as int, member as nat) % (MODULUS as int)
                == pow(new_state as int, aggregate as nat) % (MODULUS as int) && gcd(
                member as nat,
                aggregate as nat,
            ) == 1)
            &&& res is Some ==> res->Some_0 < MODULUS && pow(
                res->Some_0 as int,
                (member * aggregate) as nat,
            ) % (MODULUS as int) == pow(old_witness as int, member as nat) % (MODULUS as int)
            &&& res is Some ==> res->Some_0 == shamir_combined(
                old_witness,
                new_state,
                member,
                aggregate,
            )
        },
{
    match context {
        UpdateContext::Addition => Some(mod_exp(old_witness, aggregate, MODULUS)),
        UpdateContext::Deletion => shamir_trick(old_witness, new_state, member, aggregate),
    }
}

} // verus!
