//! The evaluation domain: the subgroups of two-power order of the field's
//! multiplicative group, and the cosets that shift them.

use crate::field::{gl_mul, gl_reduce, Fgl, MODULUS};
use vstd::arithmetic::div_mod::*;
use vstd::arithmetic::mul::*;
use vstd::arithmetic::power::*;
use vstd::arithmetic::power2::*;
use vstd::prelude::*;

verus! {

/// A root of unity of order `2^32`.
pub const ROOT_32: u64 = 7277203076849721926;

/// The seed of the coset multipliers.
pub const KAPPA: u64 = 12275445934081160404;

/// The largest number of cosets that a connection identity may use.
pub const MAX_COSETS: usize = 33;

/// The largest supported `log2` of the domain size.
pub const MAX_LOG_SIZE: u32 = 32;

/// `a` to the power `e` in the field.
pub open spec fn gl_pow(a: nat, e: nat) -> nat {
    gl_reduce(pow(a as int, e))
}

/// The root of unity of order `2^k`: `ROOT_32` for `k = 32`, and the square
/// of the next one below that.
pub open spec fn root_of_unity(k: nat) -> nat
    decreases 32 - k,
{
    if k >= 32 {
        ROOT_32 as nat
    } else {
        gl_mul(root_of_unity(k + 1), root_of_unity(k + 1))
    }
}

/// The multiplier of coset `j`: `KAPPA^j`.
pub open spec fn coset_shift(j: nat) -> nat {
    gl_pow(KAPPA as nat, j)
}

/// The element of coset `j` at row `i` of the domain of size `2^log_n`.
pub open spec fn coset_value(log_n: nat, j: nat, i: nat) -> nat {
    gl_mul(coset_shift(j), gl_pow(root_of_unity(log_n), i))
}

/// Multiplication in the field is commutative.
proof fn lemma_gl_mul_commutative(a: nat, b: nat)
    ensures
        gl_mul(a, b) == gl_mul(b, a),
{
    lemma_mul_is_commutative(a as int, b as int);
}

/// Multiplication in the field is associative.
proof fn lemma_gl_mul_associative(a: nat, b: nat, c: nat)
    ensures
        gl_mul(gl_mul(a, b), c) == gl_mul(a, gl_mul(b, c)),
{
    let p = MODULUS as int;
    lemma_mul_mod_noop_general((a * b) as int, c as int, p);
    lemma_mul_mod_noop_general(a as int, (b * c) as int, p);
    lemma_mul_is_associative(a as int, b as int, c as int);
}

/// One is neutral for the multiplication of canonical values.
proof fn lemma_gl_mul_one(a: nat)
    requires
        a < MODULUS,
    ensures
        gl_mul(1, a) == a,
        gl_mul(a, 1) == a,
{
    assert(1 * a == a);
    assert(a * 1 == a);
    lemma_small_mod(a, MODULUS as nat);
}

/// A power is a canonical value.
proof fn lemma_gl_pow_bound(a: nat, e: nat)
    ensures
        gl_pow(a, e) < MODULUS,
{
}

/// The zeroth power is one.
pub proof fn lemma_gl_pow_zero(a: nat)
    ensures
        gl_pow(a, 0) == 1,
{
    lemma_pow0(a as int);
}

/// The next power is the power times the base.
pub proof fn lemma_gl_pow_succ(a: nat, e: nat)
    ensures
        gl_pow(a, e + 1) == gl_mul(gl_pow(a, e), a),
{
    let p = MODULUS as int;
    lemma_pow_adds(a as int, e, 1);
    lemma_pow1(a as int);
    lemma_mul_mod_noop_general(pow(a as int, e), a as int, p);
}

/// A power to a sum of exponents is the product of the powers.
proof fn lemma_gl_pow_adds(a: nat, m: nat, n: nat)
    ensures
        gl_pow(a, m + n) == gl_mul(gl_pow(a, m), gl_pow(a, n)),
{
    let p = MODULUS as int;
    lemma_pow_adds(a as int, m, n);
    lemma_mul_mod_noop_general(pow(a as int, m), pow(a as int, n), p);
}

/// A power to twice an exponent is the square of the power.
proof fn lemma_gl_pow_double(a: nat, m: nat)
    ensures
        gl_pow(a, m + m) == gl_mul(gl_pow(a, m), gl_pow(a, m)),
{
    lemma_gl_pow_adds(a, m, m);
}

/// A power of a power is the power to the product of the exponents.
proof fn lemma_gl_pow_multiplies(a: nat, m: nat, n: nat)
    ensures
        gl_pow(gl_pow(a, m), n) == gl_pow(a, m * n),
{
    let p = MODULUS as int;
    lemma_pow_mod_noop(pow(a as int, m), n, p);
    lemma_pow_multiplies(a as int, m, n);
}

/// A power of a product is the product of the powers.
proof fn lemma_gl_pow_distributes(a: nat, b: nat, n: nat)
    ensures
        gl_pow(gl_mul(a, b), n) == gl_mul(gl_pow(a, n), gl_pow(b, n)),
{
    let p = MODULUS as int;
    lemma_pow_mod_noop((a * b) as int, n, p);
    lemma_pow_distributes(a as int, b as int, n);
    lemma_mul_mod_noop_general(pow(a as int, n), pow(b as int, n), p);
}

/// Every power of one is one.
proof fn lemma_gl_pow_of_one(n: nat)
    ensures
        gl_pow(1, n) == 1,
{
    lemma1_pow(n);
}

/// The first power of a canonical value is the value.
proof fn lemma_gl_pow_one(a: nat)
    requires
        a < MODULUS,
    ensures
        gl_pow(a, 1) == a,
{
    lemma_pow1(a as int);
    lemma_small_mod(a, MODULUS as nat);
}

/// A factor with an inverse can be cancelled.
proof fn lemma_gl_cancel(a: nat, a_inv: nat, x: nat, y: nat)
    requires
        gl_mul(a, a_inv) == 1,
        x < MODULUS,
        y < MODULUS,
        gl_mul(a, x) == gl_mul(a, y),
    ensures
        x == y,
{
    lemma_gl_mul_commutative(a, a_inv);
    lemma_gl_mul_associative(a_inv, a, x);
    lemma_gl_mul_associative(a_inv, a, y);
    lemma_gl_mul_one(x);
    lemma_gl_mul_one(y);
}

/// A root of unity is a canonical value.
pub proof fn lemma_root_bound(k: nat)
    ensures
        root_of_unity(k) < MODULUS,
    decreases 32 - k,
{
    if k < 32 {
        lemma_root_bound(k + 1);
    }
}

/// Squaring the root of order `2^k` `m` times gives the root of order
/// `2^(k - m)`.
pub proof fn lemma_root_power_of_two(k: nat, m: nat)
    requires
        m <= k <= 32,
    ensures
        gl_pow(root_of_unity(k), pow2(m)) == root_of_unity((k - m) as nat),
    decreases m,
{
    let w = root_of_unity(k);
    lemma_root_bound(k);
    if m == 0 {
        lemma2_to64();
        lemma_gl_pow_one(w);
    } else {
        lemma_root_power_of_two(k, (m - 1) as nat);
        lemma_pow2_unfold(m);
        lemma_gl_pow_double(w, pow2((m - 1) as nat));
        assert(pow2(m) == pow2((m - 1) as nat) + pow2((m - 1) as nat));
    }
}

proof fn lemma_root_step(k: nat, next: nat, this: nat)
    requires
        k < 32,
        root_of_unity(k + 1) == next,
        this == (next * next) % (MODULUS as nat),
    ensures
        root_of_unity(k) == this,
{
}

/// The roots of order one and two are `1` and `p - 1`.
pub proof fn lemma_root_values()
    ensures
        root_of_unity(0) == 1,
        root_of_unity(1) == MODULUS - 1,
{
    lemma_root_step(31, 7277203076849721926, 3524815499551269279);
    lemma_root_step(30, 3524815499551269279, 1905180297017055339);
    lemma_root_step(29, 1905180297017055339, 2530564950562219707);
    lemma_root_step(28, 2530564950562219707, 2147253751702802259);
    lemma_root_step(27, 2147253751702802259, 4969973714567017225);
    lemma_root_step(26, 4969973714567017225, 3757607247483852735);
    lemma_root_step(25, 3757607247483852735, 8877499657461974390);
    lemma_root_step(24, 8877499657461974390, 2709866199236980323);
    lemma_root_step(23, 2709866199236980323, 5936499541590631774);
    lemma_root_step(22, 5936499541590631774, 8124823329697072476);
    lemma_root_step(21, 8124823329697072476, 6553637399136210105);
    lemma_root_step(20, 6553637399136210105, 1971462654193939361);
    lemma_root_step(19, 1971462654193939361, 8982441859486529725);
    lemma_root_step(18, 8982441859486529725, 3411401055030829696);
    lemma_root_step(17, 3411401055030829696, 5718075921287398682);
    lemma_root_step(16, 5718075921287398682, 8167150655112846419);
    lemma_root_step(15, 8167150655112846419, 1873558160482552414);
    lemma_root_step(14, 1873558160482552414, 7126024226993609386);
    lemma_root_step(13, 7126024226993609386, 4308460244895131701);
    lemma_root_step(12, 4308460244895131701, 4355325209153869931);
    lemma_root_step(11, 4355325209153869931, 9113133275150391358);
    lemma_root_step(10, 9113133275150391358, 4255134452441852017);
    lemma_root_step(9, 4255134452441852017, 6434636298004421797);
    lemma_root_step(8, 6434636298004421797, 4404853092538523347);
    lemma_root_step(7, 4404853092538523347, 2198989700608);
    lemma_root_step(6, 2198989700608, 8);
    lemma_root_step(5, 8, 64);
    lemma_root_step(4, 64, 4096);
    lemma_root_step(3, 4096, 16777216);
    lemma_root_step(2, 16777216, 281474976710656);
    lemma_root_step(1, 281474976710656, 18446744069414584320);
    lemma_root_step(0, 18446744069414584320, 1);
}

/// The root of order `2^k` has no smaller order: none of its powers below
/// `2^k`, but the zeroth, is one.
pub proof fn lemma_root_primitive(k: nat, e: nat)
    requires
        k <= 32,
        0 < e < pow2(k),
    ensures
        gl_pow(root_of_unity(k), e) != 1,
    decreases k,
{
    lemma2_to64();
    lemma_root_values();
    let w = root_of_unity(k);
    lemma_root_bound(k);
    if k == 0 {
    } else if k == 1 {
        assert(e == 1);
        lemma_gl_pow_one(w);
    } else {
        let v = root_of_unity((k - 1) as nat);
        let half = pow2((k - 1) as nat);
        lemma_pow2_unfold(k);
        lemma_pow2_unfold((k - 1) as nat);
        lemma_gl_pow_one(w);
        lemma_gl_pow_succ(w, 1);
        assert(gl_pow(w, 2) == v);
        if e % 2 == 0 {
            let m = e / 2;
            lemma_gl_pow_multiplies(w, 2, m);
            assert(2 * m == e);
            lemma_root_primitive((k - 1) as nat, m);
        } else {
            if gl_pow(w, e) == 1 {
                lemma_gl_pow_multiplies(w, e, 2);
                lemma_gl_pow_multiplies(w, 2, e);
                assert(e * 2 == 2 * e);
                lemma_gl_pow_of_one(2);
                assert(gl_pow(v, e) == 1);
                if e < half {
                    lemma_root_primitive((k - 1) as nat, e);
                } else {
                    let rest = (e - half) as nat;
                    assert(half % 2 == 0);
                    assert(rest > 0);
                    lemma_gl_pow_adds(v, half, rest);
                    lemma_root_power_of_two((k - 1) as nat, (k - 1) as nat);
                    lemma_gl_pow_bound(v, rest);
                    lemma_gl_mul_one(gl_pow(v, rest));
                    lemma_root_primitive((k - 1) as nat, rest);
                }
            }
        }
    }
}

/// Every power of a root of two-power order is itself of an order that
/// divides `2^32`.
pub proof fn lemma_subgroup_order(k: nat, i: nat)
    requires
        k <= 32,
    ensures
        gl_pow(gl_pow(root_of_unity(k), i), pow2(32)) == 1,
{
    let w = root_of_unity(k);
    let t = pow2(32);
    lemma_root_values();
    lemma_gl_pow_multiplies(w, i, t);
    lemma_gl_pow_multiplies(w, t, i);
    lemma_mul_is_commutative(i as int, t as int);
    lemma_pow2_adds(k, (32 - k) as nat);
    lemma_gl_pow_multiplies(w, pow2(k), pow2((32 - k) as nat));
    lemma_root_power_of_two(k, k);
    lemma_gl_pow_of_one(pow2((32 - k) as nat));
    lemma_gl_pow_of_one(i);
}

/// `KAPPA` is of odd order: raising it to the power `2^32` gives it back.
pub proof fn lemma_kappa_order()
    ensures
        gl_pow(KAPPA as nat, pow2(32)) == KAPPA,
{
    lemma2_to64();
    lemma_gl_pow_one(KAPPA as nat);
    lemma_gl_pow_double(KAPPA as nat, pow2(0));
    assert(pow2(1) == pow2(0) + pow2(0)) by { lemma_pow2_unfold(1); }
    assert(gl_pow(KAPPA as nat, pow2(1)) == 4756475762779100925nat);
    lemma_gl_pow_double(KAPPA as nat, pow2(1));
    assert(pow2(2) == pow2(1) + pow2(1)) by { lemma_pow2_unfold(2); }
    assert(gl_pow(KAPPA as nat, pow2(2)) == 8312008622371998338nat);
    lemma_gl_pow_double(KAPPA as nat, pow2(2));
    assert(pow2(3) == pow2(2) + pow2(2)) by { lemma_pow2_unfold(3); }
    assert(gl_pow(KAPPA as nat, pow2(3)) == 3688660304411827445nat);
    lemma_gl_pow_double(KAPPA as nat, pow2(3));
    assert(pow2(4) == pow2(3) + pow2(3)) by { lemma_pow2_unfold(4); }
    assert(gl_pow(KAPPA as nat, pow2(4)) == 6534114114080170934nat);
    lemma_gl_pow_double(KAPPA as nat, pow2(4));
    assert(pow2(5) == pow2(4) + pow2(4)) by { lemma_pow2_unfold(5); }
    assert(gl_pow(KAPPA as nat, pow2(5)) == 12241777603010464820nat);
    lemma_gl_pow_double(KAPPA as nat, pow2(5));
    assert(pow2(6) == pow2(5) + pow2(5)) by { lemma_pow2_unfold(6); }
    assert(gl_pow(KAPPA as nat, pow2(6)) == 6822456961749002749nat);
    lemma_gl_pow_double(KAPPA as nat, pow2(6));
    assert(pow2(7) == pow2(6) + pow2(6)) by { lemma_pow2_unfold(7); }
    assert(gl_pow(KAPPA as nat, pow2(7)) == 14740284407083446365nat);
    lemma_gl_pow_double(KAPPA as nat, pow2(7));
    assert(pow2(8) == pow2(7) + pow2(7)) by { lemma_pow2_unfold(8); }
    assert(gl_pow(KAPPA as nat, pow2(8)) == 14198376421529404772nat);
    lemma_gl_pow_double(KAPPA as nat, pow2(8));
    assert(pow2(9) == pow2(8) + pow2(8)) by { lemma_pow2_unfold(9); }
    assert(gl_pow(KAPPA as nat, pow2(9)) == 16372603252271478917nat);
    lemma_gl_pow_double(KAPPA as nat, pow2(9));
    assert(pow2(10) == pow2(9) + pow2(9)) by { lemma_pow2_unfold(10); }
    assert(gl_pow(KAPPA as nat, pow2(10)) == 6094962593300533783nat);
    lemma_gl_pow_double(KAPPA as nat, pow2(10));
    assert(pow2(11) == pow2(10) + pow2(10)) by { lemma_pow2_unfold(11); }
    assert(gl_pow(KAPPA as nat, pow2(11)) == 12855798221536971597nat);
    lemma_gl_pow_double(KAPPA as nat, pow2(11));
    assert(pow2(12) == pow2(11) + pow2(11)) by { lemma_pow2_unfold(12); }
    assert(gl_pow(KAPPA as nat, pow2(12)) == 4570035464479216815nat);
    lemma_gl_pow_double(KAPPA as nat, pow2(12));
    assert(pow2(13) == pow2(12) + pow2(12)) by { lemma_pow2_unfold(13); }
    assert(gl_pow(KAPPA as nat, pow2(13)) == 13312966101283008305nat);
    lemma_gl_pow_double(KAPPA as nat, pow2(13));
    assert(pow2(14) == pow2(13) + pow2(13)) by { lemma_pow2_unfold(14); }
    assert(gl_pow(KAPPA as nat, pow2(14)) == 17717521521350689785nat);
    lemma_gl_pow_double(KAPPA as nat, pow2(14));
    assert(pow2(15) == pow2(14) + pow2(14)) by { lemma_pow2_unfold(15); }
    assert(gl_pow(KAPPA as nat, pow2(15)) == 2579852125121816621nat);
    lemma_gl_pow_double(KAPPA as nat, pow2(15));
    assert(pow2(16) == pow2(15) + pow2(15)) by { lemma_pow2_unfold(16); }
    assert(gl_pow(KAPPA as nat, pow2(16)) == 5647278486080789199nat);
    lemma_gl_pow_double(KAPPA as nat, pow2(16));
    assert(pow2(17) == pow2(16) + pow2(16)) by { lemma_pow2_unfold(17); }
    assert(gl_pow(KAPPA as nat, pow2(17)) == 10087368686013698258nat);
    lemma_gl_pow_double(KAPPA as nat, pow2(17));
    assert(pow2(18) == pow2(17) + pow2(17)) by { lemma_pow2_unfold(18); }
    assert(gl_pow(KAPPA as nat, pow2(18)) == 13705325519725492466nat);
    lemma_gl_pow_double(KAPPA as nat, pow2(18));
    assert(pow2(19) == pow2(18) + pow2(18)) by { lemma_pow2_unfold(19); }
    assert(gl_pow(KAPPA as nat, pow2(19)) == 16094056529116650251nat);
    lemma_gl_pow_double(KAPPA as nat, pow2(19));
    assert(pow2(20) == pow2(19) + pow2(19)) by { lemma_pow2_unfold(20); }
    assert(gl_pow(KAPPA as nat, pow2(20)) == 839801632116640137nat);
    lemma_gl_pow_double(KAPPA as nat, pow2(20));
    assert(pow2(21) == pow2(20) + pow2(20)) by { lemma_pow2_unfold(21); }
    assert(gl_pow(KAPPA as nat, pow2(21)) == 809314592928515922nat);
    lemma_gl_pow_double(KAPPA as nat, pow2(21));
    assert(pow2(22) == pow2(21) + pow2(21)) by { lemma_pow2_unfold(22); }
    assert(gl_pow(KAPPA as nat, pow2(22)) == 17285123329644556226nat);
    lemma_gl_pow_double(KAPPA as nat, pow2(22));
    assert(pow2(23) == pow2(22) + pow2(22)) by { lemma_pow2_unfold(23); }
    assert(gl_pow(KAPPA as nat, pow2(23)) == 13607546115301327129nat);
    lemma_gl_pow_double(KAPPA as nat, pow2(23));
    assert(pow2(24) == pow2(23) + pow2(23)) by { lemma_pow2_unfold(24); }
    assert(gl_pow(KAPPA as nat, pow2(24)) == 8495382904317313497nat);
    lemma_gl_pow_double(KAPPA as nat, pow2(24));
    assert(pow2(25) == pow2(24) + pow2(24)) by { lemma_pow2_unfold(25); }
    assert(gl_pow(KAPPA as nat, pow2(25)) == 7711545778172399998nat);
    lemma_gl_pow_double(KAPPA as nat, pow2(25));
    assert(pow2(26) == pow2(25) + pow2(25)) by { lemma_pow2_unfold(26); }
    assert(gl_pow(KAPPA as nat, pow2(26)) == 14653638268244293248nat);
    lemma_gl_pow_double(KAPPA as nat, pow2(26));
    assert(pow2(27) == pow2(26) + pow2(26)) by { lemma_pow2_unfold(27); }
    assert(gl_pow(KAPPA as nat, pow2(27)) == 4449853170003902284nat);
    lemma_gl_pow_double(KAPPA as nat, pow2(27));
    assert(pow2(28) == pow2(27) + pow2(27)) by { lemma_pow2_unfold(28); }
    assert(gl_pow(KAPPA as nat, pow2(28)) == 16684733269283358279nat);
    lemma_gl_pow_double(KAPPA as nat, pow2(28));
    assert(pow2(29) == pow2(28) + pow2(28)) by { lemma_pow2_unfold(29); }
    assert(gl_pow(KAPPA as nat, pow2(29)) == 10831206780798498119nat);
    lemma_gl_pow_double(KAPPA as nat, pow2(29));
    assert(pow2(30) == pow2(29) + pow2(29)) by { lemma_pow2_unfold(30); }
    assert(gl_pow(KAPPA as nat, pow2(30)) == 8050641074587903850nat);
    lemma_gl_pow_double(KAPPA as nat, pow2(30));
    assert(pow2(31) == pow2(30) + pow2(30)) by { lemma_pow2_unfold(31); }
    assert(gl_pow(KAPPA as nat, pow2(31)) == 1066724758865801085nat);
    lemma_gl_pow_double(KAPPA as nat, pow2(31));
    assert(pow2(32) == pow2(31) + pow2(31)) by { lemma_pow2_unfold(32); }
    assert(gl_pow(KAPPA as nat, pow2(32)) == 12275445934081160404nat);
}

/// None of the first thirty-two powers of `KAPPA` above the zeroth is one.
pub proof fn lemma_kappa_powers(d: nat)
    requires
        1 <= d <= 32,
    ensures
        gl_pow(KAPPA as nat, d) != 1,
{
    lemma_gl_pow_zero(KAPPA as nat);
    lemma_gl_pow_succ(KAPPA as nat, 0);
    assert(gl_pow(KAPPA as nat, 1) == 12275445934081160404nat);
    lemma_gl_pow_succ(KAPPA as nat, 1);
    assert(gl_pow(KAPPA as nat, 2) == 4756475762779100925nat);
    lemma_gl_pow_succ(KAPPA as nat, 2);
    assert(gl_pow(KAPPA as nat, 3) == 1279992132519201448nat);
    lemma_gl_pow_succ(KAPPA as nat, 3);
    assert(gl_pow(KAPPA as nat, 4) == 8312008622371998338nat);
    lemma_gl_pow_succ(KAPPA as nat, 4);
    assert(gl_pow(KAPPA as nat, 5) == 7781028390488215464nat);
    lemma_gl_pow_succ(KAPPA as nat, 5);
    assert(gl_pow(KAPPA as nat, 6) == 11302600489504509467nat);
    lemma_gl_pow_succ(KAPPA as nat, 6);
    assert(gl_pow(KAPPA as nat, 7) == 4549350404001778198nat);
    lemma_gl_pow_succ(KAPPA as nat, 7);
    assert(gl_pow(KAPPA as nat, 8) == 3688660304411827445nat);
    lemma_gl_pow_succ(KAPPA as nat, 8);
    assert(gl_pow(KAPPA as nat, 9) == 16725109960945739746nat);
    lemma_gl_pow_succ(KAPPA as nat, 9);
    assert(gl_pow(KAPPA as nat, 10) == 16538725463549498621nat);
    lemma_gl_pow_succ(KAPPA as nat, 10);
    assert(gl_pow(KAPPA as nat, 11) == 12756200801261202346nat);
    lemma_gl_pow_succ(KAPPA as nat, 11);
    assert(gl_pow(KAPPA as nat, 12) == 15099809066790865939nat);
    lemma_gl_pow_succ(KAPPA as nat, 12);
    assert(gl_pow(KAPPA as nat, 13) == 17214954929431464349nat);
    lemma_gl_pow_succ(KAPPA as nat, 13);
    assert(gl_pow(KAPPA as nat, 14) == 11016800570561344835nat);
    lemma_gl_pow_succ(KAPPA as nat, 14);
    assert(gl_pow(KAPPA as nat, 15) == 11274872323250451096nat);
    lemma_gl_pow_succ(KAPPA as nat, 15);
    assert(gl_pow(KAPPA as nat, 16) == 6534114114080170934nat);
    lemma_gl_pow_succ(KAPPA as nat, 16);
    assert(gl_pow(KAPPA as nat, 17) == 13047390008333835222nat);
    lemma_gl_pow_succ(KAPPA as nat, 17);
    assert(gl_pow(KAPPA as nat, 18) == 11189528522318044176nat);
    lemma_gl_pow_succ(KAPPA as nat, 18);
    assert(gl_pow(KAPPA as nat, 19) == 3320735505586735876nat);
    lemma_gl_pow_succ(KAPPA as nat, 19);
    assert(gl_pow(KAPPA as nat, 20) == 7240278926970958133nat);
    lemma_gl_pow_succ(KAPPA as nat, 20);
    assert(gl_pow(KAPPA as nat, 21) == 8246665031048405574nat);
    lemma_gl_pow_succ(KAPPA as nat, 21);
    assert(gl_pow(KAPPA as nat, 22) == 12693612801792047873nat);
    lemma_gl_pow_succ(KAPPA as nat, 22);
    assert(gl_pow(KAPPA as nat, 23) == 9404062091095256088nat);
    lemma_gl_pow_succ(KAPPA as nat, 23);
    assert(gl_pow(KAPPA as nat, 24) == 14878451024585790464nat);
    lemma_gl_pow_succ(KAPPA as nat, 24);
    assert(gl_pow(KAPPA as nat, 25) == 11395689535312925715nat);
    lemma_gl_pow_succ(KAPPA as nat, 25);
    assert(gl_pow(KAPPA as nat, 26) == 5975151027177897326nat);
    lemma_gl_pow_succ(KAPPA as nat, 26);
    assert(gl_pow(KAPPA as nat, 27) == 3914263340919964335nat);
    lemma_gl_pow_succ(KAPPA as nat, 27);
    assert(gl_pow(KAPPA as nat, 28) == 7939331167302551519nat);
    lemma_gl_pow_succ(KAPPA as nat, 28);
    assert(gl_pow(KAPPA as nat, 29) == 6372337341823991747nat);
    lemma_gl_pow_succ(KAPPA as nat, 29);
    assert(gl_pow(KAPPA as nat, 30) == 12069298394184580155nat);
    lemma_gl_pow_succ(KAPPA as nat, 30);
    assert(gl_pow(KAPPA as nat, 31) == 4304519570518954644nat);
    lemma_gl_pow_succ(KAPPA as nat, 31);
    assert(gl_pow(KAPPA as nat, 32) == 12241777603010464820nat);
}

/// Every coset multiplier has an inverse.
pub proof fn lemma_coset_shift_unit(j: nat)
    ensures
        gl_mul(coset_shift(j), gl_pow(9127779584614301956nat, j)) == 1,
{
    assert(gl_mul(KAPPA as nat, 9127779584614301956nat) == 1);
    lemma_gl_pow_distributes(KAPPA as nat, 9127779584614301956nat, j);
    lemma_gl_pow_of_one(j);
}

/// Every element of the subgroup of order `2^k` has an inverse.
pub proof fn lemma_subgroup_unit(k: nat, i: nat)
    requires
        k <= 32,
        i < pow2(k),
    ensures
        gl_mul(
            gl_pow(root_of_unity(k), i),
            gl_pow(root_of_unity(k), (pow2(k) - i) as nat),
        ) == 1,
{
    lemma_root_values();
    lemma_gl_pow_adds(root_of_unity(k), i, (pow2(k) - i) as nat);
    lemma_root_power_of_two(k, k);
}

proof fn lemma_rows_equal(k: nat, i1: nat, i2: nat)
    requires
        k <= 32,
        i1 <= i2 < pow2(k),
        gl_pow(root_of_unity(k), i1) == gl_pow(root_of_unity(k), i2),
    ensures
        i1 == i2,
{
    let w = root_of_unity(k);
    let rest = (i2 - i1) as nat;
    let a = gl_pow(w, i1);
    lemma_gl_pow_adds(w, i1, rest);
    lemma_gl_pow_bound(w, i1);
    lemma_gl_pow_bound(w, rest);
    lemma_gl_mul_one(a);
    lemma_subgroup_unit(k, i1);
    lemma_gl_cancel(a, gl_pow(w, (pow2(k) - i1) as nat), 1, gl_pow(w, rest));
    if rest > 0 {
        lemma_root_primitive(k, rest);
    }
}

proof fn lemma_cosets_equal(k: nat, j1: nat, i1: nat, j2: nat, i2: nat)
    requires
        k <= 32,
        j1 <= j2 <= 32,
        coset_value(k, j1, i1) == coset_value(k, j2, i2),
    ensures
        j1 == j2,
{
    let w = root_of_unity(k);
    let kappa = KAPPA as nat;
    let t = pow2(32);
    let d = (j2 - j1) as nat;
    let a = coset_shift(j1);
    let b1 = gl_pow(w, i1);
    let b2 = gl_pow(w, i2);
    let kd = gl_pow(kappa, d);
    lemma_gl_pow_adds(kappa, j1, d);
    lemma_gl_mul_associative(a, kd, b2);
    lemma_coset_shift_unit(j1);
    lemma_gl_cancel(a, gl_pow(9127779584614301956nat, j1), b1, gl_mul(kd, b2));
    lemma_subgroup_order(k, i1);
    lemma_subgroup_order(k, i2);
    lemma_gl_pow_distributes(kd, b2, t);
    lemma_gl_pow_bound(kd, t);
    lemma_gl_mul_one(gl_pow(kd, t));
    lemma_gl_pow_multiplies(kappa, d, t);
    lemma_gl_pow_multiplies(kappa, t, d);
    lemma_mul_is_commutative(d as int, t as int);
    lemma_kappa_order();
    assert(gl_pow(kappa, d) == 1);
    if d > 0 {
        lemma_kappa_powers(d);
    }
}

/// The elements of the first thirty-three cosets of a subgroup of two-power
/// order are pairwise distinct.
pub proof fn lemma_coset_values_distinct(k: nat, j1: nat, i1: nat, j2: nat, i2: nat)
    requires
        k <= 32,
        j1 < MAX_COSETS,
        j2 < MAX_COSETS,
        i1 < pow2(k),
        i2 < pow2(k),
        coset_value(k, j1, i1) == coset_value(k, j2, i2),
    ensures
        j1 == j2,
        i1 == i2,
{
    let w = root_of_unity(k);
    if j1 <= j2 {
        lemma_cosets_equal(k, j1, i1, j2, i2);
    } else {
        lemma_cosets_equal(k, j2, i2, j1, i1);
    }
    lemma_coset_shift_unit(j1);
    lemma_gl_pow_bound(w, i1);
    lemma_gl_pow_bound(w, i2);
    lemma_gl_cancel(coset_shift(j1), gl_pow(9127779584614301956nat, j1), gl_pow(w, i1), gl_pow(w, i2));
    if i1 <= i2 {
        lemma_rows_equal(k, i1, i2);
    } else {
        lemma_rows_equal(k, i2, i1);
    }
}

/// The roots of unity of the orders `2^0` to `2^32`, by their `log2`.
pub fn get_roots() -> (roots: Vec<Fgl>)
    ensures
        roots.len() == 33,
        forall|k: int| 0 <= k <= 32 ==> (#[trigger] roots[k])@ == root_of_unity(k as nat),
{
    let mut roots: Vec<Fgl> = Vec::with_capacity(33);
    let mut filled: usize = 0;
    while filled < 33
        invariant
            filled <= 33,
            roots.len() == filled,
        decreases 33 - filled,
    {
        roots.push(Fgl::zero());
        filled = filled + 1;
    }
    roots.set(32, Fgl::from_u64(ROOT_32));
    let mut i: usize = 32;
    while i > 0
        invariant
            i <= 32,
            roots.len() == 33,
            forall|k: int| i <= k <= 32 ==> (#[trigger] roots[k])@ == root_of_unity(k as nat),
        decreases i,
    {
        let above = roots[i];
        roots.set(i - 1, above.mul(above));
        i = i - 1;
    }
    roots
}

/// The multipliers of the first `n` cosets: `1, KAPPA, KAPPA^2, ...`.
pub fn get_ks(n: usize) -> (ks: Vec<Fgl>)
    ensures
        ks.len() == n,
        forall|j: int| 0 <= j < n ==> (#[trigger] ks[j])@ == coset_shift(j as nat),
{
    let kappa = Fgl::from_u64(KAPPA);
    let mut ks: Vec<Fgl> = Vec::with_capacity(n);
    let mut current = Fgl::one();
    proof {
        lemma_gl_pow_zero(KAPPA as nat);
    }
    let mut j: usize = 0;
    while j < n
        invariant
            j <= n,
            ks.len() == j,
            kappa@ == KAPPA,
            current@ == coset_shift(j as nat),
            forall|t: int| 0 <= t < j ==> (#[trigger] ks[t])@ == coset_shift(t as nat),
        decreases n - j,
    {
        ks.push(current);
        proof {
            lemma_gl_pow_succ(KAPPA as nat, j as nat);
        }
        current = current.mul(kappa);
        j = j + 1;
    }
    ks
}

/// Whether `n` is a size that a domain can have: a power of two of at most
/// `2^32`.
pub open spec fn is_domain_size(n: nat) -> bool {
    exists|k: nat| k <= MAX_LOG_SIZE && n == pow2(k)
}

/// The `log2` of `n`, where `n` is a size that a domain can have.
pub fn log2_exact(n: usize) -> (r: Option<u32>)
    ensures
        match r {
            Some(k) => k <= MAX_LOG_SIZE && n as nat == pow2(k as nat),
            None => !is_domain_size(n as nat),
        },
{
    let mut size: u64 = 1;
    let mut k: u32 = 0;
    proof {
        lemma2_to64();
    }
    while size < n as u64 && k < 32
        invariant
            k <= 32,
            size == pow2(k as nat),
            size <= 0x1_0000_0000,
            k > 0 ==> pow2((k - 1) as nat) < n,
        decreases 32 - k,
    {
        proof {
            lemma2_to64();
            lemma_pow2_unfold((k + 1) as nat);
            if k + 1 < 32 {
                lemma_pow2_strictly_increases((k + 1) as nat, 32);
            }
        }
        size = size * 2;
        k = k + 1;
    }
    if size == n as u64 {
        Some(k)
    } else {
        proof {
            lemma2_to64();
            assert forall|t: nat| t <= MAX_LOG_SIZE implies n as nat != pow2(t) by {
                lemma_pow2_pos(t);
                if t < k {
                    if t + 1 < k {
                        lemma_pow2_strictly_increases(t, (k - 1) as nat);
                    }
                } else if t > k {
                    lemma_pow2_strictly_increases(k as nat, t);
                }
            }
        }
        None
    }
}

} // verus!
