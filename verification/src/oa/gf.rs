//! Finite field arithmetic for GF(p^k) where p prime, k ≥ 1.
//!
//! For k=1 this is just modular arithmetic. For k≥2 elements are polynomials of
//! degree < k over GF(p), encoded base-p (element index i has polynomial
//! coefficients i_0 + i_1·p + …). Multiplication reduces modulo a hardcoded
//! irreducible polynomial.
use vstd::arithmetic::power::pow;
use vstd::arithmetic::div_mod::lemma_small_mod;
use vstd::prelude::*;
use vstd::set_lib::{lemma_int_range, lemma_map_size, lemma_subset_equality, set_int_range};

use super::digits::{all_digits, digits, digits_of, lemma_digits, lemma_number, number, number_of};
use super::modular::{lemma_partial_product_range, lemma_product_exchange, lemma_product_one, lemma_product_step, lemma_product_vadd, lemma_product_zeros, lemma_vadd_associates, lemma_vadd_commutes, lemma_vadd_range, lemma_vadd_vneg, lemma_vadd_zeros, lemma_zeros, one, opposite, partial_product, vadd, vneg, zeros};

verus! {

/// For each supported field size: the prime, the degree and the coefficients,
/// constant term first, of the monic irreducible polynomial (without its
/// leading one).
pub open spec fn prime_power(q: int) -> Option<(int, nat, Seq<int>)> {
    if q == 2 || q == 3 || q == 5 || q == 7 || q == 11 || q == 13 || q == 17 || q == 19 || q == 23 {
        Some((q, 1, Seq::empty()))
    } else if q == 4 {
        Some((2, 2, seq![1, 1]))
    } else if q == 8 {
        Some((2, 3, seq![1, 1, 0]))
    } else if q == 16 {
        Some((2, 4, seq![1, 1, 0, 0]))
    } else if q == 32 {
        Some((2, 5, seq![1, 0, 1, 0, 0]))
    } else if q == 9 {
        Some((3, 2, seq![1, 0]))
    } else if q == 27 {
        Some((3, 3, seq![1, 2, 0]))
    } else if q == 25 {
        Some((5, 2, seq![2, 0]))
    } else if q == 49 {
        Some((7, 2, seq![1, 0]))
    } else {
        None
    }
}

/// `q` is the size of a supported field.
pub open spec fn supported(q: int) -> bool {
    prime_power(q) is Some
}

/// Characteristic of the field of size `q`.
pub open spec fn characteristic(q: int) -> int {
    match prime_power(q) {
        Some((p, _, _)) => p,
        None => 0,
    }
}

/// Degree of the field of size `q` over its prime field.
pub open spec fn degree(q: int) -> nat {
    match prime_power(q) {
        Some((_, k, _)) => k,
        None => 0,
    }
}

/// Coefficients of the polynomial that the field of size `q` reduces by.
pub open spec fn reduction(q: int) -> Seq<int> {
    match prime_power(q) {
        Some((_, _, low)) => low,
        None => Seq::empty(),
    }
}

/// The coefficients of a field element.
pub open spec fn poly(q: int, a: int) -> Seq<int> {
    digits(a, characteristic(q), degree(q))
}

/// Sum of two elements of the field of size `q`.
pub open spec fn sum(q: int, a: int, b: int) -> int {
    number(vadd(characteristic(q), poly(q, a), poly(q, b)), characteristic(q))
}

/// The element that adds up with `a` to zero.
pub open spec fn negation(q: int, a: int) -> int {
    number(vneg(characteristic(q), poly(q, a)), characteristic(q))
}

/// Product of two elements of the field of size `q`.
pub open spec fn product(q: int, a: int, b: int) -> int {
    number(
        partial_product(characteristic(q), reduction(q), poly(q, a), poly(q, b), 0),
        characteristic(q),
    )
}

/// `a` is an element of the field of size `q`.
pub open spec fn element(q: int, a: int) -> bool {
    0 <= a < q
}

pub proof fn lemma_field_shape(q: int)
    requires
        supported(q),
    ensures
        characteristic(q) >= 2,
        degree(q) >= 1,
        pow(characteristic(q), degree(q)) == q,
        2 <= q <= 49,
        degree(q) > 1 ==> reduction(q).len() == degree(q),
        forall|i: int| 0 <= i < reduction(q).len() ==> 0 <= #[trigger] reduction(q)[i] < 3,
{
    reveal_with_fuel(pow, 6);
    assert(pow(2, 2) == 4 && pow(2, 3) == 8 && pow(2, 4) == 16 && pow(2, 5) == 32);
    assert(pow(3, 2) == 9 && pow(3, 3) == 27);
    assert(pow(5, 2) == 25 && pow(7, 2) == 49);
    vstd::arithmetic::power::lemma_pow1(characteristic(q));
}

/// An element is the number of its coefficients.
pub proof fn lemma_poly(q: int, a: int)
    requires
        supported(q),
        element(q, a),
    ensures
        poly(q, a).len() == degree(q),
        all_digits(poly(q, a), characteristic(q)),
        number(poly(q, a), characteristic(q)) == a,
{
    lemma_field_shape(q);
    lemma_digits(a, characteristic(q), degree(q));
}

/// Every vector of coefficients is that of its number.
pub proof fn lemma_from_poly(q: int, c: Seq<int>)
    requires
        supported(q),
        c.len() == degree(q),
        all_digits(c, characteristic(q)),
    ensures
        element(q, number(c, characteristic(q))),
        poly(q, number(c, characteristic(q))) == c,
{
    lemma_field_shape(q);
    lemma_number(c, characteristic(q));
}

/// Coefficients of a sum.
proof fn lemma_sum_poly(q: int, a: int, b: int)
    requires
        supported(q),
        element(q, a),
        element(q, b),
    ensures
        element(q, sum(q, a, b)),
        poly(q, sum(q, a, b)) == vadd(characteristic(q), poly(q, a), poly(q, b)),
{
    lemma_field_shape(q);
    lemma_poly(q, a);
    lemma_poly(q, b);
    lemma_vadd_range(characteristic(q), poly(q, a), poly(q, b));
    lemma_from_poly(q, vadd(characteristic(q), poly(q, a), poly(q, b)));
}

/// Coefficients of a product.
proof fn lemma_product_poly(q: int, a: int, b: int)
    requires
        supported(q),
        element(q, a),
        element(q, b),
    ensures
        element(q, product(q, a, b)),
        poly(q, product(q, a, b)) == partial_product(
            characteristic(q),
            reduction(q),
            poly(q, a),
            poly(q, b),
            0,
        ),
{
    lemma_field_shape(q);
    lemma_poly(q, a);
    lemma_poly(q, b);
    let c = partial_product(characteristic(q), reduction(q), poly(q, a), poly(q, b), 0);
    lemma_partial_product_range(characteristic(q), reduction(q), poly(q, a), poly(q, b), 0);
    lemma_from_poly(q, c);
}

/// Elements with the same coefficients are the same.
proof fn lemma_poly_injective(q: int, a: int, b: int)
    requires
        supported(q),
        element(q, a),
        element(q, b),
        poly(q, a) == poly(q, b),
    ensures
        a == b,
{
    lemma_poly(q, a);
    lemma_poly(q, b);
}

proof fn lemma_zero_poly(q: int)
    requires
        supported(q),
    ensures
        poly(q, 0) == zeros(degree(q)),
        poly(q, 1) == one(degree(q)),
        element(q, 0),
        element(q, 1),
{
    lemma_field_shape(q);
    let p = characteristic(q);
    lemma_zeros_number(p, degree(q));
    lemma_zeros(p, degree(q));
    lemma_from_poly(q, zeros(degree(q)));
    let u = one(degree(q));
    assert(u.drop_first() =~= zeros((degree(q) - 1) as nat));
    lemma_zeros_number(p, (degree(q) - 1) as nat);
    assert(p * 0 == 0) by (nonlinear_arith);
    assert(number(u, p) == 1);
    lemma_from_poly(q, u);
}

proof fn lemma_zeros_number(p: int, k: nat)
    ensures
        number(zeros(k), p) == 0,
    decreases k,
{
    if k > 0 {
        assert(zeros(k).drop_first() =~= zeros((k - 1) as nat));
        lemma_zeros_number(p, (k - 1) as nat);
        assert(p * 0 == 0) by (nonlinear_arith);
    }
}

/// Addition is a commutative group operation with neutral element zero.
pub proof fn field_addition(q: int, a: int, b: int, c: int)
    requires
        supported(q),
        element(q, a),
        element(q, b),
        element(q, c),
    ensures
        element(q, sum(q, a, b)),
        sum(q, a, b) == sum(q, b, a),
        sum(q, sum(q, a, b), c) == sum(q, a, sum(q, b, c)),
        sum(q, a, 0) == a,
        element(q, negation(q, a)),
        sum(q, a, negation(q, a)) == 0,
{
    let p = characteristic(q);
    lemma_field_shape(q);
    lemma_poly(q, a);
    lemma_poly(q, b);
    lemma_poly(q, c);
    lemma_sum_poly(q, a, b);
    lemma_sum_poly(q, b, a);
    lemma_sum_poly(q, b, c);
    lemma_sum_poly(q, sum(q, a, b), c);
    lemma_sum_poly(q, a, sum(q, b, c));
    lemma_vadd_commutes(p, poly(q, a), poly(q, b));
    lemma_vadd_associates(p, poly(q, a), poly(q, b), poly(q, c));
    lemma_zero_poly(q);
    lemma_vadd_zeros(p, poly(q, a));
    lemma_vadd_vneg(p, poly(q, a));
    lemma_from_poly(q, vneg(p, poly(q, a)));
    lemma_zeros_number(p, degree(q));
}

/// Multiplication commutes, associates, distributes over addition and has the
/// neutral element one.
pub proof fn field_multiplication(q: int, a: int, b: int, c: int)
    requires
        supported(q),
        element(q, a),
        element(q, b),
        element(q, c),
    ensures
        element(q, product(q, a, b)),
        product(q, a, b) == product(q, b, a),
        product(q, product(q, a, b), c) == product(q, a, product(q, b, c)),
        product(q, a, sum(q, b, c)) == sum(q, product(q, a, b), product(q, a, c)),
        product(q, a, 1) == a,
        product(q, a, 0) == 0,
{
    lemma_field_shape(q);
    lemma_poly(q, a);
    lemma_product_commutes(q, a, b);
    lemma_product_commutes(q, b, c);
    lemma_product_poly(q, a, b);
    lemma_product_poly(q, b, c);
    lemma_product_poly(q, c, b);
    let ab = product(q, a, b);
    let bc = product(q, b, c);
    lemma_product_commutes(q, ab, c);
    let p = characteristic(q);
    let low = reduction(q);
    // c·(a·b) = a·(c·b) = a·(b·c)
    lemma_poly(q, b);
    lemma_poly(q, c);
    lemma_product_exchange(p, low, poly(q, c), poly(q, a), poly(q, b), 0);
    lemma_product_poly(q, c, ab);
    lemma_product_poly(q, a, bc);
    lemma_poly_injective(q, product(q, c, ab), product(q, a, bc));
    lemma_sum_poly(q, b, c);
    lemma_product_poly(q, a, sum(q, b, c));
    lemma_product_poly(q, a, c);
    lemma_sum_poly(q, ab, product(q, a, c));
    lemma_product_vadd(p, low, poly(q, a), poly(q, b), poly(q, c), 0);
    lemma_poly_injective(q, product(q, a, sum(q, b, c)), sum(q, ab, product(q, a, c)));
    lemma_zero_poly(q);
    lemma_product_poly(q, a, 1);
    lemma_product_one(p, low, poly(q, a), 0);
    assert(partial_product(p, low, poly(q, a), one(degree(q)), 0) =~= poly(q, a));
    lemma_product_poly(q, a, 0);
    lemma_product_zeros(p, low, poly(q, a), degree(q), 0);
    lemma_poly_injective(q, product(q, a, 0), 0);
    lemma_poly_injective(q, product(q, a, 1), a);
}

proof fn lemma_product_commutes(q: int, a: int, b: int)
    requires
        supported(q),
        element(q, a),
        element(q, b),
    ensures
        product(q, a, b) == product(q, b, a),
{
    lemma_field_shape(q);
    let p = characteristic(q);
    let low = reduction(q);
    let (pa, pb) = (poly(q, a), poly(q, b));
    let u = one(degree(q));
    lemma_poly(q, a);
    lemma_poly(q, b);
    lemma_product_one(p, low, pa, 0);
    lemma_product_one(p, low, pb, 0);
    assert(partial_product(p, low, pa, u, 0) =~= pa);
    assert(partial_product(p, low, pb, u, 0) =~= pb);
    lemma_product_exchange(p, low, pa, pb, u, 0);
}

/// One coefficient of a step of the product, on machine numbers.
spec fn coefficient(p: u8, s: u8, b: u8, below: u8, n: u8, top: u8) -> u8 {
    ((s * b + below + n * top) as u8) % p
}

/// The coefficient of x^j after the step for x^i of the product of `a` and `b`.
spec fn stage(q: int, a: int, b: int, i: int, j: int) -> u8 {
    partial_product(characteristic(q), reduction(q), poly(q, a), poly(q, b), i as nat)[j] as u8
}

/// Coefficient of an element, as a machine number.
spec fn coef(q: int, a: int, i: int) -> u8 {
    poly(q, a)[i] as u8
}

proof fn lemma_stage(q: int, a: int, b: int, i: int, j: int)
    requires
        supported(q),
        element(q, a),
        element(q, b),
        0 <= i < degree(q),
        0 <= j < degree(q),
        degree(q) > 1,
    ensures
        coef(q, a, i) < characteristic(q),
        coef(q, b, j) < characteristic(q),
        stage(q, a, b, i, j) == coefficient(
            characteristic(q) as u8,
            coef(q, a, i),
            coef(q, b, j),
            if j == 0 {
                0
            } else {
                stage(q, a, b, i + 1, j - 1)
            },
            opposite(characteristic(q), reduction(q), j) as u8,
            stage(q, a, b, i + 1, degree(q) - 1),
        ),
        i + 1 == degree(q) ==> stage(q, a, b, i + 1, j) == 0,
{
    let p = characteristic(q);
    let low = reduction(q);
    let (u, v) = (poly(q, a), poly(q, b));
    lemma_field_shape(q);
    assert(p <= 7);
    lemma_poly(q, a);
    lemma_poly(q, b);
    lemma_partial_product_range(p, low, u, v, i as nat);
    lemma_partial_product_range(p, low, u, v, (i + 1) as nat);
    lemma_product_step(p, low, u, v, i as nat, j);
    let h = partial_product(p, low, u, v, (i + 1) as nat);
    let n = opposite(p, low, j);
    vstd::arithmetic::div_mod::lemma_mod_bound(p - low[j] % p, p);
    let x = u[i] * v[j];
    let z = h[degree(q) - 1] * n;
    assert(0 <= x <= 36) by (nonlinear_arith)
        requires
            x == u[i] * v[j],
            0 <= u[i] <= 6,
            0 <= v[j] <= 6,
    ;
    assert(0 <= z <= 36) by (nonlinear_arith)
        requires
            z == h[degree(q) - 1] * n,
            0 <= h[degree(q) - 1] <= 6,
            0 <= n <= 6,
    ;
    assert(z == n * h[degree(q) - 1]) by (nonlinear_arith)
        requires
            z == h[degree(q) - 1] * n,
    ;
}

/// An element with only zero coefficients is zero.
proof fn lemma_nonzero(q: int, a: int)
    requires
        supported(q),
        element(q, a),
        a != 0,
    ensures
        exists|i: int| 0 <= i < degree(q) && #[trigger] poly(q, a)[i] != 0,
{
    lemma_poly(q, a);
    lemma_zero_poly(q);
    if forall|i: int| 0 <= i < degree(q) ==> #[trigger] poly(q, a)[i] == 0 {
        assert(poly(q, a) =~= zeros(degree(q)));
        lemma_poly_injective(q, a, 0);
    }
}

/// Coefficients in GF(4): a product with no coefficient left has a factor
/// without one.
proof fn lemma_coefficients_4(
    a0: u8, a1: u8, b0: u8, b1: u8, h10: u8, h11: u8,
)
    by (bit_vector)
    requires
        a0 < 2,
        b0 < 2,
        a1 < 2,
        b1 < 2,
        h10 == coefficient(2, a1, b0, 0, 1, 0),
        h11 == coefficient(2, a1, b1, 0, 1, 0),
        coefficient(2, a0, b0, 0, 1, h11) == 0,
        coefficient(2, a0, b1, h10, 1, h11) == 0,
    ensures
        (a0 == 0 && a1 == 0) || (b0 == 0 && b1 == 0),
{
}

proof fn lemma_no_zero_divisors_4(a: int, b: int)
    requires
        element(4, a),
        element(4, b),
        product(4, a, b) == 0,
    ensures
        a == 0 || b == 0,
{
    lemma_product_poly(4, a, b);
    lemma_zero_poly(4);
    lemma_poly(4, a);
    lemma_poly(4, b);
    assert forall|i: int, j: int| 0 <= i < 2 && 0 <= j < 2 implies #[trigger] stage(4, a, b, i, j)
        == coefficient(
        2,
        coef(4, a, i),
        coef(4, b, j),
        if j == 0 {
            0
        } else {
            stage(4, a, b, i + 1, j - 1)
        },
        opposite(2, reduction(4), j) as u8,
        stage(4, a, b, i + 1, 1),
    ) && coef(4, a, i) < 2 && coef(4, b, j) < 2 && (i == 1 ==> stage(4, a, b, i + 1, j) == 0) by {
        lemma_stage(4, a, b, i, j);
    }
    assert(opposite(2, reduction(4), 0) == 1 && opposite(2, reduction(4), 1) == 1);
    let h10 = stage(4, a, b, 1, 0);
    let h11 = stage(4, a, b, 1, 1);
    let h00 = stage(4, a, b, 0, 0);
    let h01 = stage(4, a, b, 0, 1);
    lemma_coefficients_4(
        coef(4, a, 0), coef(4, a, 1), coef(4, b, 0), coef(4, b, 1), h10, h11,
    );
    if a != 0 {
        lemma_nonzero(4, a);
    }
    if b != 0 {
        lemma_nonzero(4, b);
    }
}

/// Coefficients in GF(8): a product with no coefficient left has a factor
/// without one.
proof fn lemma_coefficients_8(
    a0: u8, a1: u8, a2: u8, b0: u8, b1: u8, b2: u8, h20: u8, h21: u8, h22: u8, h10: u8,
    h11: u8, h12: u8,
)
    by (bit_vector)
    requires
        a0 < 2,
        b0 < 2,
        a1 < 2,
        b1 < 2,
        a2 < 2,
        b2 < 2,
        h20 == coefficient(2, a2, b0, 0, 1, 0),
        h21 == coefficient(2, a2, b1, 0, 1, 0),
        h22 == coefficient(2, a2, b2, 0, 0, 0),
        h10 == coefficient(2, a1, b0, 0, 1, h22),
        h11 == coefficient(2, a1, b1, h20, 1, h22),
        h12 == coefficient(2, a1, b2, h21, 0, h22),
        coefficient(2, a0, b0, 0, 1, h12) == 0,
        coefficient(2, a0, b1, h10, 1, h12) == 0,
        coefficient(2, a0, b2, h11, 0, h12) == 0,
    ensures
        (a0 == 0 && a1 == 0 && a2 == 0) || (b0 == 0 && b1 == 0 && b2 == 0),
{
}

proof fn lemma_no_zero_divisors_8(a: int, b: int)
    requires
        element(8, a),
        element(8, b),
        product(8, a, b) == 0,
    ensures
        a == 0 || b == 0,
{
    lemma_product_poly(8, a, b);
    lemma_zero_poly(8);
    lemma_poly(8, a);
    lemma_poly(8, b);
    assert forall|i: int, j: int| 0 <= i < 3 && 0 <= j < 3 implies #[trigger] stage(8, a, b, i, j)
        == coefficient(
        2,
        coef(8, a, i),
        coef(8, b, j),
        if j == 0 {
            0
        } else {
            stage(8, a, b, i + 1, j - 1)
        },
        opposite(2, reduction(8), j) as u8,
        stage(8, a, b, i + 1, 2),
    ) && coef(8, a, i) < 2 && coef(8, b, j) < 2 && (i == 2 ==> stage(8, a, b, i + 1, j) == 0) by {
        lemma_stage(8, a, b, i, j);
    }
    assert(opposite(2, reduction(8), 0) == 1 && opposite(2, reduction(8), 1) == 1 && opposite(2, reduction(8), 2) == 0);
    let h20 = stage(8, a, b, 2, 0);
    let h21 = stage(8, a, b, 2, 1);
    let h22 = stage(8, a, b, 2, 2);
    let h10 = stage(8, a, b, 1, 0);
    let h11 = stage(8, a, b, 1, 1);
    let h12 = stage(8, a, b, 1, 2);
    let h00 = stage(8, a, b, 0, 0);
    let h01 = stage(8, a, b, 0, 1);
    let h02 = stage(8, a, b, 0, 2);
    lemma_coefficients_8(
        coef(8, a, 0), coef(8, a, 1), coef(8, a, 2), coef(8, b, 0), coef(8, b, 1),
        coef(8, b, 2), h20, h21, h22, h10, h11, h12,
    );
    if a != 0 {
        lemma_nonzero(8, a);
    }
    if b != 0 {
        lemma_nonzero(8, b);
    }
}

/// Coefficients in GF(16): a product with no coefficient left has a factor
/// without one.
proof fn lemma_coefficients_16(
    a0: u8, a1: u8, a2: u8, a3: u8, b0: u8, b1: u8, b2: u8, b3: u8, h30: u8, h31: u8, h32: u8,
    h33: u8, h20: u8, h21: u8, h22: u8, h23: u8, h10: u8, h11: u8, h12: u8, h13: u8,
)
    by (bit_vector)
    requires
        a0 < 2,
        b0 < 2,
        a1 < 2,
        b1 < 2,
        a2 < 2,
        b2 < 2,
        a3 < 2,
        b3 < 2,
        h30 == coefficient(2, a3, b0, 0, 1, 0),
        h31 == coefficient(2, a3, b1, 0, 1, 0),
        h32 == coefficient(2, a3, b2, 0, 0, 0),
        h33 == coefficient(2, a3, b3, 0, 0, 0),
        h20 == coefficient(2, a2, b0, 0, 1, h33),
        h21 == coefficient(2, a2, b1, h30, 1, h33),
        h22 == coefficient(2, a2, b2, h31, 0, h33),
        h23 == coefficient(2, a2, b3, h32, 0, h33),
        h10 == coefficient(2, a1, b0, 0, 1, h23),
        h11 == coefficient(2, a1, b1, h20, 1, h23),
        h12 == coefficient(2, a1, b2, h21, 0, h23),
        h13 == coefficient(2, a1, b3, h22, 0, h23),
        coefficient(2, a0, b0, 0, 1, h13) == 0,
        coefficient(2, a0, b1, h10, 1, h13) == 0,
        coefficient(2, a0, b2, h11, 0, h13) == 0,
        coefficient(2, a0, b3, h12, 0, h13) == 0,
    ensures
        (a0 == 0 && a1 == 0 && a2 == 0 && a3 == 0) || (b0 == 0 && b1 == 0 && b2 == 0 && b3 == 0),
{
}

proof fn lemma_no_zero_divisors_16(a: int, b: int)
    requires
        element(16, a),
        element(16, b),
        product(16, a, b) == 0,
    ensures
        a == 0 || b == 0,
{
    lemma_product_poly(16, a, b);
    lemma_zero_poly(16);
    lemma_poly(16, a);
    lemma_poly(16, b);
    assert forall|i: int, j: int| 0 <= i < 4 && 0 <= j < 4 implies #[trigger] stage(16, a, b, i, j)
        == coefficient(
        2,
        coef(16, a, i),
        coef(16, b, j),
        if j == 0 {
            0
        } else {
            stage(16, a, b, i + 1, j - 1)
        },
        opposite(2, reduction(16), j) as u8,
        stage(16, a, b, i + 1, 3),
    ) && coef(16, a, i) < 2 && coef(16, b, j) < 2 && (i == 3 ==> stage(16, a, b, i + 1, j) == 0) by {
        lemma_stage(16, a, b, i, j);
    }
    assert(opposite(2, reduction(16), 0) == 1 && opposite(2, reduction(16), 1) == 1 && opposite(2, reduction(16), 2) == 0 && opposite(2, reduction(16), 3) == 0);
    let h30 = stage(16, a, b, 3, 0);
    let h31 = stage(16, a, b, 3, 1);
    let h32 = stage(16, a, b, 3, 2);
    let h33 = stage(16, a, b, 3, 3);
    let h20 = stage(16, a, b, 2, 0);
    let h21 = stage(16, a, b, 2, 1);
    let h22 = stage(16, a, b, 2, 2);
    let h23 = stage(16, a, b, 2, 3);
    let h10 = stage(16, a, b, 1, 0);
    let h11 = stage(16, a, b, 1, 1);
    let h12 = stage(16, a, b, 1, 2);
    let h13 = stage(16, a, b, 1, 3);
    let h00 = stage(16, a, b, 0, 0);
    let h01 = stage(16, a, b, 0, 1);
    let h02 = stage(16, a, b, 0, 2);
    let h03 = stage(16, a, b, 0, 3);
    lemma_coefficients_16(
        coef(16, a, 0), coef(16, a, 1), coef(16, a, 2), coef(16, a, 3), coef(16, b, 0),
        coef(16, b, 1), coef(16, b, 2), coef(16, b, 3), h30, h31, h32, h33, h20, h21, h22, h23,
        h10, h11, h12, h13,
    );
    if a != 0 {
        lemma_nonzero(16, a);
    }
    if b != 0 {
        lemma_nonzero(16, b);
    }
}

/// Coefficients in GF(32): a product with no coefficient left has a factor
/// without one.
proof fn lemma_coefficients_32(
    a0: u8, a1: u8, a2: u8, a3: u8, a4: u8, b0: u8, b1: u8, b2: u8, b3: u8, b4: u8, h40: u8,
    h41: u8, h42: u8, h43: u8, h44: u8, h30: u8, h31: u8, h32: u8, h33: u8, h34: u8, h20: u8,
    h21: u8, h22: u8, h23: u8, h24: u8, h10: u8, h11: u8, h12: u8, h13: u8, h14: u8,
)
    by (bit_vector)
    requires
        a0 < 2,
        b0 < 2,
        a1 < 2,
        b1 < 2,
        a2 < 2,
        b2 < 2,
        a3 < 2,
        b3 < 2,
        a4 < 2,
        b4 < 2,
        h40 == coefficient(2, a4, b0, 0, 1, 0),
        h41 == coefficient(2, a4, b1, 0, 0, 0),
        h42 == coefficient(2, a4, b2, 0, 1, 0),
        h43 == coefficient(2, a4, b3, 0, 0, 0),
        h44 == coefficient(2, a4, b4, 0, 0, 0),
        h30 == coefficient(2, a3, b0, 0, 1, h44),
        h31 == coefficient(2, a3, b1, h40, 0, h44),
        h32 == coefficient(2, a3, b2, h41, 1, h44),
        h33 == coefficient(2, a3, b3, h42, 0, h44),
        h34 == coefficient(2, a3, b4, h43, 0, h44),
        h20 == coefficient(2, a2, b0, 0, 1, h34),
        h21 == coefficient(2, a2, b1, h30, 0, h34),
        h22 == coefficient(2, a2, b2, h31, 1, h34),
        h23 == coefficient(2, a2, b3, h32, 0, h34),
        h24 == coefficient(2, a2, b4, h33, 0, h34),
        h10 == coefficient(2, a1, b0, 0, 1, h24),
        h11 == coefficient(2, a1, b1, h20, 0, h24),
        h12 == coefficient(2, a1, b2, h21, 1, h24),
        h13 == coefficient(2, a1, b3, h22, 0, h24),
        h14 == coefficient(2, a1, b4, h23, 0, h24),
        coefficient(2, a0, b0, 0, 1, h14) == 0,
        coefficient(2, a0, b1, h10, 0, h14) == 0,
        coefficient(2, a0, b2, h11, 1, h14) == 0,
        coefficient(2, a0, b3, h12, 0, h14) == 0,
        coefficient(2, a0, b4, h13, 0, h14) == 0,
    ensures
        (a0 == 0 && a1 == 0 && a2 == 0 && a3 == 0 && a4 == 0) || (b0 == 0 && b1 == 0 && b2 == 0 && b3 == 0 && b4 == 0),
{
}

proof fn lemma_no_zero_divisors_32(a: int, b: int)
    requires
        element(32, a),
        element(32, b),
        product(32, a, b) == 0,
    ensures
        a == 0 || b == 0,
{
    lemma_product_poly(32, a, b);
    lemma_zero_poly(32);
    lemma_poly(32, a);
    lemma_poly(32, b);
    assert forall|i: int, j: int| 0 <= i < 5 && 0 <= j < 5 implies #[trigger] stage(32, a, b, i, j)
        == coefficient(
        2,
        coef(32, a, i),
        coef(32, b, j),
        if j == 0 {
            0
        } else {
            stage(32, a, b, i + 1, j - 1)
        },
        opposite(2, reduction(32), j) as u8,
        stage(32, a, b, i + 1, 4),
    ) && coef(32, a, i) < 2 && coef(32, b, j) < 2 && (i == 4 ==> stage(32, a, b, i + 1, j) == 0) by {
        lemma_stage(32, a, b, i, j);
    }
    assert(opposite(2, reduction(32), 0) == 1 && opposite(2, reduction(32), 1) == 0 && opposite(2, reduction(32), 2) == 1 && opposite(2, reduction(32), 3) == 0 && opposite(2, reduction(32), 4) == 0);
    let h40 = stage(32, a, b, 4, 0);
    let h41 = stage(32, a, b, 4, 1);
    let h42 = stage(32, a, b, 4, 2);
    let h43 = stage(32, a, b, 4, 3);
    let h44 = stage(32, a, b, 4, 4);
    let h30 = stage(32, a, b, 3, 0);
    let h31 = stage(32, a, b, 3, 1);
    let h32 = stage(32, a, b, 3, 2);
    let h33 = stage(32, a, b, 3, 3);
    let h34 = stage(32, a, b, 3, 4);
    let h20 = stage(32, a, b, 2, 0);
    let h21 = stage(32, a, b, 2, 1);
    let h22 = stage(32, a, b, 2, 2);
    let h23 = stage(32, a, b, 2, 3);
    let h24 = stage(32, a, b, 2, 4);
    let h10 = stage(32, a, b, 1, 0);
    let h11 = stage(32, a, b, 1, 1);
    let h12 = stage(32, a, b, 1, 2);
    let h13 = stage(32, a, b, 1, 3);
    let h14 = stage(32, a, b, 1, 4);
    let h00 = stage(32, a, b, 0, 0);
    let h01 = stage(32, a, b, 0, 1);
    let h02 = stage(32, a, b, 0, 2);
    let h03 = stage(32, a, b, 0, 3);
    let h04 = stage(32, a, b, 0, 4);
    lemma_coefficients_32(
        coef(32, a, 0), coef(32, a, 1), coef(32, a, 2), coef(32, a, 3), coef(32, a, 4),
        coef(32, b, 0), coef(32, b, 1), coef(32, b, 2), coef(32, b, 3), coef(32, b, 4), h40,
        h41, h42, h43, h44, h30, h31, h32, h33, h34, h20, h21, h22, h23, h24, h10, h11, h12,
        h13, h14,
    );
    if a != 0 {
        lemma_nonzero(32, a);
    }
    if b != 0 {
        lemma_nonzero(32, b);
    }
}

/// Coefficients in GF(9): a product with no coefficient left has a factor
/// without one.
proof fn lemma_coefficients_9(
    a0: u8, a1: u8, b0: u8, b1: u8, h10: u8, h11: u8,
)
    by (bit_vector)
    requires
        a0 < 3,
        b0 < 3,
        a1 < 3,
        b1 < 3,
        h10 == coefficient(3, a1, b0, 0, 2, 0),
        h11 == coefficient(3, a1, b1, 0, 0, 0),
        coefficient(3, a0, b0, 0, 2, h11) == 0,
        coefficient(3, a0, b1, h10, 0, h11) == 0,
    ensures
        (a0 == 0 && a1 == 0) || (b0 == 0 && b1 == 0),
{
}

proof fn lemma_no_zero_divisors_9(a: int, b: int)
    requires
        element(9, a),
        element(9, b),
        product(9, a, b) == 0,
    ensures
        a == 0 || b == 0,
{
    lemma_product_poly(9, a, b);
    lemma_zero_poly(9);
    lemma_poly(9, a);
    lemma_poly(9, b);
    assert forall|i: int, j: int| 0 <= i < 2 && 0 <= j < 2 implies #[trigger] stage(9, a, b, i, j)
        == coefficient(
        3,
        coef(9, a, i),
        coef(9, b, j),
        if j == 0 {
            0
        } else {
            stage(9, a, b, i + 1, j - 1)
        },
        opposite(3, reduction(9), j) as u8,
        stage(9, a, b, i + 1, 1),
    ) && coef(9, a, i) < 3 && coef(9, b, j) < 3 && (i == 1 ==> stage(9, a, b, i + 1, j) == 0) by {
        lemma_stage(9, a, b, i, j);
    }
    assert(opposite(3, reduction(9), 0) == 2 && opposite(3, reduction(9), 1) == 0);
    let h10 = stage(9, a, b, 1, 0);
    let h11 = stage(9, a, b, 1, 1);
    let h00 = stage(9, a, b, 0, 0);
    let h01 = stage(9, a, b, 0, 1);
    lemma_coefficients_9(
        coef(9, a, 0), coef(9, a, 1), coef(9, b, 0), coef(9, b, 1), h10, h11,
    );
    if a != 0 {
        lemma_nonzero(9, a);
    }
    if b != 0 {
        lemma_nonzero(9, b);
    }
}

/// Coefficients in GF(27): a product with no coefficient left has a factor
/// without one.
proof fn lemma_coefficients_27(
    a0: u8, a1: u8, a2: u8, b0: u8, b1: u8, b2: u8, h20: u8, h21: u8, h22: u8, h10: u8,
    h11: u8, h12: u8,
)
    by (bit_vector)
    requires
        a0 < 3,
        b0 < 3,
        a1 < 3,
        b1 < 3,
        a2 < 3,
        b2 < 3,
        h20 == coefficient(3, a2, b0, 0, 2, 0),
        h21 == coefficient(3, a2, b1, 0, 1, 0),
        h22 == coefficient(3, a2, b2, 0, 0, 0),
        h10 == coefficient(3, a1, b0, 0, 2, h22),
        h11 == coefficient(3, a1, b1, h20, 1, h22),
        h12 == coefficient(3, a1, b2, h21, 0, h22),
        coefficient(3, a0, b0, 0, 2, h12) == 0,
        coefficient(3, a0, b1, h10, 1, h12) == 0,
        coefficient(3, a0, b2, h11, 0, h12) == 0,
    ensures
        (a0 == 0 && a1 == 0 && a2 == 0) || (b0 == 0 && b1 == 0 && b2 == 0),
{
}

proof fn lemma_no_zero_divisors_27(a: int, b: int)
    requires
        element(27, a),
        element(27, b),
        product(27, a, b) == 0,
    ensures
        a == 0 || b == 0,
{
    lemma_product_poly(27, a, b);
    lemma_zero_poly(27);
    lemma_poly(27, a);
    lemma_poly(27, b);
    assert forall|i: int, j: int| 0 <= i < 3 && 0 <= j < 3 implies #[trigger] stage(27, a, b, i, j)
        == coefficient(
        3,
        coef(27, a, i),
        coef(27, b, j),
        if j == 0 {
            0
        } else {
            stage(27, a, b, i + 1, j - 1)
        },
        opposite(3, reduction(27), j) as u8,
        stage(27, a, b, i + 1, 2),
    ) && coef(27, a, i) < 3 && coef(27, b, j) < 3 && (i == 2 ==> stage(27, a, b, i + 1, j) == 0) by {
        lemma_stage(27, a, b, i, j);
    }
    assert(opposite(3, reduction(27), 0) == 2 && opposite(3, reduction(27), 1) == 1 && opposite(3, reduction(27), 2) == 0);
    let h20 = stage(27, a, b, 2, 0);
    let h21 = stage(27, a, b, 2, 1);
    let h22 = stage(27, a, b, 2, 2);
    let h10 = stage(27, a, b, 1, 0);
    let h11 = stage(27, a, b, 1, 1);
    let h12 = stage(27, a, b, 1, 2);
    let h00 = stage(27, a, b, 0, 0);
    let h01 = stage(27, a, b, 0, 1);
    let h02 = stage(27, a, b, 0, 2);
    lemma_coefficients_27(
        coef(27, a, 0), coef(27, a, 1), coef(27, a, 2), coef(27, b, 0), coef(27, b, 1),
        coef(27, b, 2), h20, h21, h22, h10, h11, h12,
    );
    if a != 0 {
        lemma_nonzero(27, a);
    }
    if b != 0 {
        lemma_nonzero(27, b);
    }
}

/// Coefficients in GF(25): a product with no coefficient left has a factor
/// without one.
proof fn lemma_coefficients_25(
    a0: u8, a1: u8, b0: u8, b1: u8, h10: u8, h11: u8,
)
    by (bit_vector)
    requires
        a0 < 5,
        b0 < 5,
        a1 < 5,
        b1 < 5,
        h10 == coefficient(5, a1, b0, 0, 3, 0),
        h11 == coefficient(5, a1, b1, 0, 0, 0),
        coefficient(5, a0, b0, 0, 3, h11) == 0,
        coefficient(5, a0, b1, h10, 0, h11) == 0,
    ensures
        (a0 == 0 && a1 == 0) || (b0 == 0 && b1 == 0),
{
}

proof fn lemma_no_zero_divisors_25(a: int, b: int)
    requires
        element(25, a),
        element(25, b),
        product(25, a, b) == 0,
    ensures
        a == 0 || b == 0,
{
    lemma_product_poly(25, a, b);
    lemma_zero_poly(25);
    lemma_poly(25, a);
    lemma_poly(25, b);
    assert forall|i: int, j: int| 0 <= i < 2 && 0 <= j < 2 implies #[trigger] stage(25, a, b, i, j)
        == coefficient(
        5,
        coef(25, a, i),
        coef(25, b, j),
        if j == 0 {
            0
        } else {
            stage(25, a, b, i + 1, j - 1)
        },
        opposite(5, reduction(25), j) as u8,
        stage(25, a, b, i + 1, 1),
    ) && coef(25, a, i) < 5 && coef(25, b, j) < 5 && (i == 1 ==> stage(25, a, b, i + 1, j) == 0) by {
        lemma_stage(25, a, b, i, j);
    }
    assert(opposite(5, reduction(25), 0) == 3 && opposite(5, reduction(25), 1) == 0);
    let h10 = stage(25, a, b, 1, 0);
    let h11 = stage(25, a, b, 1, 1);
    let h00 = stage(25, a, b, 0, 0);
    let h01 = stage(25, a, b, 0, 1);
    lemma_coefficients_25(
        coef(25, a, 0), coef(25, a, 1), coef(25, b, 0), coef(25, b, 1), h10, h11,
    );
    if a != 0 {
        lemma_nonzero(25, a);
    }
    if b != 0 {
        lemma_nonzero(25, b);
    }
}

/// Coefficients in GF(49): a product with no coefficient left has a factor
/// without one.
proof fn lemma_coefficients_49(
    a0: u8, a1: u8, b0: u8, b1: u8, h10: u8, h11: u8,
)
    by (bit_vector)
    requires
        a0 < 7,
        b0 < 7,
        a1 < 7,
        b1 < 7,
        h10 == coefficient(7, a1, b0, 0, 6, 0),
        h11 == coefficient(7, a1, b1, 0, 0, 0),
        coefficient(7, a0, b0, 0, 6, h11) == 0,
        coefficient(7, a0, b1, h10, 0, h11) == 0,
    ensures
        (a0 == 0 && a1 == 0) || (b0 == 0 && b1 == 0),
{
}

proof fn lemma_no_zero_divisors_49(a: int, b: int)
    requires
        element(49, a),
        element(49, b),
        product(49, a, b) == 0,
    ensures
        a == 0 || b == 0,
{
    lemma_product_poly(49, a, b);
    lemma_zero_poly(49);
    lemma_poly(49, a);
    lemma_poly(49, b);
    assert forall|i: int, j: int| 0 <= i < 2 && 0 <= j < 2 implies #[trigger] stage(49, a, b, i, j)
        == coefficient(
        7,
        coef(49, a, i),
        coef(49, b, j),
        if j == 0 {
            0
        } else {
            stage(49, a, b, i + 1, j - 1)
        },
        opposite(7, reduction(49), j) as u8,
        stage(49, a, b, i + 1, 1),
    ) && coef(49, a, i) < 7 && coef(49, b, j) < 7 && (i == 1 ==> stage(49, a, b, i + 1, j) == 0) by {
        lemma_stage(49, a, b, i, j);
    }
    assert(opposite(7, reduction(49), 0) == 6 && opposite(7, reduction(49), 1) == 0);
    let h10 = stage(49, a, b, 1, 0);
    let h11 = stage(49, a, b, 1, 1);
    let h00 = stage(49, a, b, 0, 0);
    let h01 = stage(49, a, b, 0, 1);
    lemma_coefficients_49(
        coef(49, a, 0), coef(49, a, 1), coef(49, b, 0), coef(49, b, 1), h10, h11,
    );
    if a != 0 {
        lemma_nonzero(49, a);
    }
    if b != 0 {
        lemma_nonzero(49, b);
    }
}

proof fn lemma_no_zero_divisors_prime(q: int, a: int, b: int)
    requires
        supported(q),
        degree(q) == 1,
        element(q, a),
        element(q, b),
        product(q, a, b) == 0,
    ensures
        a == 0 || b == 0,
{
    lemma_prime_arithmetic(q, a, b);
    let (x, y) = (a as u8, b as u8);
    assert((x * y) % q == 0);
    if q == 2 {
        assert(x == 0 || y == 0) by (bit_vector)
            requires
                x < 2,
                y < 2,
                (x * y) % 2 == 0,
        ;
    }
    if q == 3 {
        assert(x == 0 || y == 0) by (bit_vector)
            requires
                x < 3,
                y < 3,
                (x * y) % 3 == 0,
        ;
    }
    if q == 5 {
        assert(x == 0 || y == 0) by (bit_vector)
            requires
                x < 5,
                y < 5,
                (x * y) % 5 == 0,
        ;
    }
    if q == 7 {
        assert(x == 0 || y == 0) by (bit_vector)
            requires
                x < 7,
                y < 7,
                (x * y) % 7 == 0,
        ;
    }
    if q == 11 {
        assert(x == 0 || y == 0) by (bit_vector)
            requires
                x < 11,
                y < 11,
                (x * y) % 11 == 0,
        ;
    }
    if q == 13 {
        assert(x == 0 || y == 0) by (bit_vector)
            requires
                x < 13,
                y < 13,
                (x * y) % 13 == 0,
        ;
    }
    if q == 17 {
        assert(x == 0 || y == 0) by (bit_vector)
            requires
                x < 17,
                y < 17,
                (x * y) % 17 == 0,
        ;
    }
    if q == 19 {
        assert(x == 0 || y == 0) by (bit_vector)
            requires
                x < 19,
                y < 19,
                (x * y) % 19 == 0,
        ;
    }
    if q == 23 {
        assert(x == 0 || y == 0) by (bit_vector)
            requires
                x < 23,
                y < 23,
                (x * y) % 23 == 0,
        ;
    }
}

/// Without zero divisors: a product is zero only where a factor is.
pub proof fn field_no_zero_divisors(q: int, a: int, b: int)
    requires
        supported(q),
        element(q, a),
        element(q, b),
        product(q, a, b) == 0,
    ensures
        a == 0 || b == 0,
{
    if q == 4 {
        lemma_no_zero_divisors_4(a, b);
    } else if q == 8 {
        lemma_no_zero_divisors_8(a, b);
    } else if q == 16 {
        lemma_no_zero_divisors_16(a, b);
    } else if q == 32 {
        lemma_no_zero_divisors_32(a, b);
    } else if q == 9 {
        lemma_no_zero_divisors_9(a, b);
    } else if q == 27 {
        lemma_no_zero_divisors_27(a, b);
    } else if q == 25 {
        lemma_no_zero_divisors_25(a, b);
    } else if q == 49 {
        lemma_no_zero_divisors_49(a, b);
    } else {
        lemma_no_zero_divisors_prime(q, a, b);
    }
}

/// Sum and product in a prime field.
pub proof fn lemma_prime_arithmetic(q: int, a: int, b: int)
    requires
        supported(q),
        degree(q) == 1,
        element(q, a),
        element(q, b),
    ensures
        sum(q, a, b) == (a + b) % q,
        product(q, a, b) == (a * b) % q,
{
    reveal_with_fuel(digits, 2);
    reveal_with_fuel(number, 2);
    reveal_with_fuel(partial_product, 2);
    lemma_small_mod(a as nat, q as nat);
    lemma_small_mod(b as nat, q as nat);
    let (u, v) = (poly(q, a), poly(q, b));
    assert(u =~= seq![a] && v =~= seq![b]);
    lemma_product_step(q, reduction(q), u, v, 0, 0);
    let n = opposite(q, reduction(q), 0);
    assert(0 * n == 0) by (nonlinear_arith);
    lemma_partial_product_range(q, reduction(q), u, v, 0);
    assert(q * 0 == 0) by (nonlinear_arith);
}

/// Every element is a multiple of every element but zero.
pub proof fn field_division(q: int, a: int, w: int) -> (r: int)
    requires
        supported(q),
        element(q, a),
        a != 0,
        element(q, w),
    ensures
        element(q, r),
        product(q, a, r) == w,
{
    let dom = set_int_range(0, q);
    lemma_int_range(0, q);
    let f = |r: int| product(q, a, r);
    let img = dom.map(f);
    assert forall|x: int, y: int| dom.contains(x) && dom.contains(y) && f(x) == f(y) implies x
        == y by {
        lemma_cancel(q, a, x, y);
    }
    assert forall|x: int| img.contains(x) implies dom.contains(x) by {
        let r = choose|r: int| dom.contains(r) && f(r) == x;
        field_multiplication(q, a, r, 0);
    }
    lemma_map_size(dom, img, f);
    lemma_subset_equality(img, dom);
    assert(img.contains(w));
    choose|r: int| dom.contains(r) && f(r) == w
}

/// A factor that is not zero may be cancelled.
proof fn lemma_cancel(q: int, a: int, x: int, y: int)
    requires
        supported(q),
        element(q, a),
        a != 0,
        element(q, x),
        element(q, y),
        product(q, a, x) == product(q, a, y),
    ensures
        x == y,
{
    let n = negation(q, y);
    field_addition(q, y, y, y);
    let d = sum(q, x, n);
    field_addition(q, x, n, y);
    field_multiplication(q, a, x, n);
    field_multiplication(q, a, y, n);
    field_multiplication(q, a, 0, 0);
    // a·(x - y) = a·x - a·y = a·y - a·y = a·0
    assert(product(q, a, d) == 0);
    field_no_zero_divisors(q, a, d);
    // x = x + (-y + y) = (x - y) + y
    field_addition(q, n, y, y);
    field_addition(q, y, 0, 0);
    field_addition(q, 0, y, y);
    assert(sum(q, d, y) == sum(q, x, sum(q, n, y)));
    field_addition(q, x, 0, 0);
}

/// Every element but zero has an inverse.
pub proof fn field_inverse(q: int, a: int) -> (r: int)
    requires
        supported(q),
        element(q, a),
        a != 0,
    ensures
        element(q, r),
        product(q, a, r) == 1,
{
    lemma_field_shape(q);
    field_division(q, a, 1)
}

/// The requested size is not that of a supported field.
#[derive(Debug, Clone, Copy, PartialEq, Eq)]
pub struct NotPrimePower {
    pub q: usize,
}

/// A finite field given by its addition and multiplication tables.
#[derive(Debug)]
pub struct Gf {
    pub p: usize,
    pub k: usize,
    pub q: usize,
    // Entry [a * q + b] of each table belongs to the elements a and b.
    pub add_table: Vec<usize>,
    pub mul_table: Vec<usize>,
}

/// The result of an operation for the table entry `e`.
pub open spec fn sum_entry(q: int, e: int) -> int {
    sum(q, e / q, e % q)
}

pub open spec fn product_entry(q: int, e: int) -> int {
    product(q, e / q, e % q)
}

impl Gf {
    /// The tables hold the sums and products of the field of size `q`.
    pub open spec fn tables(&self) -> bool {
        &&& self.add_table@.len() == self.q * self.q
        &&& self.mul_table@.len() == self.q * self.q
        &&& forall|e: int|
            0 <= e < self.q * self.q ==> #[trigger] self.add_table@[e] == sum_entry(self.q as int, e)
        &&& forall|e: int|
            0 <= e < self.q * self.q ==> #[trigger] self.mul_table@[e] == product_entry(
                self.q as int,
                e,
            )
    }

    /// The parts belong to one supported field.
    pub open spec fn wf(&self) -> bool {
        &&& supported(self.q as int)
        &&& self.p == characteristic(self.q as int)
        &&& self.k == degree(self.q as int)
        &&& self.tables()
    }

    /// The field of size `q`, where it is supported.
    pub fn new(q: usize) -> (r: Result<Self, NotPrimePower>)
        ensures
            r is Ok <==> supported(q as int),
            r matches Ok(gf) ==> gf.wf() && gf.q == q,
            r matches Err(e) ==> e.q == q,
    {
        match factor_prime_power(q) {
            None => Err(NotPrimePower { q }),
            Some((p, k, low)) => {
                proof {
                    lemma_field_shape(q as int);
                }
                if k == 1 {
                    Ok(Gf::prime(p))
                } else {
                    Ok(Gf::extension(p, k, &low))
                }
            },
        }
    }

    fn prime(p: usize) -> (gf: Self)
        requires
            supported(p as int),
            degree(p as int) == 1,
        ensures
            gf.wf(),
            gf.q == p,
    {
        let ghost q = p as int;
        proof {
            lemma_field_shape(q);
            assert(q * q <= 49 * 49) by (nonlinear_arith)
                requires
                    2 <= q <= 49,
            ;
        }
        let n: usize = p * p;
        let mut add_table: Vec<usize> = Vec::new();
        let mut mul_table: Vec<usize> = Vec::new();
        let mut e: usize = 0;
        while e < n
            invariant
                q == p,
                supported(q),
                degree(q) == 1,
                2 <= p <= 49,
                n == p * p,
                e <= n,
                add_table@.len() == e,
                mul_table@.len() == e,
                forall|i: int| 0 <= i < e ==> #[trigger] add_table@[i] == sum_entry(q, i),
                forall|i: int| 0 <= i < e ==> #[trigger] mul_table@[i] == product_entry(q, i),
            decreases n - e,
        {
            let a: usize = e / p;
            let b: usize = e % p;
            proof {
                lemma_entry(q, e as int);
                lemma_prime_arithmetic(q, a as int, b as int);
                assert(a * b <= 49 * 49) by (nonlinear_arith)
                    requires
                        a <= 49,
                        b <= 49,
                ;
            }
            add_table.push((a + b) % p);
            mul_table.push((a * b) % p);
            e = e + 1;
        }
        Gf { p, k: 1, q: p, add_table, mul_table }
    }

    /// Tables of GF(p^k) where `low` holds the coefficients of the monic
    /// irreducible polynomial, constant term first, without the leading one.
    fn extension(p: usize, k: usize, low: &Vec<usize>) -> (gf: Self)
        requires
            exists|q: int|
                #[trigger] supported(q) && characteristic(q) == p && degree(q) == k && k > 1
                    && reduction(q) == low@.map_values(|c: usize| c as int),
        ensures
            gf.wf(),
            gf.q == pow(p as int, k as nat),
    {
        let ghost q = choose|q: int|
            #[trigger] supported(q) && characteristic(q) == p && degree(q) == k && k > 1
                && reduction(q) == low@.map_values(|c: usize| c as int);
        proof {
            lemma_field_shape(q);
            assert(q * q <= 49 * 49) by (nonlinear_arith)
                requires
                    2 <= q <= 49,
            ;
        }
        let size: usize = power(p, k);
        let n: usize = size * size;
        let mut add_table: Vec<usize> = Vec::new();
        let mut mul_table: Vec<usize> = Vec::new();
        let mut e: usize = 0;
        while e < n
            invariant
                q == size,
                supported(q),
                characteristic(q) == p,
                degree(q) == k,
                k > 1,
                reduction(q) == low@.map_values(|c: usize| c as int),
                2 <= q <= 49,
                n == q * q,
                e <= n,
                add_table@.len() == e,
                mul_table@.len() == e,
                forall|i: int| 0 <= i < e ==> #[trigger] add_table@[i] == sum_entry(q, i),
                forall|i: int| 0 <= i < e ==> #[trigger] mul_table@[i] == product_entry(q, i),
            decreases n - e,
        {
            proof {
                lemma_entry(q, e as int);
                lemma_field_shape(q);
                lemma_poly(q, e as int / q);
                lemma_poly(q, e as int % q);
            }
            let a: Vec<usize> = digits_of(e / size, p, k);
            let b: Vec<usize> = digits_of(e % size, p, k);
            let c: Vec<usize> = poly_sum(&a, &b, p);
            add_table.push(number_of(&c, p));
            let d: Vec<usize> = poly_product(&a, &b, p, low);
            mul_table.push(number_of(&d, p));
            e = e + 1;
        }
        Gf { p, k, q: size, add_table, mul_table }
    }

    /// Sum of two field elements.
    pub fn add(&self, a: usize, b: usize) -> (r: usize)
        requires
            self.wf(),
            a < self.q,
            b < self.q,
        ensures
            r == sum(self.q as int, a as int, b as int),
            r < self.q,
    {
        proof {
            lemma_index(self.q as int, a as int, b as int);
            field_addition(self.q as int, a as int, b as int, 0);
        }
        self.add_table[a * self.q + b]
    }

    /// Product of two field elements.
    pub fn mul(&self, a: usize, b: usize) -> (r: usize)
        requires
            self.wf(),
            a < self.q,
            b < self.q,
        ensures
            r == product(self.q as int, a as int, b as int),
            r < self.q,
    {
        proof {
            lemma_index(self.q as int, a as int, b as int);
            field_multiplication(self.q as int, a as int, b as int, 0);
        }
        self.mul_table[a * self.q + b]
    }
}

proof fn lemma_entry(q: int, e: int)
    requires
        q > 0,
        0 <= e < q * q,
    ensures
        element(q, e / q),
        element(q, e % q),
{
    vstd::arithmetic::div_mod::lemma_fundamental_div_mod(e, q);
    assert(0 <= e / q < q) by (nonlinear_arith)
        requires
            q > 0,
            0 <= e < q * q,
            e == q * (e / q) + e % q,
            0 <= e % q < q,
    ;
}

proof fn lemma_index(q: int, a: int, b: int)
    requires
        element(q, a),
        element(q, b),
        supported(q),
    ensures
        0 <= a * q + b < q * q,
        0 <= a * q < q * q,
        q * q <= 49 * 49,
        (a * q + b) / q == a,
        (a * q + b) % q == b,
{
    lemma_field_shape(q);
    assert(0 <= a * q && a * q + b < q * q) by (nonlinear_arith)
        requires
            0 <= a < q,
            0 <= b < q,
    ;
    assert(q * q <= 49 * 49) by (nonlinear_arith)
        requires
            2 <= q <= 49,
    ;
    vstd::arithmetic::div_mod::lemma_fundamental_div_mod_converse(a * q + b, q, a, b);
}

/// `base` to the power `e`.
pub(crate) fn power(base: usize, e: usize) -> (r: usize)
    requires
        base >= 1,
        pow(base as int, e as nat) <= usize::MAX,
    ensures
        r == pow(base as int, e as nat),
{
    let mut r: usize = 1;
    let mut i: usize = 0;
    proof {
        vstd::arithmetic::power::lemma_pow0(base as int);
    }
    while i < e
        invariant
            base >= 1,
            i <= e,
            r == pow(base as int, i as nat),
            pow(base as int, e as nat) <= usize::MAX,
        decreases e - i,
    {
        proof {
            reveal(pow);
            vstd::arithmetic::power::lemma_pow_increases(base as nat, (i + 1) as nat, e as nat);
            assert(r * base == base * r) by (nonlinear_arith);
            assert(pow(base as int, (i + 1) as nat) == base * pow(base as int, i as nat));
        }
        r = r * base;
        i = i + 1;
    }
    r
}

/// Componentwise sum of two coefficient vectors.
fn poly_sum(a: &Vec<usize>, b: &Vec<usize>, p: usize) -> (c: Vec<usize>)
    requires
        2 <= p <= 49,
        a@.len() == b@.len(),
        forall|i: int| 0 <= i < a@.len() ==> #[trigger] a@[i] < p,
        forall|i: int| 0 <= i < b@.len() ==> #[trigger] b@[i] < p,
    ensures
        c@.len() == a@.len(),
        forall|i: int| 0 <= i < c@.len() ==> #[trigger] c@[i] < p,
        c@.map_values(|d: usize| d as int) == vadd(
            p as int,
            a@.map_values(|d: usize| d as int),
            b@.map_values(|d: usize| d as int),
        ),
{
    let mut c: Vec<usize> = Vec::new();
    let mut i: usize = 0;
    while i < a.len()
        invariant
            2 <= p <= 49,
            a@.len() == b@.len(),
            i <= a@.len(),
            c@.len() == i,
            forall|j: int| 0 <= j < a@.len() ==> #[trigger] a@[j] < p,
            forall|j: int| 0 <= j < b@.len() ==> #[trigger] b@[j] < p,
            forall|j: int| 0 <= j < i ==> #[trigger] c@[j] == (a@[j] + b@[j]) % (p as int),
        decreases a@.len() - i,
    {
        c.push((a[i] + b[i]) % p);
        i = i + 1;
    }
    assert(c@.map_values(|d: usize| d as int) =~= vadd(
        p as int,
        a@.map_values(|d: usize| d as int),
        b@.map_values(|d: usize| d as int),
    ));
    c
}

/// Product of two coefficient vectors, reduced by the polynomial with the
/// coefficients `low`: a[0]·b + x·(a[1]·b + x·(...)).
fn poly_product(a: &Vec<usize>, b: &Vec<usize>, p: usize, low: &Vec<usize>) -> (h: Vec<usize>)
    requires
        2 <= p <= 49,
        a@.len() == b@.len() == low@.len(),
        a@.len() >= 1,
        forall|i: int| 0 <= i < a@.len() ==> #[trigger] a@[i] < p,
        forall|i: int| 0 <= i < b@.len() ==> #[trigger] b@[i] < p,
    ensures
        h@.len() == a@.len(),
        forall|i: int| 0 <= i < h@.len() ==> #[trigger] h@[i] < p,
        h@.map_values(|d: usize| d as int) == partial_product(
            p as int,
            low@.map_values(|d: usize| d as int),
            a@.map_values(|d: usize| d as int),
            b@.map_values(|d: usize| d as int),
            0,
        ),
{
    let ghost f = |d: usize| d as int;
    let ghost (u, v, l) = (a@.map_values(f), b@.map_values(f), low@.map_values(f));
    let k: usize = a.len();
    let mut h: Vec<usize> = Vec::new();
    let mut z: usize = 0;
    while z < k
        invariant
            h@.len() == z,
            z <= k,
            forall|j: int| 0 <= j < z ==> #[trigger] h@[j] == 0,
        decreases k - z,
    {
        h.push(0);
        z = z + 1;
    }
    assert(h@.map_values(f) =~= zeros(k as nat));
    let mut i: usize = k;
    while i > 0
        invariant
            2 <= p <= 49,
            k >= 1,
            a@.len() == k,
            b@.len() == k,
            low@.len() == k,
            h@.len() == k,
            i <= k,
            f == (|d: usize| d as int),
            u == a@.map_values(f),
            v == b@.map_values(f),
            l == low@.map_values(f),
            forall|j: int| 0 <= j < k ==> #[trigger] a@[j] < p,
            forall|j: int| 0 <= j < k ==> #[trigger] b@[j] < p,
            forall|j: int| 0 <= j < k ==> #[trigger] h@[j] < p,
            h@.map_values(f) == partial_product(p as int, l, u, v, i as nat),
        decreases i,
    {
        i = i - 1;
        let ghost hs = h@.map_values(f);
        let s: usize = a[i];
        let top: usize = h[k - 1];
        let mut next: Vec<usize> = Vec::new();
        let mut j: usize = 0;
        while j < k
            invariant
                2 <= p <= 49,
                a@.len() == k,
                b@.len() == k,
                low@.len() == k,
                h@.len() == k,
                i < k,
                j <= k,
                next@.len() == j,
                f == (|d: usize| d as int),
                u == a@.map_values(f),
                v == b@.map_values(f),
                l == low@.map_values(f),
                s == a@[i as int],
                s < p,
                top == h@[k - 1],
                top < p,
                hs == h@.map_values(f),
                hs == partial_product(p as int, l, u, v, (i + 1) as nat),
                forall|m: int| 0 <= m < k ==> #[trigger] b@[m] < p,
                forall|m: int| 0 <= m < k ==> #[trigger] h@[m] < p,
                forall|m: int| 0 <= m < j ==> #[trigger] next@[m] == partial_product(
                    p as int,
                    l,
                    u,
                    v,
                    i as nat,
                )[m] && next@[m] < p,
            decreases k - j,
        {
            let below: usize = if j == 0 { 0 } else { h[j - 1] };
            let n: usize = (p - low[j] % p) % p;
            let x: usize = b[j];
            proof {
                lemma_product_step(p as int, l, u, v, i as nat, j as int);
                assert(n == opposite(p as int, l, j as int));
                assert(s * x <= 49 * 49) by (nonlinear_arith)
                    requires
                        s <= 49,
                        x <= 49,
                ;
                assert(top * n <= 49 * 49) by (nonlinear_arith)
                    requires
                        top <= 49,
                        n <= 49,
                ;
            }
            next.push((s * x + below + top * n) % p);
            j = j + 1;
        }
        proof {
            lemma_partial_product_range(p as int, l, u, v, i as nat);
            assert(next@.map_values(f) =~= partial_product(p as int, l, u, v, i as nat));
        }
        h = next;
    }
    h
}

/// The prime, the degree and the polynomial of the field of size `q`.
fn factor_prime_power(q: usize) -> (r: Option<(usize, usize, Vec<usize>)>)
    ensures
        r is Some <==> supported(q as int),
        r matches Some((p, k, low)) ==> p == characteristic(q as int) && k == degree(q as int)
            && low@.map_values(|c: usize| c as int) == reduction(q as int),
{
    let r: Option<(usize, usize, Vec<usize>)> = match q {
        2 | 3 | 5 | 7 | 11 | 13 | 17 | 19 | 23 => Some((q, 1, Vec::new())),
        // GF(4) = GF(2)[x]/(x^2 + x + 1)
        4 => Some((2, 2, vec![1, 1])),
        // GF(8) = GF(2)[x]/(x^3 + x + 1)
        8 => Some((2, 3, vec![1, 1, 0])),
        // GF(16) = GF(2)[x]/(x^4 + x + 1)
        16 => Some((2, 4, vec![1, 1, 0, 0])),
        // GF(32) = GF(2)[x]/(x^5 + x^2 + 1)
        32 => Some((2, 5, vec![1, 0, 1, 0, 0])),
        // GF(9) = GF(3)[x]/(x^2 + 1), as -1 is no square mod 3
        9 => Some((3, 2, vec![1, 0])),
        // GF(27) = GF(3)[x]/(x^3 + 2x + 1)
        27 => Some((3, 3, vec![1, 2, 0])),
        // GF(25) = GF(5)[x]/(x^2 + 2)
        25 => Some((5, 2, vec![2, 0])),
        // GF(49) = GF(7)[x]/(x^2 + 1), as -1 is no square mod 7
        49 => Some((7, 2, vec![1, 0])),
        _ => None,
    };
    proof {
        if let Some((p, k, low)) = &r {
            assert(low@.map_values(|c: usize| c as int) =~= reduction(q as int));
        }
    }
    r
}

/// Whether a field of size `q` is supported.
pub fn is_prime_power(q: usize) -> (r: bool)
    ensures
        r == supported(q as int),
{
    factor_prime_power(q).is_some()
}

} // verus!
