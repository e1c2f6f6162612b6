//! How many nodes a search is expected to visit.

use vstd::arithmetic::power2::{lemma2_to64, lemma2_to64_rest, lemma_pow2_adds, lemma_pow2_pos, pow2};
use vstd::prelude::*;

use crate::binary64::{
    ceiling, law_ceiling_is_least, lemma_ceiling, lemma_ceiling_monotone, lemma_integer_monotone, lemma_integer_within,
    lemma_product_monotone, lemma_product_within, lemma_within_chain, product, rounded,
    shifted_value, within, Binary64, Scaled, MANTISSA_LIMIT,
};

verus! {

/// The mantissa of the binary64 number nearest to 1.1, obtained by running search queries on
/// large datasets, checking the maximum of visited nodes, and comparing it with the formula.
pub const MARGIN_FACTOR_MANTISSA: u64 = 0x11_9999_9999_999A;

/// The mantissa of the binary64 number nearest to 1.3, by which the degree of a node may
/// exceed the maximum degree of the graph.
pub const GRAPH_SLACK_FACTOR_MANTISSA: u64 = 0x14_CCCC_CCCC_CCCD;

/// The exponent of both factors.
pub const FACTOR_EXPONENT: i32 = -52;

/// The binary64 number nearest to 1.1.
pub open spec fn margin_factor() -> Scaled {
    Scaled { mantissa: MARGIN_FACTOR_MANTISSA as nat, exponent: FACTOR_EXPONENT as int }
}

/// The binary64 number nearest to 1.3.
pub open spec fn graph_slack_factor() -> Scaled {
    Scaled { mantissa: GRAPH_SLACK_FACTOR_MANTISSA as nat, exponent: FACTOR_EXPONENT as int }
}

/// The binary64 value of
/// `MARGIN_FACTOR * max_degree * GRAPH_SLACK_FACTOR * search_list_size`, where each product is
/// rounded before the next one is taken.
pub open spec fn expected_visits(max_degree: nat, search_list_size: nat) -> Scaled {
    let hops = product(margin_factor(), rounded(max_degree, 0));
    product(product(hops, graph_slack_factor()), rounded(search_list_size, 0))
}

/// The expected visits, rounded up, or `usize::MAX` where that is smaller.
pub open spec fn estimated_size(max_degree: usize, search_list_size: usize) -> usize {
    let visits = ceiling(expected_visits(max_degree as nat, search_list_size as nat));
    if visits <= usize::MAX {
        visits as usize
    } else {
        usize::MAX
    }
}

/// Estimate the size of the node visited set. The formula is
/// `MARGIN_FACTOR * max_degree * GRAPH_SLACK_FACTOR * search_list_size`, with factors of 1.1
/// and 1.3, computed in binary64 numbers and rounded up:
///
/// * `visited_nodes <= number_of_hops * max_degree`.
/// * `number_of_hops` is generally `MARGIN_FACTOR * search_list_size`.
/// * `max_degree` is adjusted with `GRAPH_SLACK_FACTOR`.
pub fn estimate_node_visited_set_size(max_degree: usize, search_list_size: usize) -> (size: usize)
    ensures
        size == estimated_size(max_degree, search_list_size),
        143 * max_degree * search_list_size < 0x2_0000_0000_0000 && 143 * max_degree
            * search_list_size + 100 <= 100 * usize::MAX ==> 143 * max_degree * search_list_size
            <= 100 * size <= 143 * max_degree * search_list_size + 100,
        size == usize::MAX || 0x2_0000_0000_0000 * (100 * size) >= 0x1_FFFF_FFFF_FFFF * (143
            * max_degree * search_list_size),
        0x2_0000_0000_0000 * (100 * (size - 1)) <= 0x2_0000_0000_0001 * (143 * max_degree
            * search_list_size),
{
    proof {
        law_estimate_is_near(max_degree, search_list_size);
    }
    let margin = Binary64 { mantissa: MARGIN_FACTOR_MANTISSA, exponent: FACTOR_EXPONENT };
    let slack = Binary64 { mantissa: GRAPH_SLACK_FACTOR_MANTISSA, exponent: FACTOR_EXPONENT };
    let degree = Binary64::from_usize(max_degree);
    let length = Binary64::from_usize(search_list_size);
    margin.times(degree).times(slack).times(length).ceil_to_usize()
}

/// The estimate is near `1.43 * max_degree * search_list_size`: it is at most one part in
/// `2^49` below, and, but for the rounding up, at most one part in `2^49` above.
pub proof fn law_estimate_near_formula(max_degree: nat, search_list_size: nat)
    ensures
        ({
            let size = ceiling(expected_visits(max_degree, search_list_size));
            let formula = 143 * max_degree * search_list_size;
            &&& 0x2_0000_0000_0000 * (100 * size) >= 0x1_FFFF_FFFF_FFFF * formula
            &&& 0x2_0000_0000_0000 * (100 * (size - 1)) <= 0x2_0000_0000_0001 * formula
        }),
{
    let d = max_degree as int;
    let l = search_list_size as int;
    let c1 = MARGIN_FACTOR_MANTISSA as int;
    let c2 = GRAPH_SLACK_FACTOR_MANTISSA as int;
    let n = MANTISSA_LIMIT as int;
    let degree = rounded(max_degree, 0);
    let length = rounded(search_list_size, 0);
    let first = product(margin_factor(), degree);
    let second = product(first, graph_slack_factor());
    let third = product(second, length);
    lemma2_to64();
    lemma_integer_within(max_degree);
    lemma_integer_within(search_list_size);
    lemma_product_within(margin_factor(), degree, 52, 0);
    lemma_product_within(first, graph_slack_factor(), 52, 52);
    lemma_product_within(second, length, 104, 0);
    lemma_ceiling(third, 104);
    assert(shifted_value(margin_factor(), 52) == c1) by {
        assert(MARGIN_FACTOR_MANTISSA as nat * pow2(0) == MARGIN_FACTOR_MANTISSA)
            by (nonlinear_arith)
            requires
                pow2(0) == 1,
        ;
    }
    assert(shifted_value(graph_slack_factor(), 52) == c2) by {
        assert(GRAPH_SLACK_FACTOR_MANTISSA as nat * pow2(0) == GRAPH_SLACK_FACTOR_MANTISSA)
            by (nonlinear_arith)
            requires
                pow2(0) == 1,
        ;
    }
    let vd = shifted_value(degree, 0);
    let v1 = shifted_value(first, 52);
    let v2 = shifted_value(second, 104);
    let vl = shifted_value(length, 0);
    let v3 = shifted_value(third, 104);
    assert(c1 * vd == vd * c1) by (nonlinear_arith);
    lemma_within_chain(v1, vd, d, c1, 1);
    assert(d * c1 >= 0) by (nonlinear_arith)
        requires
            d >= 0,
            c1 >= 0,
    ;
    lemma_within_chain(v2, v1, d * c1, c2, 3);
    let e = d * c1 * c2;
    assert(e >= 0) by (nonlinear_arith)
        requires
            d * c1 >= 0,
            c2 >= 0,
            e == d * c1 * c2,
    ;
    // The error of the length joins that of the other factors.
    let x = e * l;
    let u = v2 * vl;
    assert(x >= 0) by (nonlinear_arith)
        requires
            e >= 0,
            l >= 0,
            x == e * l,
    ;
    assert(within(v3, x, 9)) by {
        lemma_within_both(v2, e, vl, l);
        assert(within(v3, u * 1, 1));
        lemma_within_chain(v3, u, x, 1, 7);
        assert(x * 1 == x);
    }
    let unit = pow2(104) as int;
    lemma_pow2_104();
    let size = ceiling(third) as int;
    let formula = 143 * d * l;
    let dl = d * l;
    assert(x == (c1 * c2) * dl) by (nonlinear_arith)
        requires
            x == e * l,
            e == d * c1 * c2,
            dl == d * l,
    ;
    assert(dl >= 0) by (nonlinear_arith)
        requires
            d >= 0,
            l >= 0,
            dl == d * l,
    ;
    assert(formula == 143 * dl) by (nonlinear_arith)
        requires
            formula == 143 * d * l,
            dl == d * l,
    ;
    assert(143 * max_degree * search_list_size == formula);
    assert((size - 1) * unit < v3 <= size * unit);
    assert(c1 * c2 == 29003845733221892038908293593170);
    assert(9007199254740992 * v3 >= 9007199254740983 * (29003845733221892038908293593170 * dl));
    assert(9007199254740992 * v3 <= 9007199254741001 * (29003845733221892038908293593170 * dl));
    assert(unit == 20282409603651670423947251286016);
    lemma_size_near_formula(size, v3, dl);
}

/// A size is near the formula when the value that it rounds up is.
proof fn lemma_size_near_formula(size: int, value: int, dl: int)
    requires
        dl >= 0,
        9007199254740992 * value >= 9007199254740983 * (29003845733221892038908293593170 * dl),
        9007199254740992 * value <= 9007199254741001 * (29003845733221892038908293593170 * dl),
        (size - 1) * 20282409603651670423947251286016 < value,
        value <= size * 20282409603651670423947251286016,
    ensures
        56294995342131200 * size >= 80501843339247473 * dl,
        56294995342131200 * (size - 1) <= 80501843339247759 * dl,
{
}

/// Where `1.43 * max_degree * search_list_size` is no larger than `2^49 / 100`, the estimate is
/// an upper bound of it, and exceeds it by at most one.
pub proof fn law_estimate_upper_bound(max_degree: nat, search_list_size: nat)
    requires
        143 * max_degree * search_list_size < 0x2_0000_0000_0000,
    ensures
        ({
            let size = ceiling(expected_visits(max_degree, search_list_size));
            let formula = 143 * max_degree * search_list_size;
            formula <= 100 * size <= formula + 100
        }),
{
    law_estimate_near_formula(max_degree, search_list_size);
}

/// The estimated size is near `1.43 * max_degree * search_list_size`: an upper bound of it, and
/// larger by at most one, where that is no larger than `2^49 / 100`, and within one part in
/// `2^49` of it, but for the rounding up, elsewhere. The largest `usize` stands for what is
/// larger.
pub proof fn law_estimate_is_near(max_degree: usize, search_list_size: usize)
    ensures
        ({
            let size = estimated_size(max_degree, search_list_size);
            let formula = 143 * max_degree * search_list_size;
            &&& formula < 0x2_0000_0000_0000 && formula + 100 <= 100 * usize::MAX ==> formula
                <= 100 * size <= formula + 100
            &&& size == usize::MAX || 0x2_0000_0000_0000 * (100 * size) >= 0x1_FFFF_FFFF_FFFF
                * formula
            &&& 0x2_0000_0000_0000 * (100 * (size - 1)) <= 0x2_0000_0000_0001 * formula
        }),
{
    law_estimate_near_formula(max_degree as nat, search_list_size as nat);
}

/// The estimate is taken product by product: 1.1, as `0x11_9999_9999_999A * 2^-52`, by the degree,
/// by 1.3, as `0x14_CCCC_CCCC_CCCD * 2^-52`, and by the length, each rounded before the next, and
/// the last one rounded up.
pub proof fn law_estimate_rounds_each_product(max_degree: usize, search_list_size: usize)
    ensures
        ({
            let degree = rounded(max_degree as nat, 0);
            let length = rounded(search_list_size as nat, 0);
            let hops = rounded(0x11_9999_9999_999A * degree.mantissa, degree.exponent - 52);
            let visits = rounded(hops.mantissa * 0x14_CCCC_CCCC_CCCD, hops.exponent - 52);
            let total = rounded(
                visits.mantissa * length.mantissa,
                visits.exponent + length.exponent,
            );
            let value = total.mantissa * pow2((total.exponent + 104) as nat);
            let size = estimated_size(max_degree, search_list_size);
            &&& total.exponent + 104 >= 0
            &&& (size - 1) * pow2(104) < value
            &&& value <= size * pow2(104) || size == usize::MAX
        }),
{
    let degree = rounded(max_degree as nat, 0);
    let length = rounded(search_list_size as nat, 0);
    let total = expected_visits(max_degree as nat, search_list_size as nat);
    law_ceiling_is_least(total, 104);
    lemma_pow2_pos(104);
    let unit = pow2(104) as int;
    let size = estimated_size(max_degree, search_list_size) as int;
    let whole = ceiling(total) as int;
    assert((size - 1) * unit <= (whole - 1) * unit) by (nonlinear_arith)
        requires
            size <= whole,
            unit > 0,
    ;
    assert(0x11_9999_9999_999A * degree.mantissa == MARGIN_FACTOR_MANTISSA as nat
        * degree.mantissa);
}

/// An estimate that a dense array of ids has slots for is near the formula, and one that is
/// beyond its bound is so by the formula.
pub proof fn law_estimate_in_dense_array(max_degree: usize, search_list_size: usize)
    ensures
        ({
            let size = estimated_size(max_degree, search_list_size);
            let formula = 143 * max_degree * search_list_size;
            &&& formula <= 100 * 0x3FFF_FFFF ==> formula <= 100 * size <= formula + 100
            &&& formula >= 100 * 0x4000_0001 ==> size >= 0x4000_0000
        }),
{
    law_estimate_is_near(max_degree, search_list_size);
}

/// The estimate grows with the degree of the graph and with the length of the search list.
pub proof fn law_estimate_monotone(
    max_degree: usize,
    search_list_size: usize,
    larger_degree: usize,
    larger_size: usize,
)
    requires
        max_degree <= larger_degree,
        search_list_size <= larger_size,
    ensures
        estimated_size(max_degree, search_list_size) <= estimated_size(larger_degree, larger_size),
{
    let degree = rounded(max_degree as nat, 0);
    let more_degree = rounded(larger_degree as nat, 0);
    let length = rounded(search_list_size as nat, 0);
    let more_length = rounded(larger_size as nat, 0);
    let first = product(margin_factor(), degree);
    let more_first = product(margin_factor(), more_degree);
    let second = product(first, graph_slack_factor());
    let more_second = product(more_first, graph_slack_factor());
    lemma_integer_monotone(max_degree as nat, larger_degree as nat);
    lemma_integer_monotone(search_list_size as nat, larger_size as nat);
    lemma_product_monotone(margin_factor(), degree, margin_factor(), more_degree, 52, 0);
    lemma_product_monotone(
        first,
        graph_slack_factor(),
        more_first,
        graph_slack_factor(),
        52,
        52,
    );
    lemma_product_monotone(second, length, more_second, more_length, 104, 0);
    lemma_ceiling_monotone(product(second, length), product(more_second, more_length), 104);
}

/// The errors of two factors join in their product.
proof fn lemma_within_both(x: int, e: int, y: int, l: int)
    requires
        within(x, e, 5),
        within(y, l, 1),
        e >= 0,
        l >= 0,
    ensures
        within(x * y, e * l, 7),
{
    let n = MANTISSA_LIMIT as int;
    assert(x >= 0) by (nonlinear_arith)
        requires
            (n - 5) * e <= n * x,
            e >= 0,
            n == 0x20_0000_0000_0000,
    ;
    let z = x * y;
    assert(within(z, x * l, 1)) by (nonlinear_arith)
        requires
            (n - 1) * l <= n * y <= (n + 1) * l,
            x >= 0,
            z == x * y,
            n == MANTISSA_LIMIT,
    ;
    lemma_within_chain(z, x, e, l, 5);
}

/// The value of a large power of two.
proof fn lemma_pow2_104()
    ensures
        pow2(104) == 0x100_0000_0000 * 0x1_0000_0000_0000_0000,
{
    lemma2_to64();
    lemma2_to64_rest();
    lemma_pow2_adds(40, 64);
}

} // verus!
