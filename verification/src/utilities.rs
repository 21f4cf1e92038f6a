//! Geometry helpers over body sequences: integer square root, axis-wise
//! extents and spans, and the median partition used by the tree builder.

use vstd::prelude::*;
use vstd::seq_lib::lemma_multiset_commutative;
use vstd::multiset::Multiset;
use crate::dimension::Dimension;
use crate::entity::Entity;
use crate::MAX_COORD;

verus! {

/// `r` is the integer square root of `n`: the greatest integer whose
/// square does not exceed `n`.
pub open spec fn is_isqrt(r: int, n: int) -> bool {
    0 <= r && r * r <= n && n < (r + 1) * (r + 1)
}

/// The integer square root of `n`.
pub open spec fn isqrt_of(n: int) -> int {
    choose|r: int| is_isqrt(r, n)
}

/// Two integer square roots of the same number are equal.
pub proof fn lemma_isqrt_unique(a: int, b: int, n: int)
    requires
        is_isqrt(a, n),
        is_isqrt(b, n),
    ensures
        a == b,
{
    assert(a == b) by (nonlinear_arith)
        requires
            0 <= a && a * a <= n && n < (a + 1) * (a + 1),
            0 <= b && b * b <= n && n < (b + 1) * (b + 1),
    ;
}

/// Every non-negative integer has an integer square root.
pub proof fn lemma_isqrt_exists(n: int)
    requires
        n >= 0,
    ensures
        is_isqrt(isqrt_of(n), n),
    decreases n,
{
    if n == 0 {
        assert(is_isqrt(0, 0)) by (nonlinear_arith);
        assert(exists|r: int| is_isqrt(r, 0));
    } else {
        lemma_isqrt_exists(n - 1);
        let r = isqrt_of(n - 1);
        if (r + 1) * (r + 1) <= n {
            assert(0 <= r + 1 && (r + 1) * (r + 1) <= n && n < (r + 2) * (r + 2))
                by (nonlinear_arith)
                requires
                    0 <= r,
                    r * r <= n - 1,
                    n - 1 < (r + 1) * (r + 1),
                    (r + 1) * (r + 1) <= n,
            ;
            assert(is_isqrt(r + 1, n));
            assert(exists|q: int| is_isqrt(q, n));
        } else {
            assert(0 <= r && r * r <= n && n < (r + 1) * (r + 1)) by (nonlinear_arith)
                requires
                    0 <= r,
                    r * r <= n - 1,
                    (r + 1) * (r + 1) > n,
            ;
            assert(is_isqrt(r, n));
            assert(exists|q: int| is_isqrt(q, n));
        }
    }
}

/// Computes the integer square root of `n` by bisection.
pub fn isqrt_u128(n: u128) -> (r: u128)
    ensures
        is_isqrt(r as int, n as int),
        r == isqrt_of(n as int),
        r < 0x1_0000_0000_0000_0000u128,
{
    if n == 0 {
        proof {
            assert(is_isqrt(0, n as int));
            lemma_isqrt_unique(0, isqrt_of(n as int), n as int);
        }
        return 0;
    }
    let mut lo: u128 = 0;
    let mut hi: u128 = 0x1_0000_0000_0000_0000u128;
    proof {
        assert((hi as int) * (hi as int) > n as int) by (nonlinear_arith)
            requires
                hi == 0x1_0000_0000_0000_0000u128,
                n <= u128::MAX,
        ;
    }
    while lo + 1 < hi
        invariant
            0 <= lo < hi <= 0x1_0000_0000_0000_0000u128,
            (lo as int) * (lo as int) <= n as int,
            (n as int) < (hi as int) * (hi as int),
        decreases hi - lo,
    {
        let mid: u128 = lo + (hi - lo) / 2;
        proof {
            assert(lo < mid < hi);
            assert((mid as int) * (mid as int) <= (u128::MAX) as int) by (nonlinear_arith)
                requires
                    mid < 0x1_0000_0000_0000_0000u128,
            ;
        }
        if mid * mid <= n {
            lo = mid;
        } else {
            hi = mid;
        }
    }
    proof {
        assert(hi == lo + 1);
        assert(is_isqrt(lo as int, n as int));
        lemma_isqrt_unique(lo as int, isqrt_of(n as int), n as int);
    }
    lo
}

/// Every entity in the sequence is within the accepted ranges.
pub open spec fn all_wf(s: Seq<Entity>) -> bool {
    forall|i: int| 0 <= i < s.len() ==> #[trigger] s[i].wf()
}

/// The least position coordinate on axis `d` over a non-empty sequence.
pub open spec fn min_coord_on(s: Seq<Entity>, d: Dimension) -> i64
    recommends
        s.len() >= 1,
    decreases s.len(),
{
    if s.len() <= 1 {
        s[0].coord(d)
    } else {
        let m = min_coord_on(s.drop_last(), d);
        if s.last().coord(d) <= m {
            s.last().coord(d)
        } else {
            m
        }
    }
}

/// The greatest position coordinate on axis `d` over a non-empty sequence.
pub open spec fn max_coord_on(s: Seq<Entity>, d: Dimension) -> i64
    recommends
        s.len() >= 1,
    decreases s.len(),
{
    if s.len() <= 1 {
        s[0].coord(d)
    } else {
        let m = max_coord_on(s.drop_last(), d);
        if s.last().coord(d) >= m {
            s.last().coord(d)
        } else {
            m
        }
    }
}

/// The greatest radius over a non-empty sequence.
pub open spec fn max_radius_of(s: Seq<Entity>) -> i64
    recommends
        s.len() >= 1,
    decreases s.len(),
{
    if s.len() <= 1 {
        s[0].radius
    } else {
        let m = max_radius_of(s.drop_last());
        if s.last().radius >= m {
            s.last().radius
        } else {
            m
        }
    }
}

/// The extents are attained and bound every element.
pub proof fn lemma_extents(s: Seq<Entity>, d: Dimension)
    requires
        s.len() >= 1,
        all_wf(s),
    ensures
        -MAX_COORD <= min_coord_on(s, d),
        max_coord_on(s, d) <= MAX_COORD,
        min_coord_on(s, d) <= max_coord_on(s, d),
        forall|i: int| 0 <= i < s.len()
            ==> min_coord_on(s, d) <= #[trigger] s[i].coord(d) <= max_coord_on(s, d),
        0 <= max_radius_of(s) <= crate::MAX_RADIUS,
        forall|i: int| 0 <= i < s.len() ==> #[trigger] s[i].radius <= max_radius_of(s),
    decreases s.len(),
{
    assert(s[0].wf());
    if s.len() > 1 {
        let t = s.drop_last();
        assert(all_wf(t)) by {
            assert(forall|i: int| 0 <= i < t.len() ==> t[i] == s[i] && #[trigger] s[i].wf());
        }
        lemma_extents(t, d);
        assert(s.last().wf());
        assert(forall|i: int| 0 <= i < s.len() - 1 ==> s[i] == t[i]);
    }
}

/// Returns the componentwise extents of a non-empty set of entities, as
/// `(x_max, x_min, y_max, y_min, z_max, z_min)`.
pub fn max_min_xyz(pts: &Vec<Entity>) -> (r: (i64, i64, i64, i64, i64, i64))
    requires
        pts@.len() >= 1,
    ensures
        r.0 == max_coord_on(pts@, Dimension::X),
        r.1 == min_coord_on(pts@, Dimension::X),
        r.2 == max_coord_on(pts@, Dimension::Y),
        r.3 == min_coord_on(pts@, Dimension::Y),
        r.4 == max_coord_on(pts@, Dimension::Z),
        r.5 == min_coord_on(pts@, Dimension::Z),
{
    let first = pts[0];
    let mut x_max = first.x;
    let mut x_min = first.x;
    let mut y_max = first.y;
    let mut y_min = first.y;
    let mut z_max = first.z;
    let mut z_min = first.z;
    let mut i: usize = 1;
    proof {
        assert(pts@.take(1).len() == 1);
        assert(pts@.take(1)[0] == pts@[0]);
    }
    while i < pts.len()
        invariant
            1 <= i <= pts@.len(),
            x_max == max_coord_on(pts@.take(i as int), Dimension::X),
            x_min == min_coord_on(pts@.take(i as int), Dimension::X),
            y_max == max_coord_on(pts@.take(i as int), Dimension::Y),
            y_min == min_coord_on(pts@.take(i as int), Dimension::Y),
            z_max == max_coord_on(pts@.take(i as int), Dimension::Z),
            z_min == min_coord_on(pts@.take(i as int), Dimension::Z),
        decreases pts@.len() - i,
    {
        let p = pts[i];
        proof {
            let t1 = pts@.take(i + 1);
            assert(t1.drop_last() =~= pts@.take(i as int));
            assert(t1.last() == pts@[i as int]);
        }
        if p.x > x_max {
            x_max = p.x;
        }
        if p.x < x_min {
            x_min = p.x;
        }
        if p.y > y_max {
            y_max = p.y;
        }
        if p.y < y_min {
            y_min = p.y;
        }
        if p.z > z_max {
            z_max = p.z;
        }
        if p.z < z_min {
            z_min = p.z;
        }
        i = i + 1;
    }
    proof {
        assert(pts@.take(pts@.len() as int) =~= pts@);
    }
    (x_max, x_min, y_max, y_min, z_max, z_min)
}

/// Returns the per-axis spans `(x span, y span, z span)` of a non-empty
/// set of entities: axis maximum minus axis minimum.
pub fn xyz_distances(pts: &Vec<Entity>) -> (r: (i64, i64, i64))
    requires
        pts@.len() >= 1,
        all_wf(pts@),
    ensures
        r.0 == max_coord_on(pts@, Dimension::X) - min_coord_on(pts@, Dimension::X),
        r.1 == max_coord_on(pts@, Dimension::Y) - min_coord_on(pts@, Dimension::Y),
        r.2 == max_coord_on(pts@, Dimension::Z) - min_coord_on(pts@, Dimension::Z),
        0 <= r.0 <= 2 * MAX_COORD,
        0 <= r.1 <= 2 * MAX_COORD,
        0 <= r.2 <= 2 * MAX_COORD,
{
    proof {
        lemma_extents(pts@, Dimension::X);
        lemma_extents(pts@, Dimension::Y);
        lemma_extents(pts@, Dimension::Z);
    }
    let (x_max, x_min, y_max, y_min, z_max, z_min) = max_min_xyz(pts);
    (x_max - x_min, y_max - y_min, z_max - z_min)
}

/// Division truncating toward zero, for a positive divisor. This is the
/// rounding every fixed-point division in the simulation uses.
pub open spec fn div_trunc(num: int, den: int) -> int
    recommends
        den > 0,
{
    if num >= 0 {
        num / den
    } else {
        -((-num) / den)
    }
}

/// A quotient is bounded by any bound on the numerator in units of the
/// denominator.
pub proof fn lemma_div_trunc_bound(num: int, den: int, c: int)
    requires
        den > 0,
        0 <= c,
        -(c * den) <= num <= c * den,
    ensures
        -c <= div_trunc(num, den) <= c,
{
    let a = if num >= 0 {
        num
    } else {
        -num
    };
    let q = a / den;
    vstd::arithmetic::div_mod::lemma_fundamental_div_mod(a, den);
    vstd::arithmetic::div_mod::lemma_mod_division_less_than_divisor(a, den);
    vstd::arithmetic::div_mod::lemma_div_pos_is_pos(a, den);
    assert(q <= c) by (nonlinear_arith)
        requires
            a == den * q + (a % den),
            0 <= a % den,
            a <= c * den,
            den > 0,
            0 <= q,
    ;
}

/// Divides `num` by the positive `den`, truncating toward zero.
pub fn div_trunc_i128(num: i128, den: i128) -> (r: i128)
    requires
        den > 0,
        num > i128::MIN,
    ensures
        r == div_trunc(num as int, den as int),
{
    if num >= 0 {
        let q: u128 = (num as u128) / (den as u128);
        proof {
            vstd::arithmetic::div_mod::lemma_div_nonincreasing(num as int, den as int);
            vstd::arithmetic::div_mod::lemma_div_pos_is_pos(num as int, den as int);
        }
        q as i128
    } else {
        let q: u128 = ((-num) as u128) / (den as u128);
        proof {
            vstd::arithmetic::div_mod::lemma_div_nonincreasing((-num) as int, den as int);
            vstd::arithmetic::div_mod::lemma_div_pos_is_pos((-num) as int, den as int);
        }
        -(q as i128)
    }
}

/// Clamps `v` into `[-bound, bound]`.
pub open spec fn spec_clamp(v: int, bound: int) -> int
    recommends
        bound >= 0,
{
    if v > bound {
        bound
    } else if v < -bound {
        -bound
    } else {
        v
    }
}

/// Clamps `v` into `[-bound, bound]`.
pub fn clamp_i128(v: i128, bound: i128) -> (r: i128)
    requires
        bound >= 0,
    ensures
        r == spec_clamp(v as int, bound as int),
{
    if v > bound {
        bound
    } else if v < -bound {
        -bound
    } else {
        v
    }
}

/// The sequence is ordered by the position coordinate on axis `d`.
pub open spec fn sorted_on(s: Seq<Entity>, d: Dimension) -> bool {
    forall|i: int, j: int|
        #![trigger s[i].coord(d), s[j].coord(d)]
        0 <= i <= j < s.len() ==> s[i].coord(d) <= s[j].coord(d)
}

/// `v` is a lower bound for the coordinate on axis `d` of every element.
pub open spec fn coord_lb(v: i64, s: Seq<Entity>, d: Dimension) -> bool {
    forall|i: int| 0 <= i < s.len() ==> v <= #[trigger] s[i].coord(d)
}

/// The merge of two sequences, preferring the left head on ties.
pub open spec fn merge_on(a: Seq<Entity>, b: Seq<Entity>, d: Dimension) -> Seq<Entity>
    decreases a.len() + b.len(),
{
    if a.len() == 0 {
        b
    } else if b.len() == 0 {
        a
    } else if a[0].coord(d) <= b[0].coord(d) {
        seq![a[0]] + merge_on(a.drop_first(), b, d)
    } else {
        seq![b[0]] + merge_on(a, b.drop_first(), d)
    }
}

/// The stable merge sort of a sequence by the coordinate on axis `d`.
pub open spec fn msort_on(s: Seq<Entity>, d: Dimension) -> Seq<Entity>
    decreases s.len(),
{
    if s.len() <= 1 {
        s
    } else {
        let mid = s.len() as int / 2;
        merge_on(msort_on(s.take(mid), d), msort_on(s.skip(mid), d), d)
    }
}

/// Merging preserves a common lower bound.
pub proof fn lemma_merge_lb(v: i64, a: Seq<Entity>, b: Seq<Entity>, d: Dimension)
    requires
        coord_lb(v, a, d),
        coord_lb(v, b, d),
    ensures
        coord_lb(v, merge_on(a, b, d), d),
    decreases a.len() + b.len(),
{
    if a.len() == 0 || b.len() == 0 {
    } else {
        assert(coord_lb(v, a.drop_first(), d)) by {
            assert(forall|i: int|
                0 <= i < a.len() - 1 ==> #[trigger] a.drop_first()[i].coord(d) == a[i + 1].coord(
                    d,
                ));
        }
        assert(coord_lb(v, b.drop_first(), d)) by {
            assert(forall|i: int|
                0 <= i < b.len() - 1 ==> #[trigger] b.drop_first()[i].coord(d) == b[i + 1].coord(
                    d,
                ));
        }
        if a[0].coord(d) <= b[0].coord(d) {
            lemma_merge_lb(v, a.drop_first(), b, d);
            let m = merge_on(a.drop_first(), b, d);
            assert(forall|i: int|
                1 <= i < merge_on(a, b, d).len() ==> #[trigger] merge_on(a, b, d)[i].coord(d) == m[
                    i - 1
                ].coord(d));
        } else {
            lemma_merge_lb(v, a, b.drop_first(), d);
            let m = merge_on(a, b.drop_first(), d);
            assert(forall|i: int|
                1 <= i < merge_on(a, b, d).len() ==> #[trigger] merge_on(a, b, d)[i].coord(d) == m[
                    i - 1
                ].coord(d));
        }
    }
}

/// Merging yields the combined length and multiset, and keeps order
/// when both inputs are ordered.
pub proof fn lemma_merge_on(a: Seq<Entity>, b: Seq<Entity>, d: Dimension)
    ensures
        merge_on(a, b, d).len() == a.len() + b.len(),
        merge_on(a, b, d).to_multiset() == a.to_multiset().add(b.to_multiset()),
        sorted_on(a, d) && sorted_on(b, d) ==> sorted_on(merge_on(a, b, d), d),
    decreases a.len() + b.len(),
{
    broadcast use vstd::seq_lib::group_to_multiset_ensures;

    let m = merge_on(a, b, d);
    if a.len() == 0 {
        assert(a.to_multiset() =~= Multiset::<Entity>::empty());
        assert(m.to_multiset() =~= a.to_multiset().add(b.to_multiset()));
    } else if b.len() == 0 {
        assert(b.to_multiset() =~= Multiset::<Entity>::empty());
        assert(m.to_multiset() =~= a.to_multiset().add(b.to_multiset()));
    } else {
        assert(sorted_on(a, d) ==> sorted_on(a.drop_first(), d)) by {
            assert(forall|i: int|
                0 <= i < a.len() - 1 ==> #[trigger] a.drop_first()[i].coord(d) == a[i + 1].coord(
                    d,
                ));
        }
        assert(sorted_on(b, d) ==> sorted_on(b.drop_first(), d)) by {
            assert(forall|i: int|
                0 <= i < b.len() - 1 ==> #[trigger] b.drop_first()[i].coord(d) == b[i + 1].coord(
                    d,
                ));
        }
        if a[0].coord(d) <= b[0].coord(d) {
            let rest = merge_on(a.drop_first(), b, d);
            lemma_merge_on(a.drop_first(), b, d);
            // multiset
            lemma_multiset_commutative(seq![a[0]], rest);
            assert(a =~= seq![a[0]] + a.drop_first());
            lemma_multiset_commutative(seq![a[0]], a.drop_first());
            assert(m.to_multiset() =~= a.to_multiset().add(b.to_multiset()));
            // sortedness
            if sorted_on(a, d) && sorted_on(b, d) {
                assert(coord_lb(a[0].coord(d), a.drop_first(), d)) by {
                    assert(forall|i: int|
                        0 <= i < a.len() - 1 ==> #[trigger] a.drop_first()[i].coord(d) == a[i
                            + 1].coord(d));
                }
                assert(coord_lb(a[0].coord(d), b, d)) by {
                    assert(forall|i: int|
                        0 <= i < b.len() ==> b[0].coord(d) <= #[trigger] b[i].coord(d));
                }
                lemma_merge_lb(a[0].coord(d), a.drop_first(), b, d);
                assert forall|i: int, j: int|
                    #![trigger m[i].coord(d), m[j].coord(d)]
                    0 <= i <= j < m.len() implies m[i].coord(d) <= m[j].coord(d) by {
                    if i == 0 {
                        if j > 0 {
                            assert(m[j] == rest[j - 1]);
                        }
                    } else {
                        assert(m[i] == rest[i - 1]);
                        assert(m[j] == rest[j - 1]);
                    }
                }
            }
        } else {
            let rest = merge_on(a, b.drop_first(), d);
            lemma_merge_on(a, b.drop_first(), d);
            lemma_multiset_commutative(seq![b[0]], rest);
            assert(b =~= seq![b[0]] + b.drop_first());
            lemma_multiset_commutative(seq![b[0]], b.drop_first());
            assert(m.to_multiset() =~= a.to_multiset().add(b.to_multiset()));
            if sorted_on(a, d) && sorted_on(b, d) {
                assert(coord_lb(b[0].coord(d), b.drop_first(), d)) by {
                    assert(forall|i: int|
                        0 <= i < b.len() - 1 ==> #[trigger] b.drop_first()[i].coord(d) == b[i
                            + 1].coord(d));
                }
                assert(coord_lb(b[0].coord(d), a, d)) by {
                    assert(forall|i: int|
                        0 <= i < a.len() ==> a[0].coord(d) <= #[trigger] a[i].coord(d));
                }
                lemma_merge_lb(b[0].coord(d), a, b.drop_first(), d);
                assert forall|i: int, j: int|
                    #![trigger m[i].coord(d), m[j].coord(d)]
                    0 <= i <= j < m.len() implies m[i].coord(d) <= m[j].coord(d) by {
                    if i == 0 {
                        if j > 0 {
                            assert(m[j] == rest[j - 1]);
                        }
                    } else {
                        assert(m[i] == rest[i - 1]);
                        assert(m[j] == rest[j - 1]);
                    }
                }
            }
        }
    }
}

/// The merge sort yields an ordered permutation of its input.
pub proof fn lemma_msort_on(s: Seq<Entity>, d: Dimension)
    ensures
        msort_on(s, d).len() == s.len(),
        msort_on(s, d).to_multiset() == s.to_multiset(),
        sorted_on(msort_on(s, d), d),
    decreases s.len(),
{
    if s.len() <= 1 {
    } else {
        let mid = s.len() as int / 2;
        lemma_msort_on(s.take(mid), d);
        lemma_msort_on(s.skip(mid), d);
        lemma_merge_on(msort_on(s.take(mid), d), msort_on(s.skip(mid), d), d);
        assert(s.take(mid) + s.skip(mid) =~= s);
        lemma_multiset_commutative(s.take(mid), s.skip(mid));
        assert(msort_on(s, d).to_multiset() =~= s.to_multiset());
    }
}

/// Sorts the entities by the coordinate on the given axis with a stable
/// merge sort.
pub fn msort(v: Vec<Entity>, dim: Dimension) -> (r: Vec<Entity>)
    requires
        dim.is_axis(),
    ensures
        r@ == msort_on(v@, dim),
    decreases v@.len(),
{
    if v.len() <= 1 {
        return v;
    }
    let ghost orig = v@;
    let mut a = v;
    let mid = a.len() / 2;
    let b = a.split_off(mid);
    let sa = msort(a, dim);
    let sb = msort(b, dim);
    proof {
        lemma_msort_on(orig.take(mid as int), dim);
        lemma_msort_on(orig.skip(mid as int), dim);
    }
    let mut out: Vec<Entity> = Vec::new();
    let mut i: usize = 0;
    let mut j: usize = 0;
    proof {
        assert(sa@.skip(0) =~= sa@);
        assert(sb@.skip(0) =~= sb@);
        assert(out@ + merge_on(sa@, sb@, dim) =~= merge_on(sa@, sb@, dim));
    }
    while i < sa.len() || j < sb.len()
        invariant
            i <= sa@.len(),
            j <= sb@.len(),
            out@ + merge_on(sa@.skip(i as int), sb@.skip(j as int), dim) == merge_on(
                sa@,
                sb@,
                dim,
            ),
            dim.is_axis(),
        decreases sa@.len() - i + sb@.len() - j,
    {
        let take_a = if j >= sb.len() {
            true
        } else if i >= sa.len() {
            false
        } else {
            sa[i].get_dim(&dim) <= sb[j].get_dim(&dim)
        };
        proof {
            let ra = sa@.skip(i as int);
            let rb = sb@.skip(j as int);
            if i < sa@.len() {
                assert(ra[0] == sa@[i as int]);
                assert(ra.drop_first() =~= sa@.skip(i + 1));
            }
            if j < sb@.len() {
                assert(rb[0] == sb@[j as int]);
                assert(rb.drop_first() =~= sb@.skip(j + 1));
            }
            if take_a {
                if j >= sb@.len() {
                    assert(rb =~= Seq::<Entity>::empty());
                    assert(merge_on(ra, rb, dim) =~= seq![sa@[i as int]] + merge_on(
                        sa@.skip(i + 1),
                        rb,
                        dim,
                    ));
                } else {
                    assert(merge_on(ra, rb, dim) == seq![sa@[i as int]] + merge_on(
                        sa@.skip(i + 1),
                        rb,
                        dim,
                    ));
                }
                assert(out@ + merge_on(ra, rb, dim) =~= (out@ + seq![sa@[i as int]]) + merge_on(
                    sa@.skip(i + 1),
                    rb,
                    dim,
                ));
                assert(out@.push(sa@[i as int]) =~= out@ + seq![sa@[i as int]]);
            } else {
                if i >= sa@.len() {
                    assert(ra =~= Seq::<Entity>::empty());
                    assert(merge_on(ra, rb, dim) =~= seq![sb@[j as int]] + merge_on(
                        ra,
                        sb@.skip(j + 1),
                        dim,
                    ));
                } else {
                    assert(merge_on(ra, rb, dim) == seq![sb@[j as int]] + merge_on(
                        ra,
                        sb@.skip(j + 1),
                        dim,
                    ));
                }
                assert(out@ + merge_on(ra, rb, dim) =~= (out@ + seq![sb@[j as int]]) + merge_on(
                    ra,
                    sb@.skip(j + 1),
                    dim,
                ));
                assert(out@.push(sb@[j as int]) =~= out@ + seq![sb@[j as int]]);
            }
        }
        if take_a {
            out.push(sa[i]);
            i = i + 1;
        } else {
            out.push(sb[j]);
            j = j + 1;
        }
    }
    proof {
        assert(sa@.skip(i as int) =~= Seq::<Entity>::empty());
        assert(sb@.skip(j as int) =~= Seq::<Entity>::empty());
        assert(merge_on(sa@.skip(i as int), sb@.skip(j as int), dim) =~= Seq::<Entity>::empty());
        assert(out@ + Seq::<Entity>::empty() =~= out@);
        assert(out@ == merge_on(sa@, sb@, dim));
    }
    out
}

/// Rearranges the entities around the median coordinate on the given
/// axis: returns the median coordinate, the lower half and the upper
/// half. The lower half holds exactly `len / 2` entities, every one of
/// them at or below the median on that axis; the upper half holds the
/// rest, every one at or above it.
pub fn find_median(dim: Dimension, pts: Vec<Entity>) -> (r: (i64, Vec<Entity>, Vec<Entity>))
    requires
        dim.is_axis(),
        pts@.len() >= 2,
        all_wf(pts@),
    ensures
        all_wf(r.1@),
        all_wf(r.2@),
        r.1@ == msort_on(pts@, dim).take(pts@.len() as int / 2),
        r.2@ == msort_on(pts@, dim).skip(pts@.len() as int / 2),
        r.0 == msort_on(pts@, dim)[pts@.len() as int / 2].coord(dim),
        r.1@.len() == pts@.len() as int / 2,
        r.2@.len() == pts@.len() - pts@.len() as int / 2,
        (r.1@ + r.2@).to_multiset() == pts@.to_multiset(),
        coord_lb(r.0, r.2@, dim),
        forall|i: int| 0 <= i < r.1@.len() ==> #[trigger] r.1@[i].coord(dim) <= r.0,
    decreases pts@.len(),
{
    let ghost orig = pts@;
    proof {
        lemma_msort_on(orig, dim);
    }
    let mut sorted = msort(pts, dim);
    let k = sorted.len() / 2;
    let med = sorted[k].get_dim(&dim);
    let upper = sorted.split_off(k);
    proof {
        let ms = msort_on(orig, dim);
        assert(sorted@ =~= ms.take(ms.len() as int / 2));
        assert(upper@ =~= ms.skip(ms.len() as int / 2));
        assert(sorted@ + upper@ =~= ms);
        lemma_msort_on(orig, dim);
        assert((sorted@ + upper@).to_multiset() == orig.to_multiset());
        let ki = ms.len() as int / 2;
        assert(forall|i: int|
            0 <= i < upper@.len() ==> #[trigger] upper@[i].coord(dim) == ms[ki + i].coord(dim));
        assert(forall|i: int|
            0 <= i < sorted@.len() ==> #[trigger] sorted@[i].coord(dim) == ms[i].coord(dim));
        assert forall|i: int| 0 <= i < ms.len() implies ms[i].wf() by {
            broadcast use vstd::seq_lib::group_to_multiset_ensures;

            assert(ms.contains(ms[i]));
            assert(orig.to_multiset().count(ms[i]) > 0);
            assert(orig.contains(ms[i]));
            let j = choose|j: int| 0 <= j < orig.len() && orig[j] == ms[i];
            assert(orig[j].wf());
        }
    }
    (med, sorted, upper)
}

} // verus!
