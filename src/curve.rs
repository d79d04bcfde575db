use vstd::arithmetic::div_mod::{lemma_div_is_ordered, lemma_div_multiples_vanish};
use vstd::prelude::*;

use crate::error::Error;

verus! {

/// Keys strictly increasing along the sequence.
pub open spec fn sorted_keys(p: Seq<(u32, u32)>) -> bool {
    forall|i: int, j: int| 0 <= i < j < p.len() ==> p[i].0 < p[j].0
}

/// A point set that can serve as a curve: sorted, with at least two points,
/// the lowest at sensor reading `0`. Its last key is the sensor maximum.
pub open spec fn valid_points(p: Seq<(u32, u32)>) -> bool {
    &&& p.len() >= 2
    &&& p[0].0 == 0
    &&& sorted_keys(p)
}

/// The largest sensor reading covered by `p`.
pub open spec fn domain_max(p: Seq<(u32, u32)>) -> int {
    p.last().0 as int
}

/// Linear interpolation through `(x0, y0)` and `(x1, y1)` at `x`, rounded down.
pub open spec fn lerp(x0: int, y0: int, x1: int, y1: int, x: int) -> int {
    (y0 * (x1 - x) + y1 * (x - x0)) / (x1 - x0)
}

/// Brightness for sensor reading `x`: the interpolation on the first segment
/// of `p` whose right end is at or beyond `x`. At a stored key this is the
/// stored value (see `lemma_lookup_bounds`).
pub open spec fn interpolate(p: Seq<(u32, u32)>, x: int) -> int
    decreases p.len(),
{
    if p.len() < 2 {
        0
    } else if x <= p[1].0 {
        lerp(p[0].0 as int, p[0].1 as int, p[1].0 as int, p[1].1 as int, x)
    } else {
        interpolate(p.drop_first(), x)
    }
}

/// `c` holds the interpolated brightness of every sensor reading `0..=domain_max(p)`.
pub open spec fn cache_matches(c: Seq<u32>, p: Seq<(u32, u32)>) -> bool {
    &&& c.len() == domain_max(p) + 1
    &&& forall|s: int| 0 <= s < c.len() ==> #[trigger] c[s] as int == interpolate(p, s)
}

/// `p` with `(key, value)` put in key order, replacing a point with the same key.
pub open spec fn insert_point(p: Seq<(u32, u32)>, key: u32, value: u32) -> Seq<(u32, u32)>
    decreases p.len(),
{
    if p.len() == 0 {
        seq![(key, value)]
    } else if key < p[0].0 {
        seq![(key, value)] + p
    } else if key == p[0].0 {
        seq![(key, value)] + p.drop_first()
    } else {
        seq![p[0]] + insert_point(p.drop_first(), key, value)
    }
}

/// The value that point `(k, v)` keeps once `(key, value)` was inserted: a point
/// other than the boundaries `0` and `sensor_max` that would stand above the new
/// point from its left, or below it from its right, is pulled to `value`.
pub open spec fn repaired_value(k: u32, v: u32, key: u32, value: u32, sensor_max: u32) -> u32 {
    if k != 0 && k != sensor_max && ((k < key && v > value) || (k > key && v < value)) {
        value
    } else {
        v
    }
}

/// `p` after the monotonic insertion of `(key, value)`.
pub open spec fn monotone_insert(p: Seq<(u32, u32)>, key: u32, value: u32, sensor_max: u32) -> Seq<
    (u32, u32),
> {
    insert_point(p, key, value).map_values(
        |e: (u32, u32)| (e.0, repaired_value(e.0, e.1, key, value, sensor_max)),
    )
}

/// Where `i` is the first position whose key is not below `key`, the insertion
/// overwrites position `i` or shifts the rest of `p` by one.
proof fn lemma_insert_point_at(p: Seq<(u32, u32)>, i: int, key: u32, value: u32)
    requires
        0 <= i <= p.len(),
        forall|j: int| 0 <= j < i ==> #[trigger] p[j].0 < key,
        i < p.len() ==> key <= p[i].0,
    ensures
        insert_point(p, key, value) == if i < p.len() && p[i].0 == key {
            p.update(i, (key, value))
        } else {
            p.insert(i, (key, value))
        },
    decreases i,
{
    if i == 0 {
        if p.len() == 0 {
            assert(p.insert(0, (key, value)) =~= seq![(key, value)]);
        } else if key < p[0].0 {
            assert(p.insert(0, (key, value)) =~= seq![(key, value)] + p);
        } else {
            assert(p.update(0, (key, value)) =~= seq![(key, value)] + p.drop_first());
        }
    } else {
        let q = p.drop_first();
        assert forall|j: int| 0 <= j < i - 1 implies #[trigger] q[j].0 < key by {
            assert(q[j] == p[j + 1]);
        }
        lemma_insert_point_at(q, i - 1, key, value);
        if i < p.len() && p[i].0 == key {
            assert(p.update(i, (key, value)) =~= seq![p[0]] + q.update(i - 1, (key, value)));
        } else {
            assert(p.insert(i, (key, value)) =~= seq![p[0]] + q.insert(i - 1, (key, value)));
        }
    }
}

/// The points whose keys are `keys` and whose values are `values`, pairwise.
pub open spec fn zip_points(keys: Seq<u32>, values: Seq<u32>) -> Seq<(u32, u32)> {
    Seq::new(keys.len(), |i: int| (keys[i], values[i]))
}

proof fn lemma_lerp_bounds(x0: int, y0: int, x1: int, y1: int, x: int)
    requires
        0 <= x0 <= x <= x1,
        x0 < x1,
        0 <= y0,
        0 <= y1,
    ensures
        y0 <= y1 ==> y0 <= lerp(x0, y0, x1, y1, x) <= y1,
        y1 <= y0 ==> y1 <= lerp(x0, y0, x1, y1, x) <= y0,
        y0 * (x1 - x) + y1 * (x - x0) <= (if y0 <= y1 { y1 } else { y0 }) * (x1 - x0),
{
    let a = x1 - x;
    let b = x - x0;
    let d = x1 - x0;
    let n = y0 * a + y1 * b;
    let lo = if y0 <= y1 { y0 } else { y1 };
    let hi = if y0 <= y1 { y1 } else { y0 };
    assert(lo * a <= y0 * a <= hi * a) by (nonlinear_arith)
        requires
            lo <= y0 <= hi,
            a >= 0,
    ;
    assert(lo * b <= y1 * b <= hi * b) by (nonlinear_arith)
        requires
            lo <= y1 <= hi,
            b >= 0,
    ;
    assert(lo * a + lo * b == d * lo && hi * a + hi * b == d * hi) by (nonlinear_arith)
        requires
            a + b == d,
    ;
    assert(n <= hi * (x1 - x0));
    lemma_div_is_ordered(d * lo, n, d);
    lemma_div_is_ordered(n, d * hi, d);
    lemma_div_multiples_vanish(lo, d);
    lemma_div_multiples_vanish(hi, d);
}

proof fn lemma_lerp_ends(x0: int, y0: int, x1: int, y1: int)
    requires
        x0 < x1,
    ensures
        lerp(x0, y0, x1, y1, x0) == y0,
        lerp(x0, y0, x1, y1, x1) == y1,
{
    let d = x1 - x0;
    assert(y0 * (x1 - x0) + y1 * (x0 - x0) == d * y0) by (nonlinear_arith)
        requires
            d == x1 - x0,
    ;
    assert(y0 * (x1 - x1) + y1 * (x1 - x0) == d * y1) by (nonlinear_arith)
        requires
            d == x1 - x0,
    ;
    lemma_div_multiples_vanish(y0, d);
    lemma_div_multiples_vanish(y1, d);
}

proof fn lemma_lerp_ordered(x0: int, y0: int, x1: int, y1: int, x: int, x2: int)
    requires
        x0 <= x <= x2 <= x1,
        x0 < x1,
        y0 <= y1,
    ensures
        lerp(x0, y0, x1, y1, x) <= lerp(x0, y0, x1, y1, x2),
{
    assert(y0 * (x1 - x) + y1 * (x - x0) <= y0 * (x1 - x2) + y1 * (x2 - x0)) by (nonlinear_arith)
        requires
            x <= x2,
            y0 <= y1,
    ;
    lemma_div_is_ordered(
        y0 * (x1 - x) + y1 * (x - x0),
        y0 * (x1 - x2) + y1 * (x2 - x0),
        x1 - x0,
    );
}

/// Within segment `i` (from `p[i]` to `p[i + 1]`) the curve is the line through its ends.
proof fn lemma_interpolate_segment(p: Seq<(u32, u32)>, i: int, x: int)
    requires
        sorted_keys(p),
        0 <= i < p.len() - 1,
        p[i].0 <= x <= p[i + 1].0,
    ensures
        interpolate(p, x) == lerp(
            p[i].0 as int,
            p[i].1 as int,
            p[i + 1].0 as int,
            p[i + 1].1 as int,
            x,
        ),
    decreases i,
{
    if i > 0 {
        if x <= p[1].0 {
            // only possible on the shared end of the first two segments
            assert(x == p[1].0 && i == 1);
            lemma_lerp_ends(p[0].0 as int, p[0].1 as int, p[1].0 as int, p[1].1 as int);
            lemma_lerp_ends(p[1].0 as int, p[1].1 as int, p[2].0 as int, p[2].1 as int);
        } else {
            let q = p.drop_first();
            assert(sorted_keys(q));
            lemma_interpolate_segment(q, i - 1, x);
        }
    }
}

/// Every reading of the domain lies on some segment.
proof fn lemma_find_segment(p: Seq<(u32, u32)>, x: int) -> (i: int)
    requires
        valid_points(p),
        0 <= x <= domain_max(p),
    ensures
        0 <= i < p.len() - 1,
        p[i].0 <= x <= p[i + 1].0,
    decreases p.len(),
{
    if x <= p[1].0 || p.len() == 2 {
        0
    } else {
        let q = p.drop_first();
        let j = lemma_find_segment(q.update(0, (0u32, q[0].1)), x);
        j + 1
    }
}

/// The interpolated brightness stays between the values of the segment's ends.
proof fn lemma_interpolate_in_segment(p: Seq<(u32, u32)>, i: int, x: int)
    requires
        sorted_keys(p),
        0 <= i < p.len() - 1,
        p[i].0 <= x <= p[i + 1].0,
    ensures
        p[i].1 <= p[i + 1].1 ==> p[i].1 <= interpolate(p, x) <= p[i + 1].1,
        p[i + 1].1 <= p[i].1 ==> p[i + 1].1 <= interpolate(p, x) <= p[i].1,
{
    lemma_interpolate_segment(p, i, x);
    lemma_lerp_bounds(p[i].0 as int, p[i].1 as int, p[i + 1].0 as int, p[i + 1].1 as int, x);
}

/// The interpolated brightness of every reading of the domain, as `u32`s, is a cache of `p`.
proof fn lemma_cache_of_fits(p: Seq<(u32, u32)>, c: Seq<u32>)
    requires
        valid_points(p),
        c == Seq::new((domain_max(p) + 1) as nat, |s: int| interpolate(p, s) as u32),
    ensures
        cache_matches(c, p),
{
    assert forall|s: int| 0 <= s < c.len() implies #[trigger] c[s] as int == interpolate(p, s) by {
        let i = lemma_find_segment(p, s);
        lemma_interpolate_in_segment(p, i, s);
    }
}

/// Values never decrease as keys increase.
pub open spec fn ordered(p: Seq<(u32, u32)>) -> bool {
    forall|i: int, j: int|
        0 <= i < p.len() && 0 <= j < p.len() && p[i].0 < p[j].0 ==> #[trigger] p[i].1 <= #[trigger] p[j].1
}

/// Values never decrease as keys increase, among the points other than the
/// boundaries `0` and `sensor_max`.
pub open spec fn interior_ordered(p: Seq<(u32, u32)>, sensor_max: u32) -> bool {
    forall|i: int, j: int|
        0 <= i < p.len() && 0 <= j < p.len() && p[i].0 < p[j].0 && p[i].0 != 0 && p[i].0
            != sensor_max && p[j].0 != 0 && p[j].0 != sensor_max ==> #[trigger] p[i].1
            <= #[trigger] p[j].1
}

/// Brightness never decreases along the cache.
pub open spec fn cache_ordered(c: Seq<u32>) -> bool {
    forall|s: int, t: int| 0 <= s <= t < c.len() ==> #[trigger] c[s] <= #[trigger] c[t]
}

/// The point of `p` that position `t` of the insertion result comes from, where
/// that point is not the inserted one.
proof fn lemma_source(p: Seq<(u32, u32)>, key: u32, value: u32, t: int) -> (s: int)
    requires
        sorted_keys(p),
        0 <= t < insert_point(p, key, value).len(),
        insert_point(p, key, value)[t].0 != key,
    ensures
        0 <= s < p.len(),
        p[s] == insert_point(p, key, value)[t],
{
    let i = lemma_position(p, key, 0);
    lemma_insert_point_at(p, i, key, value);
    if i < p.len() && p[i].0 == key {
        t
    } else if t < i {
        t
    } else {
        t - 1
    }
}

/// Facts on the insertion result: it is sorted, holds `(key, value)`, keeps
/// every other key, and each of its points comes from `p` or is the new one.
proof fn lemma_insert_shape(p: Seq<(u32, u32)>, key: u32, value: u32) -> (i: int)
    requires
        sorted_keys(p),
    ensures
        sorted_keys(insert_point(p, key, value)),
        0 <= i < insert_point(p, key, value).len(),
        insert_point(p, key, value)[i] == (key, value),
        forall|j: int| 0 <= j < i ==> #[trigger] insert_point(p, key, value)[j].0 < key,
        forall|j: int|
            0 <= j < insert_point(p, key, value).len() && j != i ==> #[trigger] insert_point(
                p,
                key,
                value,
            )[j].0 != key,
{
    let i = lemma_position(p, key, 0);
    lemma_insert_point_at(p, i, key, value);
    i
}

/// At a stored key the curve gives the stored value exactly, and between two
/// neighbouring keys it stays between the values stored at them.
pub proof fn lemma_lookup_bounds(p: Seq<(u32, u32)>, i: int, x: int)
    requires
        valid_points(p),
        0 <= i < p.len() - 1,
        p[i].0 <= x <= p[i + 1].0,
    ensures
        x == p[i].0 ==> interpolate(p, x) == p[i].1,
        x == p[i + 1].0 ==> interpolate(p, x) == p[i + 1].1,
        p[i].1 <= p[i + 1].1 ==> p[i].1 <= interpolate(p, x) <= p[i + 1].1,
        p[i + 1].1 <= p[i].1 ==> p[i + 1].1 <= interpolate(p, x) <= p[i].1,
{
    lemma_interpolate_segment(p, i, x);
    lemma_lerp_ends(p[i].0 as int, p[i].1 as int, p[i + 1].0 as int, p[i + 1].1 as int);
    lemma_lerp_bounds(p[i].0 as int, p[i].1 as int, p[i + 1].0 as int, p[i + 1].1 as int, x);
}

/// The boundary readings `0` and `sensor_max` give the values stored at them.
pub proof fn lemma_lookup_boundaries(p: Seq<(u32, u32)>)
    requires
        valid_points(p),
    ensures
        interpolate(p, 0) == p[0].1,
        interpolate(p, domain_max(p)) == p.last().1,
{
    lemma_lookup_bounds(p, 0, 0);
    lemma_lookup_bounds(p, p.len() - 2, domain_max(p));
}

/// Inserting the same point twice gives the same points, and so the same cache,
/// as inserting it once.
pub proof fn lemma_insert_idempotent(
    p: Seq<(u32, u32)>,
    key: u32,
    value: u32,
    sensor_max: u32,
    once: Seq<u32>,
    twice: Seq<u32>,
)
    requires
        valid_points(p),
        key <= domain_max(p),
        sensor_max == domain_max(p),
        cache_matches(once, monotone_insert(p, key, value, sensor_max)),
        cache_matches(
            twice,
            monotone_insert(monotone_insert(p, key, value, sensor_max), key, value, sensor_max),
        ),
    ensures
        monotone_insert(monotone_insert(p, key, value, sensor_max), key, value, sensor_max)
            == monotone_insert(p, key, value, sensor_max),
        twice == once,
{
    let q = monotone_insert(p, key, value, sensor_max);
    let base = insert_point(p, key, value);
    let i = lemma_insert_shape(p, key, value);
    assert(sorted_keys(q));
    assert forall|j: int| 0 <= j < i implies #[trigger] q[j].0 < key by {
        assert(q[j].0 == base[j].0);
    }
    lemma_insert_point_at(q, i, key, value);
    assert(q.update(i, (key, value)) =~= q);
    assert(monotone_insert(q, key, value, sensor_max) =~= q);
    assert(twice =~= once);
}

/// The points other than the boundaries stay in order through every insertion,
/// and a boundary other than the inserted key keeps its point.
pub proof fn lemma_insert_keeps_interior_order(
    p: Seq<(u32, u32)>,
    key: u32,
    value: u32,
    sensor_max: u32,
)
    requires
        valid_points(p),
        sensor_max == domain_max(p),
        key <= sensor_max,
        interior_ordered(p, sensor_max),
    ensures
        interior_ordered(monotone_insert(p, key, value, sensor_max), sensor_max),
        key != 0 ==> monotone_insert(p, key, value, sensor_max)[0] == p[0],
        key != sensor_max ==> monotone_insert(p, key, value, sensor_max).last() == p.last(),
{
    let q = monotone_insert(p, key, value, sensor_max);
    let base = insert_point(p, key, value);
    let i = lemma_insert_shape(p, key, value);
    lemma_insert_valid(p, key, value, sensor_max);
    assert forall|a: int, b: int|
        0 <= a < q.len() && 0 <= b < q.len() && q[a].0 < q[b].0 && q[a].0 != 0 && q[a].0
            != sensor_max && q[b].0 != 0 && q[b].0 != sensor_max implies #[trigger] q[a].1
        <= #[trigger] q[b].1 by {
        if a != i && b != i {
            let sa = lemma_source(p, key, value, a);
            let sb = lemma_source(p, key, value, b);
            assert(p[sa].1 <= p[sb].1);
        }
    }
    if key != 0 {
        assert(base[0] == p[0]);
    }
    if key != sensor_max {
        let l = lemma_source(p, key, value, base.len() - 1);
        assert(p[l].0 == domain_max(p));
        assert(l == p.len() - 1);
    }
}

/// On an ordered point set the brightness never decreases with the reading.
proof fn lemma_interpolate_ordered(p: Seq<(u32, u32)>, x: int, y: int)
    requires
        valid_points(p),
        ordered(p),
        0 <= x <= y <= domain_max(p),
    ensures
        interpolate(p, x) <= interpolate(p, y),
{
    let i = lemma_find_segment(p, x);
    let j = lemma_find_segment(p, y);
    assert(p[i].1 <= p[i + 1].1);
    assert(p[j].1 <= p[j + 1].1);
    lemma_interpolate_in_segment(p, i, x);
    lemma_interpolate_in_segment(p, j, y);
    if i == j {
        lemma_interpolate_segment(p, i, x);
        lemma_interpolate_segment(p, i, y);
        lemma_lerp_ordered(p[i].0 as int, p[i].1 as int, p[i + 1].0 as int, p[i + 1].1 as int, x, y);
    } else if i < j {
        if i + 1 < j {
            assert(p[i + 1].1 <= p[j].1);
        }
    } else {
        assert(p[i].0 <= p[j + 1].0);
    }
}

/// An ordered curve has an ordered cache.
pub proof fn lemma_cache_ordered(p: Seq<(u32, u32)>, c: Seq<u32>)
    requires
        valid_points(p),
        ordered(p),
        cache_matches(c, p),
    ensures
        cache_ordered(c),
{
    assert forall|s: int, t: int| 0 <= s <= t < c.len() implies #[trigger] c[s] <= #[trigger] c[t] by {
        lemma_interpolate_ordered(p, s, t);
    }
}

/// An ordered curve stays ordered, and its cache non-decreasing, after inserting
/// a value that lies between the boundary values it leaves in place.
pub proof fn lemma_insert_keeps_order(
    p: Seq<(u32, u32)>,
    key: u32,
    value: u32,
    sensor_max: u32,
    c: Seq<u32>,
)
    requires
        valid_points(p),
        sensor_max == domain_max(p),
        key <= sensor_max,
        ordered(p),
        key != 0 ==> p[0].1 <= value,
        key != sensor_max ==> value <= p.last().1,
        cache_matches(c, monotone_insert(p, key, value, sensor_max)),
    ensures
        ordered(monotone_insert(p, key, value, sensor_max)),
        cache_ordered(c),
{
    let q = monotone_insert(p, key, value, sensor_max);
    let base = insert_point(p, key, value);
    let i = lemma_insert_shape(p, key, value);
    lemma_insert_valid(p, key, value, sensor_max);
    assert(p[0].0 == 0);
    assert(p.last().0 == sensor_max);
    assert forall|a: int, b: int|
        0 <= a < q.len() && 0 <= b < q.len() && q[a].0 < q[b].0 implies #[trigger] q[a].1
        <= #[trigger] q[b].1 by {
        if a != i {
            let sa = lemma_source(p, key, value, a);
            assert(p[0].1 <= p[sa].1 || sa == 0);
            assert(p[sa].1 <= p.last().1 || sa == p.len() - 1);
        }
        if b != i {
            let sb = lemma_source(p, key, value, b);
            assert(p[0].1 <= p[sb].1 || sb == 0);
            assert(p[sb].1 <= p.last().1 || sb == p.len() - 1);
            if a != i {
                let sa = lemma_source(p, key, value, a);
                assert(p[sa].1 <= p[sb].1);
            }
        }
    }
    lemma_cache_ordered(q, c);
}

/// `p` after the monotonic insertion of each point of `ins`, in order.
pub open spec fn insert_all(p: Seq<(u32, u32)>, ins: Seq<(u32, u32)>, sensor_max: u32) -> Seq<
    (u32, u32),
>
    decreases ins.len(),
{
    if ins.len() == 0 {
        p
    } else {
        insert_all(
            monotone_insert(p, ins[0].0, ins[0].1, sensor_max),
            ins.drop_first(),
            sensor_max,
        )
    }
}

/// Through any sequence of insertions inside the domain, the points other than
/// the boundaries stay in order; so they do from a fresh two-point curve.
pub proof fn lemma_insertions_keep_interior_order(
    p: Seq<(u32, u32)>,
    ins: Seq<(u32, u32)>,
    sensor_max: u32,
)
    requires
        valid_points(p),
        sensor_max == domain_max(p),
        interior_ordered(p, sensor_max),
        forall|i: int| 0 <= i < ins.len() ==> #[trigger] ins[i].0 <= sensor_max,
    ensures
        valid_points(insert_all(p, ins, sensor_max)),
        domain_max(insert_all(p, ins, sensor_max)) == sensor_max,
        interior_ordered(insert_all(p, ins, sensor_max), sensor_max),
    decreases ins.len(),
{
    if ins.len() > 0 {
        let q = monotone_insert(p, ins[0].0, ins[0].1, sensor_max);
        lemma_insert_valid(p, ins[0].0, ins[0].1, sensor_max);
        lemma_insert_keeps_interior_order(p, ins[0].0, ins[0].1, sensor_max);
        let rest = ins.drop_first();
        assert(forall|i: int| 0 <= i < rest.len() ==> rest[i] == ins[i + 1]);
        lemma_insertions_keep_interior_order(q, rest, sensor_max);
    }
}

/// Through any sequence of insertions of interior points whose values lie
/// between the two boundary values, an ordered curve stays ordered, and the
/// cache built from the result never decreases.
pub proof fn lemma_insertions_keep_order(
    p: Seq<(u32, u32)>,
    ins: Seq<(u32, u32)>,
    sensor_max: u32,
    c: Seq<u32>,
)
    requires
        valid_points(p),
        sensor_max == domain_max(p),
        ordered(p),
        forall|i: int|
            0 <= i < ins.len() ==> 0 < #[trigger] ins[i].0 < sensor_max && p[0].1 <= ins[i].1
                <= p.last().1,
        cache_matches(c, insert_all(p, ins, sensor_max)),
    ensures
        ordered(insert_all(p, ins, sensor_max)),
        cache_ordered(c),
    decreases ins.len(),
{
    if ins.len() > 0 {
        let q = monotone_insert(p, ins[0].0, ins[0].1, sensor_max);
        lemma_insert_valid(p, ins[0].0, ins[0].1, sensor_max);
        lemma_insert_keeps_interior_order(p, ins[0].0, ins[0].1, sensor_max);
        let cq = Seq::new((sensor_max + 1) as nat, |s: int| interpolate(q, s) as u32);
        lemma_cache_of_fits(q, cq);
        lemma_insert_keeps_order(p, ins[0].0, ins[0].1, sensor_max, cq);
        let rest = ins.drop_first();
        assert(forall|i: int| 0 <= i < rest.len() ==> rest[i] == ins[i + 1]);
        lemma_insertions_keep_order(q, rest, sensor_max, c);
    } else {
        lemma_cache_ordered(p, c);
    }
}

/// Where reading `x` lies among the interior points of `p`: on point `i`, or
/// strictly inside the segment from point `i` to point `i + 1`, both interior.
proof fn lemma_interior_point(p: Seq<(u32, u32)>, x: int) -> (i: int)
    requires
        valid_points(p),
        p.len() >= 3,
        p[1].0 <= x <= p[p.len() - 2].0,
    ensures
        1 <= i <= p.len() - 2,
        x == p[i].0 ==> interpolate(p, x) == p[i].1,
        x != p[i].0 ==> {
            &&& i + 1 <= p.len() - 2
            &&& p[i].0 < x < p[i + 1].0
            &&& interpolate(p, x) == lerp(
                p[i].0 as int,
                p[i].1 as int,
                p[i + 1].0 as int,
                p[i + 1].1 as int,
                x,
            )
        },
{
    let k = lemma_find_segment(p, x);
    lemma_lookup_bounds(p, k, x);
    lemma_interpolate_segment(p, k, x);
    assert(p[p.len() - 2].0 < p[p.len() - 1].0);
    assert(p[0].0 < p[1].0);
    if x == p[k + 1].0 {
        k + 1
    } else {
        k
    }
}

/// When the points other than the boundaries are in order, the cache never
/// decreases between the lowest and the highest of those points' keys; it may
/// dip or peak only next to the boundaries.
pub proof fn lemma_interior_cache_ordered(p: Seq<(u32, u32)>, c: Seq<u32>)
    requires
        valid_points(p),
        p.len() >= 3,
        interior_ordered(p, domain_max(p) as u32),
        cache_matches(c, p),
    ensures
        forall|s: int, t: int|
            p[1].0 <= s <= t <= p[p.len() - 2].0 ==> #[trigger] c[s] <= #[trigger] c[t],
{
    let m = domain_max(p) as u32;
    assert forall|s: int, t: int| p[1].0 <= s <= t <= p[p.len() - 2].0 implies #[trigger] c[s]
        <= #[trigger] c[t] by {
        let i = lemma_interior_point(p, s);
        let j = lemma_interior_point(p, t);
        assert(c[s] as int == interpolate(p, s));
        assert(c[t] as int == interpolate(p, t));
        if s != p[i].0 {
            assert(p[i].1 <= p[i + 1].1);
            lemma_lerp_bounds(p[i].0 as int, p[i].1 as int, p[i + 1].0 as int, p[i + 1].1 as int, s);
        }
        if t != p[j].0 {
            assert(p[j].1 <= p[j + 1].1);
            lemma_lerp_bounds(p[j].0 as int, p[j].1 as int, p[j + 1].0 as int, p[j + 1].1 as int, t);
        }
        if i < j {
            if i + 1 < j {
                assert(p[i + 1].1 <= p[j].1);
            }
            assert(p[i].1 <= p[j].1);
        } else if i == j {
            if s != p[i].0 && t != p[i].0 {
                lemma_lerp_ordered(p[i].0 as int, p[i].1 as int, p[i + 1].0 as int, p[i + 1].1 as int, s, t);
            }
        } else {
            assert(p[j + 1].0 <= p[i].0);
        }
    }
}

/// Through every insertion inside the domain, a curve whose points other than
/// the boundaries are in order keeps a cache that never decreases between the
/// lowest and highest of those points' keys.
pub proof fn lemma_insert_keeps_interior_cache_order(
    p: Seq<(u32, u32)>,
    key: u32,
    value: u32,
    sensor_max: u32,
    c: Seq<u32>,
)
    requires
        valid_points(p),
        sensor_max == domain_max(p),
        key <= sensor_max,
        interior_ordered(p, sensor_max),
        cache_matches(c, monotone_insert(p, key, value, sensor_max)),
        monotone_insert(p, key, value, sensor_max).len() >= 3,
    ensures
        ({
            let q = monotone_insert(p, key, value, sensor_max);
            forall|s: int, t: int|
                q[1].0 <= s <= t <= q[q.len() - 2].0 ==> #[trigger] c[s] <= #[trigger] c[t]
        }),
{
    lemma_insert_valid(p, key, value, sensor_max);
    lemma_insert_keeps_interior_order(p, key, value, sensor_max);
    lemma_interior_cache_ordered(monotone_insert(p, key, value, sensor_max), c);
}

/// Interpolation between two points, with `a.0 <= x <= b.0`.
fn lerp_at(a: (u32, u32), b: (u32, u32), x: u32) -> (r: u32)
    requires
        a.0 <= x <= b.0,
        a.0 < b.0,
    ensures
        r == lerp(a.0 as int, a.1 as int, b.0 as int, b.1 as int, x as int),
{
    proof {
        lemma_lerp_bounds(a.0 as int, a.1 as int, b.0 as int, b.1 as int, x as int);
        let hi: int = if a.1 <= b.1 { b.1 as int } else { a.1 as int };
        let d: int = b.0 - a.0;
        assert(hi * d <= 0xffff_ffff * 0xffff_ffff) by (nonlinear_arith)
            requires
                0 <= hi <= 0xffff_ffff,
                0 <= d <= 0xffff_ffff,
        ;
        assert((a.1 as int) * ((b.0 - x) as int) <= 0xffff_ffff * 0xffff_ffff) by (nonlinear_arith)
            requires
                0 <= a.1 <= 0xffff_ffff,
                0 <= b.0 - x <= 0xffff_ffff,
        ;
        assert((b.1 as int) * ((x - a.0) as int) <= 0xffff_ffff * 0xffff_ffff) by (nonlinear_arith)
            requires
                0 <= b.1 <= 0xffff_ffff,
                0 <= x - a.0 <= 0xffff_ffff,
        ;
    }
    let left: u64 = a.1 as u64 * (b.0 - x) as u64;
    let right: u64 = b.1 as u64 * (x - a.0) as u64;
    let q: u64 = (left + right) / (b.0 - a.0) as u64;
    q as u32
}

/// The brightness of every reading `0..=domain_max(p)`, in one sweep over the segments.
fn build_cache(p: &Vec<(u32, u32)>) -> (c: Vec<u32>)
    requires
        valid_points(p@),
    ensures
        cache_matches(c@, p@),
{
    let n = p.len();
    let top = p[n - 1].0;
    let mut c: Vec<u32> = Vec::new();
    let mut seg: usize = 0;
    let mut s: u64 = 0;
    while s <= top as u64
        invariant
            valid_points(p@),
            n == p@.len(),
            top == domain_max(p@),
            s <= top + 1,
            c@.len() == s,
            0 <= seg < n - 1,
            p@[seg as int].0 <= s,
            s <= p@[seg + 1].0 + 1,
            forall|t: int| 0 <= t < s ==> #[trigger] c@[t] as int == interpolate(p@, t),
        decreases top + 1 - s,
    {
        let x = s as u32;
        if p[seg + 1].0 < x {
            seg = seg + 1;
        }
        let v = lerp_at(p[seg], p[seg + 1], x);
        proof {
            lemma_interpolate_segment(p@, seg as int, x as int);
        }
        c.push(v);
        s = s + 1;
    }
    c
}

/// The first position of `p`, from `i` on, whose key is not below `key`.
proof fn lemma_position(p: Seq<(u32, u32)>, key: u32, i: int) -> (r: int)
    requires
        0 <= i <= p.len(),
        forall|j: int| 0 <= j < i ==> #[trigger] p[j].0 < key,
    ensures
        i <= r <= p.len(),
        forall|j: int| 0 <= j < r ==> #[trigger] p[j].0 < key,
        r < p.len() ==> key <= p[r].0,
    decreases p.len() - i,
{
    if i == p.len() || key <= p[i].0 {
        i
    } else {
        lemma_position(p, key, i + 1)
    }
}

/// A monotonic insertion inside the domain keeps a valid point set over the same domain.
proof fn lemma_insert_valid(p: Seq<(u32, u32)>, key: u32, value: u32, sensor_max: u32)
    requires
        valid_points(p),
        key <= domain_max(p),
    ensures
        valid_points(monotone_insert(p, key, value, sensor_max)),
        domain_max(monotone_insert(p, key, value, sensor_max)) == domain_max(p),
{
    let i = lemma_position(p, key, 0);
    lemma_insert_point_at(p, i, key, value);
    let base = insert_point(p, key, value);
    assert(i < p.len());
    assert(sorted_keys(base));
    assert(base[0].0 == 0);
    assert(base.last() == p.last() || (base.last().0 == key && key == domain_max(p)));
}

/// Inserts `(key, value)` into the sorted `curve`, overwriting the point at `key`,
/// then pulls every point other than the boundaries `0` and `sensor_max` that
/// would peak or dip against the new point to `value`.
pub fn monotonic_insert(curve: &mut Vec<(u32, u32)>, key: u32, value: u32, sensor_max: u32)
    requires
        sorted_keys(old(curve)@),
    ensures
        final(curve)@ == monotone_insert(old(curve)@, key, value, sensor_max),
        sorted_keys(final(curve)@),
{
    let ghost p = curve@;
    let n = curve.len();
    let mut i: usize = 0;
    while i < n && curve[i].0 < key
        invariant
            curve@ == p,
            n == p.len(),
            i <= n,
            forall|j: int| 0 <= j < i ==> #[trigger] p[j].0 < key,
        decreases n - i,
    {
        i = i + 1;
    }
    proof {
        lemma_insert_point_at(p, i as int, key, value);
    }
    if i < n && curve[i].0 == key {
        curve.set(i, (key, value));
    } else {
        curve.insert(i, (key, value));
    }
    let ghost base = curve@;
    assert(base == insert_point(p, key, value));
    assert(sorted_keys(base));
    let m = curve.len();
    let mut j: usize = 0;
    while j < m
        invariant
            m == base.len(),
            curve@.len() == m,
            j <= m,
            forall|t: int|
                0 <= t < j ==> #[trigger] curve@[t] == (
                    base[t].0,
                    repaired_value(base[t].0, base[t].1, key, value, sensor_max),
                ),
            forall|t: int| j <= t < m ==> #[trigger] curve@[t] == base[t],
        decreases m - j,
    {
        let (k, v) = curve[j];
        if k != 0 && k != sensor_max && ((k < key && v > value) || (k > key && v < value)) {
            curve.set(j, (k, value));
        }
        j = j + 1;
    }
    assert(curve@ =~= monotone_insert(p, key, value, sensor_max));
}

/// Point lookup with linear interpolation between stored points.
pub trait Interpolate {
    /// The brightness at sensor reading `x`.
    fn search_interpolate(&self, x: &u32) -> Result<u32, Error>;
}

/// Insertion that keeps brightness non-decreasing in ambient light.
pub trait Monotonic {
    /// Inserts `(key, value)` and repairs the points that would peak or dip against it.
    fn add(&mut self, key: u32, value: u32, sensor_max: u32) -> Result<(), Error>;
}

/// Brightness as a function of ambient light: sorted points `(sensor, brightness)`
/// and the brightness of every sensor reading, rebuilt on each change of the points.
///
/// The points sit in a `Vec` kept in strictly increasing key order, so keys stay
/// unique as in an ordered map, while interpolation reaches a point's neighbours
/// by index and the repair after an insertion updates values in place.
pub struct Curve {
    points: Vec<(u32, u32)>,
    cache: Vec<u32>,
}

impl View for Curve {
    type V = Seq<(u32, u32)>;

    closed spec fn view(&self) -> Seq<(u32, u32)> {
        self.points@
    }
}

impl Curve {
    #[verifier::type_invariant]
    spec fn well_formed(self) -> bool {
        &&& valid_points(self.points@)
        &&& cache_matches(self.cache@, self.points@)
    }

    /// The brightness of every sensor reading, indexed by reading.
    pub closed spec fn cache_view(&self) -> Seq<u32> {
        self.cache@
    }

    /// The two-point curve from `(0, min_brightness)` to `(sensor_max, device_max)`.
    pub fn new(sensor_max: u32, min_brightness: u32, device_max: u32) -> (r: Result<Curve, Error>)
        ensures
            sensor_max == 0 <==> r is Err,
            r is Err ==> r == Err::<Curve, Error>(Error::Config),
            r matches Ok(c) ==> c@ == seq![(0u32, min_brightness), (sensor_max, device_max)],
    {
        if sensor_max == 0 {
            return Err(Error::Config);
        }
        let mut points: Vec<(u32, u32)> = Vec::new();
        points.push((0, min_brightness));
        points.push((sensor_max, device_max));
        let cache = build_cache(&points);
        Ok(Curve { points, cache })
    }

    /// The curve stored as `keys` and `values`, which must pair up, start at
    /// key `0`, rise strictly and end at `sensor_max`.
    pub fn from_points(keys: &Vec<u32>, values: &Vec<u32>, sensor_max: u32) -> (r: Result<
        Curve,
        Error,
    >)
        ensures
            (keys@.len() == values@.len() && valid_points(zip_points(keys@, values@))
                && domain_max(zip_points(keys@, values@)) == sensor_max) <==> r is Ok,
            r matches Ok(c) ==> c@ == zip_points(keys@, values@),
            r is Err ==> r == Err::<Curve, Error>(Error::Config),
    {
        let n = keys.len();
        if n != values.len() || n < 2 || keys[0] != 0 || keys[n - 1] != sensor_max {
            return Err(Error::Config);
        }
        let mut points: Vec<(u32, u32)> = Vec::new();
        let mut i: usize = 0;
        while i < n
            invariant
                n == keys@.len(),
                n == values@.len(),
                i <= n,
                points@ == zip_points(keys@, values@).subrange(0, i as int),
                sorted_keys(points@),
            decreases n - i,
        {
            if i > 0 && keys[i - 1] >= keys[i] {
                assert(!sorted_keys(zip_points(keys@, values@))) by {
                    let z = zip_points(keys@, values@);
                    assert(z[i - 1].0 >= z[i as int].0);
                }
                return Err(Error::Config);
            }
            proof {
                if i > 0 {
                    assert forall|j: int| 0 <= j < i implies #[trigger] points@[j].0 < keys@[i as int] by {
                        if j < i - 1 {
                            assert(points@[j].0 < points@[i - 1].0);
                        }
                    }
                }
            }
            points.push((keys[i], values[i]));
            i = i + 1;
        }
        assert(points@ =~= zip_points(keys@, values@));
        let cache = build_cache(&points);
        Ok(Curve { points, cache })
    }

    /// The keys of the points, in order.
    pub fn keys(&self) -> (r: Vec<u32>)
        ensures
            r@ == self@.map_values(|e: (u32, u32)| e.0),
    {
        let n = self.points.len();
        let mut r: Vec<u32> = Vec::new();
        let mut i: usize = 0;
        while i < n
            invariant
                n == self@.len(),
                i <= n,
                r@ == self@.subrange(0, i as int).map_values(|e: (u32, u32)| e.0),
            decreases n - i,
        {
            r.push(self.points[i].0);
            i = i + 1;
            assert(r@ =~= self@.subrange(0, i as int).map_values(|e: (u32, u32)| e.0));
        }
        assert(self@.subrange(0, n as int) =~= self@);
        r
    }

    /// The values of the points, in key order.
    pub fn values(&self) -> (r: Vec<u32>)
        ensures
            r@ == self@.map_values(|e: (u32, u32)| e.1),
    {
        let n = self.points.len();
        let mut r: Vec<u32> = Vec::new();
        let mut i: usize = 0;
        while i < n
            invariant
                n == self@.len(),
                i <= n,
                r@ == self@.subrange(0, i as int).map_values(|e: (u32, u32)| e.1),
            decreases n - i,
        {
            r.push(self.points[i].1);
            i = i + 1;
            assert(r@ =~= self@.subrange(0, i as int).map_values(|e: (u32, u32)| e.1));
        }
        assert(self@.subrange(0, n as int) =~= self@);
        r
    }

    /// The sorted points of the curve.
    pub fn points(&self) -> (r: &Vec<(u32, u32)>)
        ensures
            r@ == self@,
            valid_points(self@),
    {
        proof {
            use_type_invariant(self);
        }
        &self.points
    }

    /// The brightness of every sensor reading `0..=sensor_max`.
    pub fn cache(&self) -> (r: &Vec<u32>)
        ensures
            r@ == self.cache_view(),
            cache_matches(self.cache_view(), self@),
    {
        proof {
            use_type_invariant(self);
        }
        &self.cache
    }

    /// The largest sensor reading the curve covers.
    pub fn sensor_max(&self) -> (r: u32)
        ensures
            r == domain_max(self@),
            valid_points(self@),
    {
        proof {
            use_type_invariant(self);
        }
        self.points[self.points.len() - 1].0
    }

    /// The brightness for sensor reading `x`, read from the cache.
    pub fn lookup(&self, x: u32) -> (r: Result<u32, Error>)
        ensures
            x <= domain_max(self@) ==> (r matches Ok(v) && v == interpolate(self@, x as int)),
            x > domain_max(self@) ==> r == Err::<u32, Error>(Error::OutOfRange),
    {
        proof {
            use_type_invariant(self);
        }
        if x as usize >= self.cache.len() {
            return Err(Error::OutOfRange);
        }
        Ok(self.cache[x as usize])
    }
}

impl Interpolate for Curve {
    /// The brightness at `x`, interpolated from the stored points; readings past
    /// the sensor maximum are out of range.
    fn search_interpolate(&self, x: &u32) -> (r: Result<u32, Error>)
        ensures
            *x <= domain_max(self@) ==> (r matches Ok(v) && v == interpolate(self@, *x as int)),
            *x > domain_max(self@) ==> r == Err::<u32, Error>(Error::OutOfRange),
    {
        proof {
            use_type_invariant(self);
        }
        let x = *x;
        let n = self.points.len();
        if x > self.points[n - 1].0 {
            return Err(Error::OutOfRange);
        }
        let mut i: usize = 0;
        while self.points[i + 1].0 < x
            invariant
                valid_points(self@),
                n == self@.len(),
                0 <= i < n - 1,
                self@[i as int].0 <= x <= domain_max(self@),
            decreases n - i,
        {
            i = i + 1;
        }
        proof {
            lemma_interpolate_segment(self@, i as int, x as int);
        }
        Ok(lerp_at(self.points[i], self.points[i + 1], x))
    }
}

impl Monotonic for Curve {
    /// Inserts `(key, value)` as `monotonic_insert` does and rebuilds the cache.
    /// `key` must lie in the domain and `sensor_max` must be its upper end.
    fn add(&mut self, key: u32, value: u32, sensor_max: u32) -> (r: Result<(), Error>)
        ensures
            (key <= domain_max(old(self)@) && sensor_max == domain_max(old(self)@)) <==> r is Ok,
            r is Ok ==> final(self)@ == monotone_insert(old(self)@, key, value, sensor_max),
            r is Err ==> r == Err::<(), Error>(Error::OutOfRange) && *final(self) == *old(self),
            cache_matches(final(self).cache_view(), final(self)@),
    {
        proof {
            use_type_invariant(&*self);
        }
        let n = self.points.len();
        let top = self.points[n - 1].0;
        if key > top || sensor_max != top {
            return Err(Error::OutOfRange);
        }
        let mut points: Vec<(u32, u32)> = Vec::new();
        let mut i: usize = 0;
        while i < n
            invariant
                n == self@.len(),
                i <= n,
                points@ == self@.subrange(0, i as int),
            decreases n - i,
        {
            points.push(self.points[i]);
            i = i + 1;
        }
        assert(points@ =~= self@);
        monotonic_insert(&mut points, key, value, sensor_max);
        proof {
            lemma_insert_valid(self@, key, value, sensor_max);
        }
        let cache = build_cache(&points);
        *self = Curve { points, cache };
        Ok(())
    }
}

} // verus!
