//! Why the diagram does not depend on the order in which sites arrive.
//!
//! Every site cuts a bisector in a way that depends on the bisector's line
//! alone, never on its present bounds: it removes all of it, keeps all of it,
//! or bounds it above or below at a fixed parameter. Trimming against a
//! sequence of sites therefore ends in a state fixed by the set of sites.
use vstd::prelude::*;
use crate::edge::{trim_step, trim_upto, PointId, TrimmedEdge, VoronoiEdge};
use crate::graph::{lemma_diagram_members, pair_edge, VoronoiGraph};
use crate::geometry::Point;
use crate::rational::{abs, gcd, reduced_denom, reduced_numer, Rational};

verus! {

/// `q` removes the whole bisector of `e`.
pub open spec fn kills(e: VoronoiEdge, q: Point) -> bool {
    &&& e.t_nearest(q) == 0
    &&& !(e.d_nearest(q) * e.d_nearest(q) > e.min_dist_sq() * e.min_dist_sq())
}

/// `q` bounds the bisector of `e` from below.
pub open spec fn is_lower(e: VoronoiEdge, q: Point) -> bool {
    e.t_nearest(q) < 0
}

/// `q` bounds the bisector of `e` from above.
pub open spec fn is_upper(e: VoronoiEdge, q: Point) -> bool {
    e.t_nearest(q) > 0
}

/// The sites of `ps` leave nothing of the bisector of `e`: one of them
/// removes it all, or an upper cut lies at or below a lower one.
pub open spec fn removed(e: VoronoiEdge, ps: Set<Point>) -> bool {
    ||| exists|q: Point| #[trigger] ps.contains(q) && kills(e, q)
    ||| exists|q1: Point, q2: Point|
        #[trigger] ps.contains(q1) && #[trigger] ps.contains(q2) && is_lower(e, q1) && is_upper(e, q2)
            && e.cut_value(q2).le(e.cut_value(q1))
}

/// `lo` is the greatest lower cut of the sites `ps`, none if there is none.
pub open spec fn lower_bound_of(e: VoronoiEdge, ps: Set<Point>, lo: Option<Rational>) -> bool {
    match lo {
        None => forall|q: Point| #[trigger] ps.contains(q) ==> !is_lower(e, q),
        Some(v) => {
            &&& exists|q: Point| #[trigger] ps.contains(q) && is_lower(e, q) && e.cut_value(q) == v
            &&& forall|q: Point| #[trigger] ps.contains(q) && is_lower(e, q) ==> e.cut_value(q).le(v)
        },
    }
}

/// `hi` is the least upper cut of the sites `ps`, none if there is none.
pub open spec fn upper_bound_of(e: VoronoiEdge, ps: Set<Point>, hi: Option<Rational>) -> bool {
    match hi {
        None => forall|q: Point| #[trigger] ps.contains(q) ==> !is_upper(e, q),
        Some(v) => {
            &&& exists|q: Point| #[trigger] ps.contains(q) && is_upper(e, q) && e.cut_value(q) == v
            &&& forall|q: Point| #[trigger] ps.contains(q) && is_upper(e, q) ==> v.le(e.cut_value(q))
        },
    }
}

/// `r` is what is left of the bisector of `e` once cut by every site of `ps`.
pub open spec fn trimmed_by_set(e: VoronoiEdge, ps: Set<Point>, r: Option<VoronoiEdge>) -> bool {
    match r {
        None => removed(e, ps),
        Some(x) => {
            &&& !removed(e, ps)
            &&& x == e.with_bounds(x.min_t, x.max_t)
            &&& lower_bound_of(e, ps, x.min_t)
            &&& upper_bound_of(e, ps, x.max_t)
        },
    }
}

/// The sites among the first `k` of `s` that are not the edge's own.
pub open spec fn probes(e: VoronoiEdge, s: Seq<Point>, k: int) -> Set<Point> {
    Set::new(
        |q: Point|
            exists|i: int| 0 <= i < k && i != e.points[0] && i != e.points[1] && #[trigger] s[i] == q,
    )
}

proof fn lemma_gcd_bounded(x: nat, y: nat)
    requires
        y > 0,
    ensures
        0 < gcd(x, y) <= y,
    decreases y,
{
    if x % y != 0 {
        lemma_gcd_bounded(y, x % y);
    } else {
        assert(gcd(y, 0) == y);
    }
}

/// Of rationals with positive denominators, `<=` is transitive.
proof fn lemma_le_trans(a: Rational, b: Rational, c: Rational)
    requires
        a.wf(),
        b.wf(),
        c.wf(),
        a.le(b),
        b.le(c),
    ensures
        a.le(c),
{
    let (an, ad, bn, bd, cn, cd) = (
        a.numer as int,
        a.denom as int,
        b.numer as int,
        b.denom as int,
        c.numer as int,
        c.denom as int,
    );
    assert(an * bd * cd <= bn * ad * cd) by (nonlinear_arith)
        requires an * bd <= bn * ad, cd > 0;
    assert(bn * cd * ad <= cn * bd * ad) by (nonlinear_arith)
        requires bn * cd <= cn * bd, ad > 0;
    assert(an * cd <= cn * ad) by (nonlinear_arith)
        requires an * bd * cd <= bn * ad * cd, bn * cd * ad <= cn * bd * ad, bd > 0;
}

/// A site off the edge's perpendicular cuts it at a parameter with a
/// positive denominator.
proof fn lemma_cut_wf(e: VoronoiEdge, q: Point)
    requires
        e.wf(),
        q.in_range(),
    ensures
        e.t_nearest(q) != 0 ==> e.cut_value(q).wf(),
{
    if e.t_nearest(q) != 0 {
        crate::edge::lemma_trim_magnitudes(
            e.mul_dir.x as int,
            e.mul_dir.y as int,
            e.diff_x(q),
            e.diff_y(q),
        );
        let t = e.t_nearest(q);
        let d = e.d_nearest(q);
        let m = e.min_dist_sq();
        let den = 4 * t * m;
        lemma_gcd_bounded(abs(t * t + d * d - m * m), abs(den));
        let g = gcd(abs(t * t + d * d - m * m), abs(den)) as int;
        let x = abs(den) as int;
        assert(x / g >= 1) by (nonlinear_arith)
            requires 0 < g <= x;
        assert(x / g <= x) by (nonlinear_arith)
            requires 0 < g <= x;
        assert(reduced_denom(t * t + d * d - m * m, den) == x / g);
    }
}

/// One more site either joins the probes or is one of the edge's own.
proof fn lemma_probes_step(e: VoronoiEdge, s: Seq<Point>, k: int)
    requires
        0 <= k < s.len(),
    ensures
        (k == e.points[0] || k == e.points[1]) ==> probes(e, s, k + 1) == probes(e, s, k),
        !(k == e.points[0] || k == e.points[1]) ==> probes(e, s, k + 1) == probes(e, s, k).insert(s[k]),
{
    let p0 = probes(e, s, k);
    let p1 = probes(e, s, k + 1);
    assert forall|q: Point| p0.contains(q) implies p1.contains(q) by {
        let i = choose|i: int| 0 <= i < k && i != e.points[0] && i != e.points[1] && #[trigger] s[i] == q;
        assert(0 <= i < k + 1 && i != e.points[0] && i != e.points[1] && s[i] == q);
    }
    assert forall|q: Point| p1.contains(q) && q != s[k] implies p0.contains(q) by {
        let i = choose|i: int| 0 <= i < k + 1 && i != e.points[0] && i != e.points[1] && #[trigger] s[i] == q;
        assert(0 <= i < k && i != e.points[0] && i != e.points[1] && s[i] == q);
    }
    if k == e.points[0] || k == e.points[1] {
        assert forall|q: Point| p1.contains(q) implies p0.contains(q) by {
            let i = choose|i: int| 0 <= i < k + 1 && i != e.points[0] && i != e.points[1] && #[trigger] s[i] == q;
            assert(0 <= i < k && i != e.points[0] && i != e.points[1] && s[i] == q);
        }
        assert(p1 =~= p0);
    } else {
        assert(0 <= k < k + 1 && k != e.points[0] && k != e.points[1] && s[k] == s[k]);
        assert(p1.contains(s[k]));
        assert(p1 =~= p0.insert(s[k]));
    }
}

/// Every probe is a site of `s`.
proof fn lemma_probes_in_range(e: VoronoiEdge, s: Seq<Point>, k: int, q: Point)
    requires
        forall|i: int| 0 <= i < s.len() ==> (#[trigger] s[i]).in_range(),
        k <= s.len(),
        probes(e, s, k).contains(q),
    ensures
        q.in_range(),
{
    let i = choose|i: int| 0 <= i < k && i != e.points[0] && i != e.points[1] && #[trigger] s[i] == q;
    assert(s[i].in_range());
}

/// A site that is neither a lower nor an upper cut and removes nothing
/// changes nothing.
proof fn lemma_neutral_probe(e: VoronoiEdge, ps: Set<Point>, q: Point, lo: Option<Rational>, hi: Option<Rational>)
    requires
        !removed(e, ps),
        lower_bound_of(e, ps, lo),
        upper_bound_of(e, ps, hi),
        e.t_nearest(q) == 0,
        !kills(e, q),
    ensures
        !removed(e, ps.insert(q)),
        lower_bound_of(e, ps.insert(q), lo),
        upper_bound_of(e, ps.insert(q), hi),
{
    let ps1 = ps.insert(q);
    if removed(e, ps1) {
        if exists|z: Point| #[trigger] ps1.contains(z) && kills(e, z) {
            let z = choose|z: Point| #[trigger] ps1.contains(z) && kills(e, z);
            assert(ps.contains(z) && kills(e, z));
        } else {
            let (q1, q2) = choose|q1: Point, q2: Point|
                #[trigger] ps1.contains(q1) && #[trigger] ps1.contains(q2) && is_lower(e, q1) && is_upper(e, q2)
                    && e.cut_value(q2).le(e.cut_value(q1));
            assert(ps.contains(q1) && ps.contains(q2));
        }
    }
    match lo {
        Some(v) => {
            let w = choose|z: Point| #[trigger] ps.contains(z) && is_lower(e, z) && e.cut_value(z) == v;
            assert(ps1.contains(w));
        },
        None => {},
    }
    match hi {
        Some(v) => {
            let w = choose|z: Point| #[trigger] ps.contains(z) && is_upper(e, z) && e.cut_value(z) == v;
            assert(ps1.contains(w));
        },
        None => {},
    }
}

/// What an upper cut by `q` does to the state left by the sites `ps`.
proof fn lemma_upper_probe(e: VoronoiEdge, ps: Set<Point>, q: Point, lo: Option<Rational>, hi: Option<Rational>)
    requires
        e.wf(),
        forall|z: Point| #[trigger] ps.contains(z) ==> z.in_range(),
        q.in_range(),
        !removed(e, ps),
        lower_bound_of(e, ps, lo),
        upper_bound_of(e, ps, hi),
        e.t_nearest(q) > 0,
    ensures
        trimmed_by_set(
            e,
            ps.insert(q),
            match e.with_bounds(lo, hi).cut_max_spec(e.cut_value(q)) {
                TrimmedEdge::Keep => Some(e.with_bounds(lo, hi)),
                TrimmedEdge::Filter => None,
                TrimmedEdge::Trimmed(y) => Some(y),
            },
        ),
{
    let ps1 = ps.insert(q);
    let c = e.cut_value(q);
    lemma_cut_wf(e, q);
    assert(ps1.contains(q));
    if lo is Some && c.le(lo->0) {
        let v = lo->0;
        let w = choose|z: Point| #[trigger] ps.contains(z) && is_lower(e, z) && e.cut_value(z) == v;
        assert(ps1.contains(w) && ps1.contains(q) && is_lower(e, w) && is_upper(e, q) && e.cut_value(q).le(
            e.cut_value(w),
        ));
    } else {
        if removed(e, ps1) {
            if exists|z: Point| #[trigger] ps1.contains(z) && kills(e, z) {
                let z = choose|z: Point| #[trigger] ps1.contains(z) && kills(e, z);
                assert(ps.contains(z) && kills(e, z));
            } else {
                let (q1, q2) = choose|q1: Point, q2: Point|
                    #[trigger] ps1.contains(q1) && #[trigger] ps1.contains(q2) && is_lower(e, q1) && is_upper(e, q2)
                        && e.cut_value(q2).le(e.cut_value(q1));
                assert(ps.contains(q1));
                if q2 == q {
                    let v = lo->0;
                    let w = choose|z: Point| #[trigger] ps.contains(z) && is_lower(e, z) && e.cut_value(z) == v;
                    lemma_cut_wf(e, q1);
                    lemma_cut_wf(e, w);
                    lemma_le_trans(c, e.cut_value(q1), v);
                } else {
                    assert(ps.contains(q2));
                }
            }
        }
        match lo {
            Some(v) => {
                let w = choose|z: Point| #[trigger] ps.contains(z) && is_lower(e, z) && e.cut_value(z) == v;
                assert(ps1.contains(w));
            },
            None => {},
        }
        if hi is Some && hi->0.le(c) {
            let v = hi->0;
            let w = choose|z: Point| #[trigger] ps.contains(z) && is_upper(e, z) && e.cut_value(z) == v;
            assert(ps1.contains(w));
        } else {
            assert forall|z: Point| #[trigger] ps1.contains(z) && is_upper(e, z) implies c.le(e.cut_value(z)) by {
                if z != q {
                    let v = hi->0;
                    let w = choose|y: Point| #[trigger] ps.contains(y) && is_upper(e, y) && e.cut_value(y) == v;
                    lemma_cut_wf(e, z);
                    lemma_cut_wf(e, w);
                    lemma_le_trans(c, v, e.cut_value(z));
                }
            }
        }
    }
}

/// What a lower cut by `q` does to the state left by the sites `ps`.
proof fn lemma_lower_probe(e: VoronoiEdge, ps: Set<Point>, q: Point, lo: Option<Rational>, hi: Option<Rational>)
    requires
        e.wf(),
        forall|z: Point| #[trigger] ps.contains(z) ==> z.in_range(),
        q.in_range(),
        !removed(e, ps),
        lower_bound_of(e, ps, lo),
        upper_bound_of(e, ps, hi),
        e.t_nearest(q) < 0,
    ensures
        trimmed_by_set(
            e,
            ps.insert(q),
            match e.with_bounds(lo, hi).cut_min_spec(e.cut_value(q)) {
                TrimmedEdge::Keep => Some(e.with_bounds(lo, hi)),
                TrimmedEdge::Filter => None,
                TrimmedEdge::Trimmed(y) => Some(y),
            },
        ),
{
    let ps1 = ps.insert(q);
    let c = e.cut_value(q);
    lemma_cut_wf(e, q);
    assert(ps1.contains(q));
    if hi is Some && hi->0.le(c) {
        let v = hi->0;
        let w = choose|z: Point| #[trigger] ps.contains(z) && is_upper(e, z) && e.cut_value(z) == v;
        assert(ps1.contains(q) && ps1.contains(w) && is_lower(e, q) && is_upper(e, w) && e.cut_value(w).le(
            e.cut_value(q),
        ));
    } else {
        if removed(e, ps1) {
            if exists|z: Point| #[trigger] ps1.contains(z) && kills(e, z) {
                let z = choose|z: Point| #[trigger] ps1.contains(z) && kills(e, z);
                assert(ps.contains(z) && kills(e, z));
            } else {
                let (q1, q2) = choose|q1: Point, q2: Point|
                    #[trigger] ps1.contains(q1) && #[trigger] ps1.contains(q2) && is_lower(e, q1) && is_upper(e, q2)
                        && e.cut_value(q2).le(e.cut_value(q1));
                assert(ps.contains(q2));
                if q1 == q {
                    let v = hi->0;
                    let w = choose|z: Point| #[trigger] ps.contains(z) && is_upper(e, z) && e.cut_value(z) == v;
                    lemma_cut_wf(e, q2);
                    lemma_cut_wf(e, w);
                    lemma_le_trans(v, e.cut_value(q2), c);
                } else {
                    assert(ps.contains(q1));
                }
            }
        }
        match hi {
            Some(v) => {
                let w = choose|z: Point| #[trigger] ps.contains(z) && is_upper(e, z) && e.cut_value(z) == v;
                assert(ps1.contains(w));
            },
            None => {},
        }
        if lo is Some && c.le(lo->0) {
            let v = lo->0;
            let w = choose|z: Point| #[trigger] ps.contains(z) && is_lower(e, z) && e.cut_value(z) == v;
            assert(ps1.contains(w));
        } else {
            assert forall|z: Point| #[trigger] ps1.contains(z) && is_lower(e, z) implies e.cut_value(z).le(c) by {
                if z != q {
                    let v = lo->0;
                    let w = choose|y: Point| #[trigger] ps.contains(y) && is_lower(e, y) && e.cut_value(y) == v;
                    lemma_cut_wf(e, z);
                    lemma_cut_wf(e, w);
                    lemma_le_trans(e.cut_value(z), v, c);
                }
            }
        }
    }
}

/// Trimming a full bisector against the first `k` sites of `s` leaves what
/// the set of those sites (the edge's own excepted) determines.
proof fn lemma_trim_upto_closed(e: VoronoiEdge, s: Seq<Point>, k: int)
    requires
        e.wf(),
        e.min_t is None,
        e.max_t is None,
        0 <= k <= s.len(),
        forall|i: int| 0 <= i < s.len() ==> (#[trigger] s[i]).in_range(),
    ensures
        trimmed_by_set(e, probes(e, s, k), trim_upto(Some(e), s, k)),
    decreases k,
{
    if k == 0 {
        assert(probes(e, s, 0) =~= Set::<Point>::empty());
        assert(e == e.with_bounds(None, None));
    } else {
        let j = k - 1;
        lemma_trim_upto_closed(e, s, j);
        lemma_probes_step(e, s, j);
        let ps = probes(e, s, j);
        let q = s[j];
        let r0 = trim_upto(Some(e), s, j);
        assert(trim_upto(Some(e), s, k) == trim_step(r0, q, j));
        assert forall|z: Point| #[trigger] ps.contains(z) implies z.in_range() by {
            lemma_probes_in_range(e, s, j, z);
        }
        if j != e.points[0] && j != e.points[1] {
            if let Some(x) = r0 {
                let lo = x.min_t;
                let hi = x.max_t;
                assert(x.t_nearest(q) == e.t_nearest(q));
                assert(x.cut_value(q) == e.cut_value(q));
                if e.t_nearest(q) == 0 {
                    if !kills(e, q) {
                        lemma_neutral_probe(e, ps, q, lo, hi);
                    } else {
                        assert(probes(e, s, k).contains(q));
                    }
                } else if e.t_nearest(q) > 0 {
                    lemma_upper_probe(e, ps, q, lo, hi);
                } else {
                    lemma_lower_probe(e, ps, q, lo, hi);
                }
            } else {
                let ps1 = ps.insert(q);
                if exists|z: Point| #[trigger] ps.contains(z) && kills(e, z) {
                    let z = choose|z: Point| #[trigger] ps.contains(z) && kills(e, z);
                    assert(ps1.contains(z));
                } else {
                    let (q1, q2) = choose|q1: Point, q2: Point|
                        #[trigger] ps.contains(q1) && #[trigger] ps.contains(q2) && is_lower(e, q1) && is_upper(
                            e,
                            q2,
                        ) && e.cut_value(q2).le(e.cut_value(q1));
                    assert(ps1.contains(q1) && ps1.contains(q2));
                }
            }
        }
    }
}

/// Two optional bounds that are both absent, or both present with the same value.
pub open spec fn same_bound(u: Option<Rational>, v: Option<Rational>) -> bool {
    match (u, v) {
        (None, None) => true,
        (Some(a), Some(b)) => a.same_value(b),
        _ => false,
    }
}

/// Two optional bounds that are both absent, or both present with opposite values.
pub open spec fn opposite_bound(u: Option<Rational>, v: Option<Rational>) -> bool {
    match (u, v) {
        (None, None) => true,
        (Some(a), Some(b)) => a.numer * b.denom == -(b.numer * a.denom),
        _ => false,
    }
}

/// Both edges are gone, or both survive with bounds of the same values.
pub open spec fn same_edge(x: Option<VoronoiEdge>, y: Option<VoronoiEdge>) -> bool {
    match (x, y) {
        (None, None) => true,
        (Some(a), Some(b)) => same_bound(a.min_t, b.min_t) && same_bound(a.max_t, b.max_t),
        _ => false,
    }
}

/// Both edges are gone, or both survive and are the same segment of the
/// line traversed the other way: each one's lower bound is the other's
/// upper bound negated.
pub open spec fn mirrored_edge(x: Option<VoronoiEdge>, y: Option<VoronoiEdge>) -> bool {
    match (x, y) {
        (None, None) => true,
        (Some(a), Some(b)) => opposite_bound(a.min_t, b.max_t) && opposite_bound(a.max_t, b.min_t),
        _ => false,
    }
}

/// The two edges lie on the same line, with the same parametrisation.
pub open spec fn same_line(e1: VoronoiEdge, e2: VoronoiEdge) -> bool {
    &&& e1.double_point == e2.double_point
    &&& e1.mul_dir == e2.mul_dir
}

/// The two edges lie on the same line, traversed in opposite directions.
pub open spec fn reversed_line(e1: VoronoiEdge, e2: VoronoiEdge) -> bool {
    &&& e1.double_point == e2.double_point
    &&& e2.mul_dir.x == -e1.mul_dir.x
    &&& e2.mul_dir.y == -e1.mul_dir.y
}

/// The state left by a set of sites is unique up to the values of its bounds.
proof fn lemma_closed_same(e1: VoronoiEdge, e2: VoronoiEdge, ps: Set<Point>, r1: Option<VoronoiEdge>, r2: Option<VoronoiEdge>)
    requires
        same_line(e1, e2),
        trimmed_by_set(e1, ps, r1),
        trimmed_by_set(e2, ps, r2),
    ensures
        same_edge(r1, r2),
{
    assert forall|q: Point| #![auto]
        kills(e1, q) == kills(e2, q) && is_lower(e1, q) == is_lower(e2, q) && is_upper(e1, q) == is_upper(e2, q)
            && e1.cut_value(q) == e2.cut_value(q) by {}
    assert(removed(e1, ps) == removed(e2, ps));
    if let (Some(x1), Some(x2)) = (r1, r2) {
        match (x1.min_t, x2.min_t) {
            (Some(a), Some(b)) => {
                let w1 = choose|z: Point| #[trigger] ps.contains(z) && is_lower(e1, z) && e1.cut_value(z) == a;
                let w2 = choose|z: Point| #[trigger] ps.contains(z) && is_lower(e2, z) && e2.cut_value(z) == b;
                assert(a.le(b) && b.le(a));
            },
            (Some(a), None) => {
                let w1 = choose|z: Point| #[trigger] ps.contains(z) && is_lower(e1, z) && e1.cut_value(z) == a;
                assert(ps.contains(w1));
            },
            (None, Some(b)) => {
                let w2 = choose|z: Point| #[trigger] ps.contains(z) && is_lower(e2, z) && e2.cut_value(z) == b;
                assert(ps.contains(w2));
            },
            (None, None) => {},
        }
        match (x1.max_t, x2.max_t) {
            (Some(a), Some(b)) => {
                let w1 = choose|z: Point| #[trigger] ps.contains(z) && is_upper(e1, z) && e1.cut_value(z) == a;
                let w2 = choose|z: Point| #[trigger] ps.contains(z) && is_upper(e2, z) && e2.cut_value(z) == b;
                assert(a.le(b) && b.le(a));
            },
            (Some(a), None) => {
                let w1 = choose|z: Point| #[trigger] ps.contains(z) && is_upper(e1, z) && e1.cut_value(z) == a;
                assert(ps.contains(w1));
            },
            (None, Some(b)) => {
                let w2 = choose|z: Point| #[trigger] ps.contains(z) && is_upper(e2, z) && e2.cut_value(z) == b;
                assert(ps.contains(w2));
            },
            (None, None) => {},
        }
    }
}

/// Dividing by a positive integer does not grow a magnitude.
proof fn lemma_div_shrinks(n: int, g: int)
    requires
        g >= 1,
    ensures
        -abs(n) <= n / g <= abs(n),
{
    vstd::arithmetic::div_mod::lemma_fundamental_div_mod(n, g);
    let q = n / g;
    let r = n % g;
    assert(0 <= r < g);
    assert(-abs(n) <= q <= abs(n)) by (nonlinear_arith)
        requires n == g * q + r, 0 <= r < g, g >= 1, abs(n) == if n < 0 { -n } else { n };
}

/// Traversing the line the other way negates every cut.
proof fn lemma_mirror_cut(e1: VoronoiEdge, e2: VoronoiEdge, q: Point)
    requires
        reversed_line(e1, e2),
        e1.wf(),
        q.in_range(),
    ensures
        e2.t_nearest(q) == -e1.t_nearest(q),
        kills(e2, q) == kills(e1, q),
        e1.t_nearest(q) != 0 ==> {
            &&& e2.cut_value(q).numer == -e1.cut_value(q).numer
            &&& e2.cut_value(q).denom == e1.cut_value(q).denom
        },
{
    let (mx, my, dx, dy) = (e1.mul_dir.x as int, e1.mul_dir.y as int, e1.diff_x(q), e1.diff_y(q));
    assert(e2.diff_x(q) == dx && e2.diff_y(q) == dy);
    assert(e2.t_nearest(q) == -e1.t_nearest(q)) by (nonlinear_arith)
        requires
            e2.t_nearest(q) == (-mx) * dx + (-my) * dy,
            e1.t_nearest(q) == mx * dx + my * dy;
    assert(e2.d_nearest(q) == -e1.d_nearest(q)) by (nonlinear_arith)
        requires
            e2.d_nearest(q) == (-my) * dx + mx * dy,
            e1.d_nearest(q) == my * dx + (-mx) * dy;
    assert(e2.min_dist_sq() == e1.min_dist_sq()) by (nonlinear_arith)
        requires
            e2.min_dist_sq() == (-mx) * (-mx) + (-my) * (-my),
            e1.min_dist_sq() == mx * mx + my * my;
    let t = e1.t_nearest(q);
    let d = e1.d_nearest(q);
    let m = e1.min_dist_sq();
    assert((-d) * (-d) == d * d) by (nonlinear_arith);
    if t != 0 {
        crate::edge::lemma_trim_magnitudes(mx, my, dx, dy);
        lemma_cut_wf(e1, q);
        let n = t * t + d * d - m * m;
        let den = 4 * t * m;
        assert((-t) * (-t) == t * t) by (nonlinear_arith);
        assert(4 * (-t) * m == -den) by (nonlinear_arith)
            requires den == 4 * t * m;
        assert(abs(-den) == abs(den));
        lemma_gcd_bounded(abs(n), abs(den));
        let g = gcd(abs(n), abs(den)) as int;
        lemma_div_shrinks(n, g);
        assert(reduced_numer(n, -den) == -reduced_numer(n, den));
        assert(reduced_denom(n, -den) == reduced_denom(n, den));
    }
}

/// The state left by a set of sites on a line traversed the other way is the
/// same segment: bounds swap ends and change sign.
proof fn lemma_closed_mirror(
    e1: VoronoiEdge,
    e2: VoronoiEdge,
    ps: Set<Point>,
    r1: Option<VoronoiEdge>,
    r2: Option<VoronoiEdge>,
)
    requires
        reversed_line(e1, e2),
        e1.wf(),
        forall|z: Point| #[trigger] ps.contains(z) ==> z.in_range(),
        trimmed_by_set(e1, ps, r1),
        trimmed_by_set(e2, ps, r2),
    ensures
        mirrored_edge(r1, r2),
{
    assert forall|q: Point| #[trigger] ps.contains(q) implies {
        &&& kills(e2, q) == kills(e1, q)
        &&& is_lower(e2, q) == is_upper(e1, q)
        &&& is_upper(e2, q) == is_lower(e1, q)
        &&& e1.t_nearest(q) != 0 ==> {
            &&& e2.cut_value(q).numer == -e1.cut_value(q).numer
            &&& e2.cut_value(q).denom == e1.cut_value(q).denom
            &&& e1.cut_value(q).wf()
        }
    } by {
        lemma_mirror_cut(e1, e2, q);
        lemma_cut_wf(e1, q);
    }
    if removed(e1, ps) {
        if exists|z: Point| #[trigger] ps.contains(z) && kills(e1, z) {
            let z = choose|z: Point| #[trigger] ps.contains(z) && kills(e1, z);
            assert(kills(e2, z));
        } else {
            let (q1, q2) = choose|q1: Point, q2: Point|
                #[trigger] ps.contains(q1) && #[trigger] ps.contains(q2) && is_lower(e1, q1) && is_upper(e1, q2)
                    && e1.cut_value(q2).le(e1.cut_value(q1));
            assert(e2.cut_value(q1).le(e2.cut_value(q2))) by (nonlinear_arith)
                requires
                    e2.cut_value(q1).numer == -e1.cut_value(q1).numer,
                    e2.cut_value(q1).denom == e1.cut_value(q1).denom,
                    e2.cut_value(q2).numer == -e1.cut_value(q2).numer,
                    e2.cut_value(q2).denom == e1.cut_value(q2).denom,
                    e1.cut_value(q2).le(e1.cut_value(q1));
            assert(ps.contains(q2) && ps.contains(q1) && is_lower(e2, q2) && is_upper(e2, q1));
        }
    }
    if removed(e2, ps) {
        if exists|z: Point| #[trigger] ps.contains(z) && kills(e2, z) {
            let z = choose|z: Point| #[trigger] ps.contains(z) && kills(e2, z);
            assert(kills(e1, z));
        } else {
            let (q1, q2) = choose|q1: Point, q2: Point|
                #[trigger] ps.contains(q1) && #[trigger] ps.contains(q2) && is_lower(e2, q1) && is_upper(e2, q2)
                    && e2.cut_value(q2).le(e2.cut_value(q1));
            assert(e1.cut_value(q1).le(e1.cut_value(q2))) by (nonlinear_arith)
                requires
                    e2.cut_value(q1).numer == -e1.cut_value(q1).numer,
                    e2.cut_value(q1).denom == e1.cut_value(q1).denom,
                    e2.cut_value(q2).numer == -e1.cut_value(q2).numer,
                    e2.cut_value(q2).denom == e1.cut_value(q2).denom,
                    e2.cut_value(q2).le(e2.cut_value(q1));
            assert(ps.contains(q2) && ps.contains(q1) && is_lower(e1, q2) && is_upper(e1, q1));
        }
    }
    if let (Some(x1), Some(x2)) = (r1, r2) {
        lemma_opposite_ends(e1, e2, ps, x1.min_t, x2.max_t);
        lemma_opposite_ends(e2, e1, ps, x2.min_t, x1.max_t);
        if let (Some(a), Some(b)) = (x2.min_t, x1.max_t) {
            assert(b.numer * a.denom == -(a.numer * b.denom)) by (nonlinear_arith)
                requires a.numer * b.denom == -(b.numer * a.denom);
        }
    }
}

/// The greatest lower cut on one traversal is the least upper cut on the
/// other, negated.
proof fn lemma_opposite_ends(e1: VoronoiEdge, e2: VoronoiEdge, ps: Set<Point>, lo: Option<Rational>, hi: Option<Rational>)
    requires
        forall|q: Point| #[trigger] ps.contains(q) ==> {
            &&& is_lower(e2, q) == is_upper(e1, q)
            &&& is_upper(e2, q) == is_lower(e1, q)
            &&& e1.t_nearest(q) != 0 ==> {
                &&& e2.cut_value(q).numer == -e1.cut_value(q).numer
                &&& e2.cut_value(q).denom == e1.cut_value(q).denom
            }
        },
        forall|q: Point| #[trigger] ps.contains(q) ==> (is_lower(e1, q) || is_upper(e1, q)) ==> (e1.t_nearest(q) != 0),
        lower_bound_of(e1, ps, lo),
        upper_bound_of(e2, ps, hi),
    ensures
        opposite_bound(lo, hi),
{
    match (lo, hi) {
        (Some(a), Some(b)) => {
            let w1 = choose|z: Point| #[trigger] ps.contains(z) && is_lower(e1, z) && e1.cut_value(z) == a;
            let w2 = choose|z: Point| #[trigger] ps.contains(z) && is_upper(e2, z) && e2.cut_value(z) == b;
            assert(e1.cut_value(w2).le(a));
            assert(b.le(e2.cut_value(w1)));
            let c = e1.cut_value(w2);
            let f = e2.cut_value(w1);
            assert(a.numer * b.denom == -(b.numer * a.denom)) by (nonlinear_arith)
                requires
                    c.numer * a.denom <= a.numer * c.denom,
                    b.numer * f.denom <= f.numer * b.denom,
                    b.numer == -c.numer,
                    b.denom == c.denom,
                    f.numer == -a.numer,
                    f.denom == a.denom;
        },
        (Some(a), None) => {
            let w1 = choose|z: Point| #[trigger] ps.contains(z) && is_lower(e1, z) && e1.cut_value(z) == a;
            assert(ps.contains(w1));
        },
        (None, Some(b)) => {
            let w2 = choose|z: Point| #[trigger] ps.contains(z) && is_upper(e2, z) && e2.cut_value(z) == b;
            assert(ps.contains(w2));
        },
        (None, None) => {},
    }
}

/// `t` lists the sites of `s` in another order: `t[k]` is `s[perm[k]]`,
/// and `perm` is a bijection of the indices.
pub open spec fn is_permutation(s: Seq<Point>, t: Seq<Point>, perm: Seq<int>) -> bool {
    &&& t.len() == s.len()
    &&& perm.len() == s.len()
    &&& forall|k: int| 0 <= k < s.len() ==> 0 <= #[trigger] perm[k] < s.len() && t[k] == s[perm[k]]
    &&& forall|k1: int, k2: int|
        0 <= k1 < s.len() && 0 <= k2 < s.len() && k1 != k2 ==> #[trigger] perm[k1] != #[trigger] perm[k2]
    &&& forall|i: int| 0 <= i < s.len() ==> #[trigger] hit(perm, i)
}

/// Some index is sent to `i`.
pub open spec fn hit(perm: Seq<int>, i: int) -> bool {
    exists|k: int| 0 <= k < perm.len() && #[trigger] perm[k] == i
}

/// The full bisector of two sites in range is well formed.
proof fn lemma_bisector_wf(p: Point, q: Point, id1: PointId, id2: PointId)
    requires
        p.in_range(),
        q.in_range(),
    ensures
        VoronoiEdge::bisector(p, q, id1, id2).wf(),
{
}

/// Renumbering the sites leaves the other sites of a pair the same set.
proof fn lemma_probes_permuted(s: Seq<Point>, t: Seq<Point>, perm: Seq<int>, a: int, b: int, x: int, y: int)
    requires
        is_permutation(s, t, perm),
        s.len() <= u32::MAX,
        0 <= a < s.len(),
        0 <= b < s.len(),
        a != b,
        (x == perm[a] && y == perm[b]) || (x == perm[b] && y == perm[a]),
    ensures
        probes(VoronoiEdge::bisector(t[a], t[b], a as PointId, b as PointId), t, t.len() as int)
            == probes(VoronoiEdge::bisector(s[x], s[y], x as PointId, y as PointId), s, s.len() as int),
{
    let n = s.len() as int;
    let et = VoronoiEdge::bisector(t[a], t[b], a as PointId, b as PointId);
    let es = VoronoiEdge::bisector(s[x], s[y], x as PointId, y as PointId);
    let pt = probes(et, t, n);
    let ps = probes(es, s, n);
    assert(perm[a] != perm[b]);
    assert forall|z: Point| pt.contains(z) implies ps.contains(z) by {
        let k = choose|k: int| 0 <= k < n && k != et.points[0] && k != et.points[1] && #[trigger] t[k] == z;
        assert(perm[k] != perm[a] && perm[k] != perm[b]);
        let k2 = perm[k];
        assert(0 <= k2 < n && k2 != es.points[0] && k2 != es.points[1] && s[k2] == z);
    }
    assert forall|z: Point| ps.contains(z) implies pt.contains(z) by {
        let k2 = choose|k2: int| 0 <= k2 < n && k2 != es.points[0] && k2 != es.points[1] && #[trigger] s[k2] == z;
        assert(hit(perm, k2));
        let k = choose|k: int| 0 <= k < perm.len() && #[trigger] perm[k] == k2;
        assert(k != a && k != b);
        assert(0 <= k < n && k != et.points[0] && k != et.points[1] && t[k] == z);
    }
    assert(pt =~= ps);
}

/// Inserting the same sites in any order gives the same diagram: the edge of
/// any two sites is removed in both orders or kept in both, with bounds of
/// the same values when the two sites come in the same relative order, and
/// as the same segment traversed the other way (bounds swapped and negated)
/// when they come in the opposite order.
pub proof fn lemma_order_independence(s: Seq<Point>, t: Seq<Point>, perm: Seq<int>, a: int, b: int)
    requires
        is_permutation(s, t, perm),
        s.len() <= u32::MAX,
        forall|i: int| 0 <= i < s.len() ==> (#[trigger] s[i]).in_range(),
        0 <= a < b < s.len(),
    ensures
        perm[a] < perm[b] ==> same_edge(pair_edge(t, a, b), pair_edge(s, perm[a], perm[b])),
        perm[a] > perm[b] ==> mirrored_edge(pair_edge(t, a, b), pair_edge(s, perm[b], perm[a])),
{
    let n = s.len() as int;
    assert(perm[a] != perm[b]);
    assert forall|k: int| 0 <= k < n implies (#[trigger] t[k]).in_range() by {
        assert(s[perm[k]].in_range());
    }
    let (x, y) = if perm[a] < perm[b] {
        (perm[a], perm[b])
    } else {
        (perm[b], perm[a])
    };
    let et = VoronoiEdge::bisector(t[a], t[b], a as PointId, b as PointId);
    let es = VoronoiEdge::bisector(s[x], s[y], x as PointId, y as PointId);
    lemma_bisector_wf(t[a], t[b], a as PointId, b as PointId);
    lemma_bisector_wf(s[x], s[y], x as PointId, y as PointId);
    lemma_probes_permuted(s, t, perm, a, b, x, y);
    let ps = probes(es, s, n);
    lemma_trim_upto_closed(et, t, n);
    lemma_trim_upto_closed(es, s, n);
    assert forall|z: Point| #[trigger] ps.contains(z) implies z.in_range() by {
        lemma_probes_in_range(es, s, n, z);
    }
    if perm[a] < perm[b] {
        lemma_closed_same(et, es, ps, pair_edge(t, a, b), pair_edge(s, x, y));
    } else {
        lemma_closed_mirror(et, es, ps, pair_edge(t, a, b), pair_edge(s, x, y));
    }
}

/// `e2`, an edge of the sites numbered by `t`, and `e1`, one of the sites
/// numbered by `s` (with `t[k] == s[perm[k]]`), lie between the same two
/// sites and are the same segment.
pub open spec fn renumbered(e1: VoronoiEdge, e2: VoronoiEdge, perm: Seq<int>) -> bool {
    let i = perm[e2.points[0] as int];
    let j = perm[e2.points[1] as int];
    if i < j {
        &&& e1.points[0] == i
        &&& e1.points[1] == j
        &&& same_edge(Some(e2), Some(e1))
    } else {
        &&& e1.points[0] == j
        &&& e1.points[1] == i
        &&& mirrored_edge(Some(e2), Some(e1))
    }
}

/// Two graphs built from the same sites in different orders have the same
/// edges: each edge of one is, between the same two sites, an edge of the
/// other that covers the same segment.
pub proof fn lemma_graph_order_independence(g1: &VoronoiGraph, g2: &VoronoiGraph, perm: Seq<int>)
    requires
        g1.wf(),
        g2.wf(),
        is_permutation(g1.sites(), g2.sites(), perm),
    ensures
        forall|e2: VoronoiEdge|
            g2.edge_list().contains(e2) ==> exists|e1: VoronoiEdge|
                g1.edge_list().contains(e1) && #[trigger] renumbered(e1, e2, perm),
        forall|e1: VoronoiEdge|
            g1.edge_list().contains(e1) ==> exists|e2: VoronoiEdge|
                g2.edge_list().contains(e2) && #[trigger] renumbered(e1, e2, perm),
{
    let s = g1.sites();
    let t = g2.sites();
    let n = s.len() as int;
    lemma_diagram_members(s);
    lemma_diagram_members(t);
    assert forall|e2: VoronoiEdge| g2.edge_list().contains(e2) implies exists|e1: VoronoiEdge|
        g1.edge_list().contains(e1) && #[trigger] renumbered(e1, e2, perm) by {
        let (a, b) = choose|a: int, b: int| 0 <= a < b < n && #[trigger] pair_edge(t, a, b) == Some(e2);
        lemma_order_independence(s, t, perm, a, b);
        if perm[a] < perm[b] {
            let e1 = pair_edge(s, perm[a], perm[b])->0;
            assert(renumbered(e1, e2, perm));
        } else {
            let e1 = pair_edge(s, perm[b], perm[a])->0;
            assert(renumbered(e1, e2, perm));
        }
    }
    assert forall|e1: VoronoiEdge| g1.edge_list().contains(e1) implies exists|e2: VoronoiEdge|
        g2.edge_list().contains(e2) && #[trigger] renumbered(e1, e2, perm) by {
        let (i, j) = choose|i: int, j: int| 0 <= i < j < n && #[trigger] pair_edge(s, i, j) == Some(e1);
        assert(hit(perm, i) && hit(perm, j));
        let a0 = choose|k: int| 0 <= k < perm.len() && #[trigger] perm[k] == i;
        let b0 = choose|k: int| 0 <= k < perm.len() && #[trigger] perm[k] == j;
        if a0 < b0 {
            lemma_order_independence(s, t, perm, a0, b0);
            let e2 = pair_edge(t, a0, b0)->0;
            assert(renumbered(e1, e2, perm));
        } else {
            lemma_order_independence(s, t, perm, b0, a0);
            let e2 = pair_edge(t, b0, a0)->0;
            assert(renumbered(e1, e2, perm));
        }
    }
}

} // verus!
