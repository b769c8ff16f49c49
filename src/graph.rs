//! The incrementally built diagram: sites and their surviving bisector edges.
use vstd::prelude::*;
use crate::edge::{trim_step, trim_upto, PointId, Shape, TrimmedEdge, VoronoiEdge};
use crate::geometry::Point;

verus! {

/// The values held by the present entries, in order.
pub open spec fn somes(xs: Seq<Option<VoronoiEdge>>) -> Seq<VoronoiEdge>
    decreases xs.len(),
{
    if xs.len() == 0 {
        Seq::empty()
    } else {
        let rest = somes(xs.drop_last());
        match xs.last() {
            Some(e) => rest.push(e),
            None => rest,
        }
    }
}

/// The edge of sites `i < j` of `s`: their bisector trimmed against every
/// other site of `s`, in order of id; none when some site removes it.
pub open spec fn pair_edge(s: Seq<Point>, i: int, j: int) -> Option<VoronoiEdge> {
    trim_upto(Some(VoronoiEdge::bisector(s[i], s[j], i as PointId, j as PointId)), s, s.len() as int)
}

/// The edges between site `j` and each earlier site.
pub open spec fn row(s: Seq<Point>, j: int) -> Seq<Option<VoronoiEdge>> {
    Seq::new(j as nat, |i: int| pair_edge(s, i, j))
}

/// The rows of the first `m` sites, one after the other.
pub open spec fn rows(s: Seq<Point>, m: int) -> Seq<Option<VoronoiEdge>>
    decreases m,
{
    if m <= 0 {
        Seq::empty()
    } else {
        rows(s, m - 1) + row(s, m - 1)
    }
}

/// The Voronoi edges of the sites `s`: for each pair of sites, what is left
/// of their bisector once trimmed against every other site (`pair_edge`),
/// ordered by the later site's id and then by the earlier one's.
pub open spec fn diagram(s: Seq<Point>) -> Seq<VoronoiEdge> {
    somes(rows(s, s.len() as int))
}

/// Existing edges trimmed against the new site `p` of id `id`.
pub open spec fn retrim(es: Seq<VoronoiEdge>, p: Point, id: int) -> Seq<VoronoiEdge> {
    somes(es.map_values(|e: VoronoiEdge| trim_step(Some(e), p, id)))
}

/// The bisector of each site of `s` with the new site `p`, trimmed against `s`.
pub open spec fn candidates(s: Seq<Point>, p: Point) -> Seq<VoronoiEdge> {
    somes(
        Seq::new(
            s.len(),
            |i: int|
                trim_upto(
                    Some(VoronoiEdge::bisector(s[i], p, i as PointId, s.len() as PointId)),
                    s,
                    s.len() as int,
                ),
        ),
    )
}

/// A Voronoi diagram built one site at a time.
pub struct VoronoiGraph {
    source_points: Vec<Point>,
    edges: Vec<VoronoiEdge>,
}

impl VoronoiGraph {
    /// The sites, in order of insertion (a site's id is its index).
    pub closed spec fn sites(&self) -> Seq<Point> {
        self.source_points@
    }

    /// The edges, in the order they are kept.
    pub closed spec fn edge_list(&self) -> Seq<VoronoiEdge> {
        self.edges@
    }

    /// Sites in range; each edge well formed, between two distinct inserted
    /// sites; and the edges are exactly the diagram of the sites.
    pub open spec fn wf(&self) -> bool {
        &&& self.sites().len() <= u32::MAX
        &&& forall|k: int| 0 <= k < self.sites().len() ==> (#[trigger] self.sites()[k]).in_range()
        &&& forall|k: int|
            0 <= k < self.edge_list().len() ==> edge_ok(#[trigger] self.edge_list()[k], self.sites().len() as int)
        &&& self.edge_list() == diagram(self.sites())
    }

    /// A graph without sites.
    pub fn new() -> (r: VoronoiGraph)
        ensures
            r.wf(),
            r.sites() == Seq::<Point>::empty(),
            r.edge_list() == Seq::<VoronoiEdge>::empty(),
    {
        let r = VoronoiGraph { source_points: Vec::new(), edges: Vec::new() };
        assert(diagram(r.sites()) =~= Seq::<VoronoiEdge>::empty());
        r
    }

    /// The graph of the sites `points`, inserted in order.
    pub fn from_points(points: &Vec<Point>) -> (r: VoronoiGraph)
        requires
            points@.len() < u32::MAX,
            forall|k: int| 0 <= k < points@.len() ==> (#[trigger] points@[k]).in_range(),
        ensures
            r.wf(),
            r.sites() == points@,
            r.edge_list() == diagram(points@),
    {
        let mut graph = VoronoiGraph::new();
        let mut i: usize = 0;
        while i < points.len()
            invariant
                i <= points@.len(),
                points@.len() < u32::MAX,
                forall|k: int| 0 <= k < points@.len() ==> (#[trigger] points@[k]).in_range(),
                graph.wf(),
                graph.sites() == points@.take(i as int),
            decreases points@.len() - i,
        {
            graph.add_source_point(points[i]);
            assert(points@.take(i + 1) =~= points@.take(i as int).push(points@[i as int]));
            i += 1;
        }
        assert(points@.take(i as int) =~= points@);
        graph
    }

    /// The sites, in order of id.
    pub fn source_points(&self) -> (r: &Vec<Point>)
        ensures
            r@ == self.sites(),
    {
        &self.source_points
    }

    /// The surviving edges.
    pub fn edges(&self) -> (r: &Vec<VoronoiEdge>)
        ensures
            r@ == self.edge_list(),
    {
        &self.edges
    }

    /// The drawable primitive of each edge, in the order of the edges.
    pub fn shapes(&self) -> (r: Vec<Shape>)
        ensures
            r@ == self.edge_list().map_values(|e: VoronoiEdge| e.shape_spec()),
    {
        let mut out: Vec<Shape> = Vec::new();
        let mut k: usize = 0;
        while k < self.edges.len()
            invariant
                k <= self.edges@.len(),
                out@ == self.edges@.take(k as int).map_values(|e: VoronoiEdge| e.shape_spec()),
            decreases self.edges@.len() - k,
        {
            out.push(self.edges[k].shape());
            assert(self.edges@.take(k + 1).map_values(|e: VoronoiEdge| e.shape_spec())
                =~= self.edges@.take(k as int).map_values(|e: VoronoiEdge| e.shape_spec()).push(
                self.edges@[k as int].shape_spec(),
            ));
            k += 1;
        }
        assert(self.edges@.take(k as int) =~= self.edges@);
        out
    }

    /// Inserts the site `point` with the next id: every edge is trimmed
    /// against it, then its bisector with each earlier site, trimmed against
    /// all earlier sites, joins the edges unless removed.
    pub fn add_source_point(&mut self, point: Point)
        requires
            old(self).wf(),
            point.in_range(),
            old(self).sites().len() < u32::MAX,
        ensures
            final(self).wf(),
            final(self).sites() == old(self).sites().push(point),
            final(self).edge_list() == retrim(old(self).edge_list(), point, old(self).sites().len() as int)
                + candidates(old(self).sites(), point),
    {
        let ghost s = self.source_points@;
        let ghost old_edges = self.edges@;
        let ghost n = s.len() as int;
        let new_id = self.source_points.len() as PointId;
        // Trim the existing edges into a fresh collection.
        let mut kept: Vec<VoronoiEdge> = Vec::new();
        let mut k: usize = 0;
        while k < self.edges.len()
            invariant
                self.wf(),
                self.source_points@ == s,
                self.edges@ == old_edges,
                n == s.len(),
                n < u32::MAX,
                new_id == n,
                point.in_range(),
                k <= old_edges.len(),
                kept@ == retrim(old_edges.take(k as int), point, n),
                forall|q: int| 0 <= q < kept@.len() ==> edge_ok(#[trigger] kept@[q], n + 1),
            decreases old_edges.len() - k,
        {
            let ghost before = kept@;
            let edge = self.edges[k];
            assert(edge_ok(old_edges[k as int], n));
            assert(old_edges.take(k + 1) =~= old_edges.take(k as int).push(edge));
            proof {
                lemma_retrim_push(old_edges.take(k as int), edge, point, n);
            }
            match edge.trim(&point) {
                TrimmedEdge::Keep => {
                    kept.push(edge);
                },
                TrimmedEdge::Filter => {},
                TrimmedEdge::Trimmed(new_edge) => {
                    kept.push(new_edge);
                },
            }
            assert(forall|q: int| 0 <= q < before.len() ==> kept@[q] == before[q]);
            k += 1;
        }
        assert(old_edges.take(k as int) =~= old_edges);
        let ghost retrimmed = kept@;
        let ghost cands = Seq::new(
            s.len(),
            |i: int| trim_upto(Some(VoronoiEdge::bisector(s[i], point, i as PointId, n as PointId)), s, n),
        );
        // Add the trimmed bisectors with the earlier sites.
        let mut i: usize = 0;
        while i < self.source_points.len()
            invariant
                self.wf(),
                self.source_points@ == s,
                n == s.len(),
                n < u32::MAX,
                new_id == n,
                point.in_range(),
                i <= n,
                cands.len() == n,
                forall|q: int|
                    0 <= q < n ==> #[trigger] cands[q] == trim_upto(
                        Some(VoronoiEdge::bisector(s[q], point, q as PointId, n as PointId)),
                        s,
                        n,
                    ),
                kept@ == retrimmed + somes(cands.take(i as int)),
                forall|q: int| 0 <= q < kept@.len() ==> edge_ok(#[trigger] kept@[q], n + 1),
            decreases n - i,
        {
            let ghost before = kept@;
            let edge = VoronoiEdge::two_points(&self.source_points[i], &point, i as PointId, new_id);
            let trimmed = edge.trim_points(&self.source_points);
            assert(cands.take(i + 1) =~= cands.take(i as int).push(cands[i as int]));
            proof {
                lemma_somes_push(cands.take(i as int), cands[i as int]);
            }
            if let Some(trimmed_edge) = trimmed {
                kept.push(trimmed_edge);
                assert(kept@ =~= retrimmed + somes(cands.take(i + 1)));
            }
            assert(forall|q: int| 0 <= q < before.len() ==> kept@[q] == before[q]);
            i += 1;
        }
        assert(cands.take(n) =~= cands);
        proof {
            let t = s.push(point);
            lemma_somes_retrim(rows(s, n), point, n);
            lemma_rows_step(s, point, n);
            lemma_candidates_row(s, point);
            lemma_somes_append(rows(t, n), row(t, n));
            assert(rows(t, n + 1) == rows(t, n) + row(t, n));
        }
        self.edges = kept;
        self.source_points.push(point);
        assert(self.source_points@ =~= s.push(point));
        assert forall|q: int| 0 <= q < self.source_points@.len() implies (#[trigger] self.source_points@[q]).in_range() by {
            if q < n {
                assert(self.source_points@[q] == s[q]);
            }
        }
    }
}

/// Every edge of a graph lies between two distinct sites that have been
/// inserted, whatever the sequence of insertions that built it.
pub proof fn lemma_edge_ids_valid(g: &VoronoiGraph)
    requires
        g.wf(),
    ensures
        forall|k: int|
            0 <= k < g.edge_list().len() ==> {
                let e = #[trigger] g.edge_list()[k];
                &&& e.points[0] != e.points[1]
                &&& e.points[0] < g.sites().len()
                &&& e.points[1] < g.sites().len()
            },
{
    assert forall|k: int| 0 <= k < g.edge_list().len() implies {
        let e = #[trigger] g.edge_list()[k];
        &&& e.points[0] != e.points[1]
        &&& e.points[0] < g.sites().len()
        &&& e.points[1] < g.sites().len()
    } by {
        assert(edge_ok(g.edge_list()[k], g.sites().len() as int));
    }
}

/// The present entries are exactly what `somes` keeps.
proof fn lemma_somes_contains(xs: Seq<Option<VoronoiEdge>>)
    ensures
        forall|x: VoronoiEdge| somes(xs).contains(x) <==> xs.contains(Some(x)),
    decreases xs.len(),
{
    if xs.len() > 0 {
        let x0 = xs.drop_last();
        lemma_somes_contains(x0);
        assert(x0.push(xs.last()) =~= xs);
        lemma_somes_push(x0, xs.last());
        assert forall|x: VoronoiEdge| somes(xs).contains(x) <==> xs.contains(Some(x)) by {
            let last = xs.len() - 1;
            assert(xs[last] == xs.last());
            if xs.contains(Some(x)) {
                let k = choose|k: int| 0 <= k < xs.len() && xs[k] == Some(x);
                if k < last {
                    assert(x0[k] == Some(x));
                    assert(x0.contains(Some(x)));
                }
            }
            if x0.contains(Some(x)) {
                let k = choose|k: int| 0 <= k < x0.len() && x0[k] == Some(x);
                assert(xs[k] == Some(x));
            }
            match xs.last() {
                Some(y) => {
                    let sx = somes(x0);
                    assert(somes(xs) == sx.push(y));
                    if somes(xs).contains(x) {
                        let k = choose|k: int| 0 <= k < sx.push(y).len() && sx.push(y)[k] == x;
                        if k < sx.len() {
                            assert(sx[k] == x);
                            assert(sx.contains(x));
                        }
                    }
                    if sx.contains(x) {
                        let k = choose|k: int| 0 <= k < sx.len() && sx[k] == x;
                        assert(sx.push(y)[k] == x);
                    }
                    if x == y {
                        assert(sx.push(y)[sx.len() as int] == x);
                    }
                },
                None => {},
            }
        }
    }
}

/// The entries of the first `m` rows are the pair edges of ids below `m`.
proof fn lemma_rows_contains(s: Seq<Point>, m: int)
    requires
        0 <= m,
    ensures
        forall|o: Option<VoronoiEdge>|
            rows(s, m).contains(o) <==> exists|i: int, j: int| 0 <= i < j < m && o == #[trigger] pair_edge(s, i, j),
    decreases m,
{
    if m > 0 {
        lemma_rows_contains(s, m - 1);
        let a = rows(s, m - 1);
        let b = row(s, m - 1);
        assert forall|o: Option<VoronoiEdge>|
            rows(s, m).contains(o) <==> exists|i: int, j: int| 0 <= i < j < m && o == #[trigger] pair_edge(s, i, j) by {
            if rows(s, m).contains(o) {
                let k = choose|k: int| 0 <= k < (a + b).len() && (a + b)[k] == o;
                if k < a.len() {
                    assert(a[k] == o);
                    assert(a.contains(o));
                } else {
                    assert(b[k - a.len()] == o);
                    assert(o == pair_edge(s, k - a.len(), m - 1));
                }
            }
            if exists|i: int, j: int| 0 <= i < j < m && o == #[trigger] pair_edge(s, i, j) {
                let (i, j) = choose|i: int, j: int| 0 <= i < j < m && o == #[trigger] pair_edge(s, i, j);
                if j < m - 1 {
                    assert(a.contains(o));
                    let k = choose|k: int| 0 <= k < a.len() && a[k] == o;
                    assert((a + b)[k] == o);
                } else {
                    assert(b[i] == o);
                    assert((a + b)[a.len() + i] == o);
                }
            }
        }
    }
}

/// The diagram holds exactly the pair edges that survive, each under the
/// ids of its two sites: `e` is an edge of `diagram(s)` if and only if it
/// is what is left of the bisector of some sites `i < j`.
pub proof fn lemma_diagram_members(s: Seq<Point>)
    requires
        s.len() <= u32::MAX,
    ensures
        forall|e: VoronoiEdge|
            diagram(s).contains(e) <==> exists|i: int, j: int|
                0 <= i < j < s.len() && #[trigger] pair_edge(s, i, j) == Some(e),
        forall|i: int, j: int|
            0 <= i < j < s.len() && #[trigger] pair_edge(s, i, j) is Some ==> pair_edge(s, i, j)->0.points[0] == i
                && pair_edge(s, i, j)->0.points[1] == j,
{
    lemma_somes_contains(rows(s, s.len() as int));
    lemma_rows_contains(s, s.len() as int);
    assert forall|i: int, j: int|
        0 <= i < j < s.len() && #[trigger] pair_edge(s, i, j) is Some implies pair_edge(s, i, j)->0.points[0] == i
            && pair_edge(s, i, j)->0.points[1] == j by {
        lemma_trim_upto_ids(VoronoiEdge::bisector(s[i], s[j], i as PointId, j as PointId), s, s.len() as int);
    }
}

/// `somes` of a longer sequence.
proof fn lemma_somes_push(xs: Seq<Option<VoronoiEdge>>, o: Option<VoronoiEdge>)
    ensures
        somes(xs.push(o)) == match o {
            Some(e) => somes(xs).push(e),
            None => somes(xs),
        },
{
    assert(xs.push(o).drop_last() =~= xs);
}

/// Trimming one more edge against `p`.
proof fn lemma_retrim_push(es: Seq<VoronoiEdge>, e: VoronoiEdge, p: Point, id: int)
    ensures
        retrim(es.push(e), p, id) == match trim_step(Some(e), p, id) {
            Some(x) => retrim(es, p, id).push(x),
            None => retrim(es, p, id),
        },
{
    let f = |e: VoronoiEdge| trim_step(Some(e), p, id);
    assert(es.push(e).map_values(f) =~= es.map_values(f).push(f(e)));
    lemma_somes_push(es.map_values(f), f(e));
}

/// `somes` of two sequences one after the other.
proof fn lemma_somes_append(a: Seq<Option<VoronoiEdge>>, b: Seq<Option<VoronoiEdge>>)
    ensures
        somes(a + b) == somes(a) + somes(b),
    decreases b.len(),
{
    if b.len() == 0 {
        assert(a + b =~= a);
        assert(somes(a) + somes(b) =~= somes(a));
    } else {
        let b0 = b.drop_last();
        assert((a + b).drop_last() =~= a + b0);
        lemma_somes_append(a, b0);
        assert(b0.push(b.last()) =~= b);
        lemma_somes_push(b0, b.last());
        match b.last() {
            Some(e) => {
                assert(somes(a) + somes(b0).push(e) =~= (somes(a) + somes(b0)).push(e));
            },
            None => {},
        }
    }
}

/// Trimming the present edges against `p` is trimming every entry.
proof fn lemma_somes_retrim(xs: Seq<Option<VoronoiEdge>>, p: Point, id: int)
    ensures
        retrim(somes(xs), p, id) == somes(xs.map_values(|o: Option<VoronoiEdge>| trim_step(o, p, id))),
    decreases xs.len(),
{
    let g = |o: Option<VoronoiEdge>| trim_step(o, p, id);
    let f = |e: VoronoiEdge| trim_step(Some(e), p, id);
    if xs.len() == 0 {
        assert(somes(xs).map_values(f) =~= Seq::<Option<VoronoiEdge>>::empty());
        assert(xs.map_values(g) =~= Seq::<Option<VoronoiEdge>>::empty());
    } else {
        let x0 = xs.drop_last();
        lemma_somes_retrim(x0, p, id);
        assert(x0.push(xs.last()) =~= xs);
        assert(xs.map_values(g) =~= x0.map_values(g).push(g(xs.last())));
        lemma_somes_push(x0.map_values(g), g(xs.last()));
        lemma_somes_push(x0, xs.last());
        match xs.last() {
            Some(e) => {
                assert(somes(xs).map_values(f) =~= somes(x0).map_values(f).push(f(e)));
                lemma_somes_push(somes(x0).map_values(f), f(e));
            },
            None => {},
        }
    }
}

/// Trimming against the first `k` sites does not look past them.
proof fn lemma_trim_upto_prefix(e: Option<VoronoiEdge>, s: Seq<Point>, p: Point, k: int)
    requires
        k <= s.len(),
    ensures
        trim_upto(e, s.push(p), k) == trim_upto(e, s, k),
    decreases k,
{
    if k > 0 {
        lemma_trim_upto_prefix(e, s, p, k - 1);
    }
}

/// Trimming never changes which sites an edge belongs to.
proof fn lemma_trim_upto_ids(e: VoronoiEdge, s: Seq<Point>, k: int)
    ensures
        trim_upto(Some(e), s, k) matches Some(x) ==> x.points == e.points,
    decreases k,
{
    if k > 0 {
        lemma_trim_upto_ids(e, s, k - 1);
    }
}

/// The edges among old sites, after one more site, are the old ones trimmed.
proof fn lemma_rows_step(s: Seq<Point>, p: Point, m: int)
    requires
        0 <= m <= s.len(),
        s.len() < u32::MAX,
    ensures
        rows(s, m).map_values(|o: Option<VoronoiEdge>| trim_step(o, p, s.len() as int))
            == rows(s.push(p), m),
    decreases m,
{
    let g = |o: Option<VoronoiEdge>| trim_step(o, p, s.len() as int);
    let t = s.push(p);
    if m <= 0 {
        assert(rows(s, m).map_values(g) =~= rows(t, m));
    } else {
        lemma_rows_step(s, p, m - 1);
        let j = m - 1;
        assert forall|i: int| 0 <= i < j implies g(#[trigger] row(s, j)[i]) == row(t, j)[i] by {
            let b = VoronoiEdge::bisector(s[i], s[j], i as PointId, j as PointId);
            assert(t[i] == s[i] && t[j] == s[j]);
            lemma_trim_upto_prefix(Some(b), s, p, s.len() as int);
            assert(t[s.len() as int] == p);
        }
        assert(row(s, j).map_values(g) =~= row(t, j));
        assert((rows(s, j) + row(s, j)).map_values(g) =~= rows(s, j).map_values(g) + row(s, j).map_values(g));
    }
}

/// The new row of edges is the trimmed candidates.
proof fn lemma_candidates_row(s: Seq<Point>, p: Point)
    requires
        s.len() < u32::MAX,
    ensures
        candidates(s, p) == somes(row(s.push(p), s.len() as int)),
{
    let n = s.len() as int;
    let t = s.push(p);
    let c = Seq::new(
        s.len(),
        |i: int| trim_upto(Some(VoronoiEdge::bisector(s[i], p, i as PointId, s.len() as PointId)), s, n),
    );
    assert forall|i: int| 0 <= i < n implies #[trigger] c[i] == row(t, n)[i] by {
        let b = VoronoiEdge::bisector(s[i], p, i as PointId, n as PointId);
        assert(t[i] == s[i] && t[n] == p);
        lemma_trim_upto_prefix(Some(b), s, p, n);
        lemma_trim_upto_ids(b, t, n);
    }
    assert(c =~= row(t, n));
}

/// Well formed, and its two ids are distinct sites below `n`.
pub open spec fn edge_ok(e: VoronoiEdge, n: int) -> bool {
    &&& e.wf()
    &&& e.points[0] < e.points[1] < n
}

} // verus!
