//! The pieces in which the edges of a shape are drawn. The edge list holds two
//! vertex indices per edge; each edge is cut into `subdivisions` equal
//! pieces, drawn edge by edge and, within an edge, from its first vertex on.
use vstd::prelude::*;
use vstd::arithmetic::div_mod::lemma_fundamental_div_mod_converse;

verus! {

/// The piece of edge `edge`, from vertex `start_vertex` to vertex
/// `end_vertex`, that runs from `step / steps` to `(step + 1) / steps` of the
/// way.
#[derive(Clone, Copy, Debug, PartialEq, Eq, Structural)]
pub struct EdgeSegment {
    pub edge: usize,
    pub start_vertex: usize,
    pub end_vertex: usize,
    pub step: i32,
    pub steps: i32,
}

/// How many pieces each edge is cut into: none when the count is not
/// positive.
pub open spec fn pieces_per_edge(subdivisions: i32) -> int {
    if subdivisions > 0 {
        subdivisions as int
    } else {
        0
    }
}

/// The `k`-th piece drawn.
pub open spec fn planned_segment(edges: Seq<usize>, subdivisions: i32, k: int) -> EdgeSegment {
    let n = pieces_per_edge(subdivisions);
    let e = k / n;
    EdgeSegment {
        edge: e as usize,
        start_vertex: edges[2 * e],
        end_vertex: edges[2 * e + 1],
        step: (k % n) as i32,
        steps: subdivisions,
    }
}

/// Every piece of every edge, in drawing order.
pub fn edge_segments(edges: &Vec<usize>, subdivisions: i32) -> (segments: Vec<EdgeSegment>)
    requires
        edges.len() % 2 == 0,
    ensures
        segments.len() == (edges.len() / 2) * pieces_per_edge(subdivisions),
        forall|k: int|
            0 <= k < segments.len() ==> #[trigger] segments[k] == planned_segment(
                edges@,
                subdivisions,
                k,
            ),
        subdivisions <= 0 ==> segments.len() == 0,
        subdivisions > 0 ==> segments.len() == (edges.len() / 2) * (subdivisions as int),
        forall|k: int|
            0 <= k < segments.len() ==> {
                &&& (#[trigger] segments[k]).edge as int == k / (subdivisions as int)
                &&& segments[k].start_vertex == edges@[2 * (k / (subdivisions as int))]
                &&& segments[k].end_vertex == edges@[2 * (k / (subdivisions as int)) + 1]
                &&& segments[k].step as int == k % (subdivisions as int)
                &&& segments[k].steps == subdivisions
            },
{
    let mut segments: Vec<EdgeSegment> = Vec::new();
    let ghost n = pieces_per_edge(subdivisions);
    let mut i: usize = 0;
    while i < edges.len()
        invariant
            edges.len() % 2 == 0,
            i % 2 == 0,
            i <= edges.len(),
            n == pieces_per_edge(subdivisions),
            segments.len() == (i / 2) * n,
            forall|k: int|
                0 <= k < segments.len() ==> #[trigger] segments[k] == planned_segment(
                    edges@,
                    subdivisions,
                    k,
                ),
        decreases edges.len() - i,
    {
        let start_vertex = edges[i];
        let end_vertex = edges[i + 1];
        let mut s: i32 = 0;
        while s < subdivisions
            invariant
                edges.len() % 2 == 0,
                i % 2 == 0,
                i + 1 < edges.len(),
                start_vertex == edges@[i as int],
                end_vertex == edges@[i + 1],
                n == pieces_per_edge(subdivisions),
                0 <= s,
                s > 0 ==> s <= subdivisions,
                segments.len() == (i / 2) * n + s,
                forall|k: int|
                    0 <= k < segments.len() ==> #[trigger] segments[k] == planned_segment(
                        edges@,
                        subdivisions,
                        k,
                    ),
            decreases subdivisions - s,
        {
            let ghost k = segments.len() as int;
            proof {
                lemma_fundamental_div_mod_converse(k, n, (i / 2) as int, s as int);
            }
            segments.push(
                EdgeSegment { edge: i / 2, start_vertex, end_vertex, step: s, steps: subdivisions },
            );
            s = s + 1;
        }
        proof {
            if subdivisions > 0 {
                assert(s == subdivisions);
            } else {
                assert(s == 0);
            }
            assert(segments.len() == (i / 2 + 1) * n) by (nonlinear_arith)
                requires
                    segments.len() == (i / 2) * n + (if subdivisions > 0 {
                        subdivisions as int
                    } else {
                        0
                    }),
                    n == (if subdivisions > 0 {
                        subdivisions as int
                    } else {
                        0
                    }),
            ;
        }
        i = i + 2;
    }
    proof {
        if subdivisions <= 0 {
            assert(segments.len() == (edges.len() / 2) * 0);
        }
        assert forall|k: int| 0 <= k < segments.len() implies {
            &&& (#[trigger] segments[k]).edge as int == k / (subdivisions as int)
            &&& segments[k].start_vertex == edges@[2 * (k / (subdivisions as int))]
            &&& segments[k].end_vertex == edges@[2 * (k / (subdivisions as int)) + 1]
            &&& segments[k].step as int == k % (subdivisions as int)
            &&& segments[k].steps == subdivisions
        } by {
            assert(subdivisions > 0);
            let q = k / (subdivisions as int);
            assert(0 <= q) by (nonlinear_arith)
                requires
                    k >= 0,
                    subdivisions > 0,
                    q == k / (subdivisions as int),
            ;
            assert(q < edges.len() / 2) by (nonlinear_arith)
                requires
                    0 <= k < (edges.len() / 2) * (subdivisions as int),
                    subdivisions > 0,
                    q == k / (subdivisions as int),
            ;
        }
    }
    segments
}

/// Law: the pieces of an edge follow one another without gap or overlap: the
/// first starts at the edge's first vertex, each next one starts where the one
/// before ended, and the last ends at the edge's second vertex.
pub proof fn lemma_segments_cover_edge(edges: Seq<usize>, subdivisions: i32, k: int)
    requires
        edges.len() % 2 == 0,
        subdivisions > 0,
        0 <= k < (edges.len() / 2) * subdivisions,
    ensures
        k % (subdivisions as int) == 0 ==> planned_segment(edges, subdivisions, k).step == 0,
        (k + 1) % (subdivisions as int) == 0 ==> planned_segment(edges, subdivisions, k).step + 1
            == subdivisions,
        (k + 1) % (subdivisions as int) != 0 ==> {
            &&& planned_segment(edges, subdivisions, k + 1).edge == planned_segment(
                edges,
                subdivisions,
                k,
            ).edge
            &&& planned_segment(edges, subdivisions, k + 1).step == planned_segment(
                edges,
                subdivisions,
                k,
            ).step + 1
        },
{
    let n = subdivisions as int;
    let q = k / n;
    let r = k % n;
    assert(k == q * n + r && 0 <= r < n) by {
        vstd::arithmetic::div_mod::lemma_fundamental_div_mod(k, n);
    }
    if r + 1 < n {
        lemma_fundamental_div_mod_converse(k + 1, n, q, r + 1);
    } else {
        assert((q + 1) * n == q * n + n) by (nonlinear_arith);
        lemma_fundamental_div_mod_converse(k + 1, n, q + 1, 0);
    }
}

} // verus!
