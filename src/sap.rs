//! Shortest ancestral paths: the fewest edges from two vertex sets to a common vertex.

use vstd::prelude::*;
use crate::bfdp::{self, is_distance, reaches, lemma_reaches_monotone};
use crate::digraph::Digraph;

verus! {

/// Some vertex can be reached both from `vs` and from `ws`.
pub open spec fn have_common_ancestor(g: Seq<Seq<usize>>, vs: Seq<usize>, ws: Seq<usize>) -> bool {
    exists|t: usize, a: nat, b: nat|
        (t as int) < g.len() && #[trigger] reaches(g, vs, t, a) && #[trigger] reaches(g, ws, t, b)
}

/// `len` is the length of a shortest ancestral path between `vs` and `ws`: some
/// vertex lies `a` edges from `vs` and `b` edges from `ws` with `a + b == len`, and no
/// vertex can be reached from both with fewer edges in all.
pub open spec fn is_shortest_ancestral(g: Seq<Seq<usize>>, vs: Seq<usize>, ws: Seq<usize>, len: int) -> bool {
    &&& exists|t: usize, a: nat, b: nat|
        (t as int) < g.len() && #[trigger] is_distance(g, vs, t, a) && #[trigger] is_distance(g, ws, t, b) && len
            == a + b
    &&& forall|t: usize, a: nat, b: nat|
        (t as int) < g.len() && #[trigger] reaches(g, vs, t, a) && #[trigger] reaches(g, ws, t, b) ==> len <= a
            + b
}

/// The length of a shortest ancestral path between `vs` and `ws`, or `None` if no
/// vertex can be reached from both.
pub fn path_stats_between(g: &Digraph, vs: Vec<usize>, ws: Vec<usize>) -> (r: Option<i32>)
    requires
        g.wf(),
        g@.len() <= 0x4000_0000,
        forall|k: int| 0 <= k < vs@.len() ==> #[trigger] vs@[k] < g@.len(),
        forall|k: int| 0 <= k < ws@.len() ==> #[trigger] ws@[k] < g@.len(),
    ensures
        r is None <==> !have_common_ancestor(g@, vs@, ws@),
        r matches Some(len) ==> is_shortest_ancestral(g@, vs@, ws@, len as int),
{
    let ghost gv = g@;
    let ghost vsv = vs@;
    let ghost wsv = ws@;
    let vs_result = bfdp::search(g, vs);
    let ws_result = bfdp::search(g, ws);
    let n = g.vertices();
    let mut best_path: Option<i32> = None;
    let mut target: usize = 0;
    while target < n
        invariant
            gv == g@,
            n == gv.len(),
            n <= 0x4000_0000,
            target <= n,
            vs_result.wf(),
            ws_result.wf(),
            vs_result.vertex_count() == n,
            ws_result.vertex_count() == n,
            forall|v: usize|
                (v as int) < n && #[trigger] vs_result.is_marked(v as int) ==> 0 <= vs_result.dist(v as int) < n
                    && is_distance(gv, vsv, v, vs_result.dist(v as int) as nat),
            forall|v: usize, d: nat|
                (v as int) < n && !vs_result.is_marked(v as int) ==> !#[trigger] reaches(gv, vsv, v, d),
            forall|v: usize|
                (v as int) < n && #[trigger] ws_result.is_marked(v as int) ==> 0 <= ws_result.dist(v as int) < n
                    && is_distance(gv, wsv, v, ws_result.dist(v as int) as nat),
            forall|v: usize, d: nat|
                (v as int) < n && !ws_result.is_marked(v as int) ==> !#[trigger] reaches(gv, wsv, v, d),
            best_path is None <==> forall|t: usize|
                t < target ==> !(#[trigger] vs_result.is_marked(t as int) && ws_result.is_marked(t as int)),
            best_path matches Some(b) ==> {
                &&& exists|t: usize|
                    t < target && #[trigger] vs_result.is_marked(t as int) && ws_result.is_marked(t as int) && b
                        == vs_result.dist(t as int) + ws_result.dist(t as int)
                &&& forall|t: usize|
                    t < target && #[trigger] vs_result.is_marked(t as int) && ws_result.is_marked(t as int) ==> b
                        <= vs_result.dist(t as int) + ws_result.dist(t as int)
            },
        decreases n - target,
    {
        let target_paths = (vs_result.dist_to(target), ws_result.dist_to(target));
        match target_paths {
            (Some(v_tp), Some(w_tp)) => {
                best_path = Some(
                    match best_path {
                        None => v_tp + w_tp,
                        Some(best_path_len) => if v_tp + w_tp < best_path_len {
                            v_tp + w_tp
                        } else {
                            best_path_len
                        },
                    },
                );
            },
            _ => {},
        }
        target += 1;
    }
    proof {
        if have_common_ancestor(gv, vsv, wsv) {
            let (t, a, b) = choose|t: usize, a: nat, b: nat|
                (t as int) < gv.len() && #[trigger] reaches(gv, vsv, t, a) && #[trigger] reaches(gv, wsv, t, b);
            assert(vs_result.is_marked(t as int) && ws_result.is_marked(t as int));
        }
        if let Some(len) = best_path {
            let t = choose|t: usize|
                t < target && #[trigger] vs_result.is_marked(t as int) && ws_result.is_marked(t as int) && len
                    == vs_result.dist(t as int) + ws_result.dist(t as int);
            let a = vs_result.dist(t as int) as nat;
            let b = ws_result.dist(t as int) as nat;
            assert(is_distance(gv, vsv, t, a) && is_distance(gv, wsv, t, b));
            assert(reaches(gv, vsv, t, a) && reaches(gv, wsv, t, b));
            assert forall|t2: usize, a2: nat, b2: nat|
                (t2 as int) < gv.len() && #[trigger] reaches(gv, vsv, t2, a2) && #[trigger] reaches(gv, wsv, t2, b2) implies len
                    <= a2 + b2 by {
                assert(vs_result.is_marked(t2 as int) && ws_result.is_marked(t2 as int));
                let da = vs_result.dist(t2 as int);
                let db = ws_result.dist(t2 as int);
                if a2 < da {
                    lemma_reaches_monotone(gv, vsv, t2, a2, (da - 1) as nat);
                }
                if b2 < db {
                    lemma_reaches_monotone(gv, wsv, t2, b2, (db - 1) as nat);
                }
            }
        }
    }
    best_path
}

/// At most one length is the length of a shortest ancestral path.
pub proof fn lemma_shortest_ancestral_unique(
    g: Seq<Seq<usize>>,
    vs: Seq<usize>,
    ws: Seq<usize>,
    a: int,
    b: int,
)
    requires
        is_shortest_ancestral(g, vs, ws, a),
        is_shortest_ancestral(g, vs, ws, b),
    ensures
        a == b,
{
    let (t1, a1, b1) = choose|t: usize, x: nat, y: nat|
        (t as int) < g.len() && #[trigger] is_distance(g, vs, t, x) && #[trigger] is_distance(g, ws, t, y) && a == x + y;
    let (t2, a2, b2) = choose|t: usize, x: nat, y: nat|
        (t as int) < g.len() && #[trigger] is_distance(g, vs, t, x) && #[trigger] is_distance(g, ws, t, y) && b == x + y;
    assert(reaches(g, vs, t1, a1) && reaches(g, ws, t1, b1));
    assert(reaches(g, vs, t2, a2) && reaches(g, ws, t2, b2));
}

} // verus!
