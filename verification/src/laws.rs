//! What holds of the searches as a whole: every reconstructed path
//! respects the Manhattan floor, a reset makes a restart fail exactly like
//! a fresh instance, breadth-first stepping is deterministic, and on an
//! obstacle-free grid breadth-first search reconstructs a shortest path.

use crate::algorithm::bfs::Bfs;
use crate::algorithm::{
    adjacent_links, fresh_items, lemma_contains_concat, lemma_fresh_items_complete,
    lemma_fresh_items_no_dup, lemma_fresh_items_sub, lemma_preds_inserted_mem,
    lemma_preds_inserted_other, lemma_valid_chain_preds_inserted, lemma_valid_chain_unique,
    valid_chain, Algorithm, AlgorithmError,
};
use crate::map::grid::{lemma_neighbors_sound, Grid};
use crate::map::{Title, TitleCoords};
use vstd::prelude::*;

verus! {

/// A reconstructed path can never undercut the Manhattan distance: every
/// predecessor link moves exactly one cell, so a chain from `goal` to
/// `start` holds at least `manhattan + 1` cells — equivalently, its cost in
/// unit steps is at least the Manhattan distance. This is the floor that
/// the shortest-path searches meet with equality on an obstacle-free grid.
pub proof fn lemma_chain_at_least_manhattan(
    m: Map<TitleCoords, Option<TitleCoords>>,
    seg: Seq<TitleCoords>,
    goal: TitleCoords,
    start: TitleCoords,
)
    requires
        valid_chain(m, seg, goal, start),
        adjacent_links(m),
    ensures
        seg.len() >= goal.manhattan(start) + 1,
    decreases seg.len(),
{
    if seg.len() == 1 {
        assert(goal == start);
    } else {
        assert(seg[0] != start && m.contains_key(seg[0]) && m[seg[0]] == Some(seg[1]));
        assert(seg[1].manhattan(seg[0]) == 1);
        let tail = seg.skip(1);
        assert(valid_chain(m, tail, seg[1], start)) by {
            assert(tail[0] == seg[1]);
            assert(tail.last() == seg.last());
            assert forall|i: int| 0 <= i < tail.len() - 1 implies {
                &&& #[trigger] tail[i] != start
                &&& m.contains_key(tail[i])
                &&& m[tail[i]] == Some(tail[i + 1])
            } by {
                assert(tail[i] == seg[i + 1] && tail[i + 1] == seg[i + 2]);
            }
        }
        lemma_chain_at_least_manhattan(m, tail, seg[1], start);
        assert(goal.manhattan(start) <= seg[1].manhattan(goal) + seg[1].manhattan(start));
    }
}

/// Calling `reset` and then immediately `start`, without designating Start
/// and Goal in between, is rejected with `InvalidInputData` — and a freshly
/// constructed algorithm started on the same grid is rejected with the very
/// same error.
pub proof fn lemma_reset_then_start_is_invalid(
    a0: Algorithm,
    a1: Algorithm,
    g0: Grid,
    g1: Grid,
    a2: Algorithm,
    g2: Grid,
    r: Result<(), AlgorithmError>,
    b0: Algorithm,
    b1: Algorithm,
    g3: Grid,
    r2: Result<(), AlgorithmError>,
)
    requires
        Algorithm::reset_post(a0, a1, g0, g1),
        Algorithm::start_post(a1, a2, g1, g2, r),
        b0.is_initial(),
        Algorithm::start_post(b0, b1, g1, g3, r2),
    ensures
        r == Err::<(), AlgorithmError>(AlgorithmError::InvalidInputData),
        a2.is_initial(),
        r2 == r,
{
    assert(g1.start_title is None);
}

/// The breadth-first state, as far as any outcome depends on it: the
/// frontier, the visited order, the predecessor record, the reconstructed
/// path and the coordinator.
pub open spec fn bfs_obs_eq(a: Bfs, b: Bfs) -> bool {
    &&& a.title_processing_queue@ == b.title_processing_queue@
    &&& a.visited_titles@ == b.visited_titles@
    &&& a.path_finder.path@ == b.path_finder.path@
    &&& a.path_finder.solution_path@ == b.path_finder.solution_path@
    &&& a.sim_coordinator == b.sim_coordinator
}

/// A breadth-first step reads nothing beyond the observable state: an
/// outcome a step admits from one state and grid is admitted just the same
/// from an observably identical state and grid.
pub proof fn lemma_bfs_step_post_congruence(
    pre1: Bfs,
    pre2: Bfs,
    g1: Grid,
    g2: Grid,
    post: Bfs,
    gpost: Grid,
    delta_time: u64,
)
    requires
        bfs_obs_eq(pre1, pre2),
        g1.unchanged_from(g2),
        g1.wf(),
        Bfs::step_post(pre1, post, g1, gpost, delta_time),
    ensures
        Bfs::step_post(pre2, post, g2, gpost, delta_time),
{
    assert(g2.wf()) by {
        assert forall|i: int| 0 <= i < g2.titles@.len() implies (#[trigger] g2.titles@[i])@.len()
            == g2.rows as int by {
            assert(g1.titles@[i]@ == g2.titles@[i]@);
        }
    }
    assert forall|d: TitleCoords| g1.spec_in_bounds(d) implies g1.tile_at(d) == g2.tile_at(
        d,
    ) by {
        assert(g1.titles@[d.x as int]@ == g2.titles@[d.x as int]@);
    }
    assert forall|d: TitleCoords| g1.spec_traversable(d) == g2.spec_traversable(d) by {
        if g1.spec_in_bounds(d) {
            assert(g1.tile_at(d) == g2.tile_at(d));
        }
    }
    assert forall|c: TitleCoords| #[trigger] g1.spec_neighbors(c) == g2.spec_neighbors(c) by {
        assert(g1.spec_neighbors(c) =~= g2.spec_neighbors(c));
    }
    if pre1.sim_coordinator.spec_ready(delta_time) && pre1.title_processing_queue@.len() != 0 {
        let current = pre1.title_processing_queue@[0];
        let goal = g1.goal_title->0;
        if current == goal {
            assert forall|d: TitleCoords| g2.spec_in_bounds(d) implies gpost.tile_at(d) == (
            if post.path_finder.solution_path@.contains(d) && g2.tile_at(d) == (Title::Normal {
                was_visited: true,
            }) {
                Title::Path
            } else {
                g2.tile_at(d)
            }) by {
                assert(g1.tile_at(d) == g2.tile_at(d));
            }
        } else {
            let fresh = fresh_items(g1.spec_neighbors(current), pre1.visited_titles@);
            assert(g2.spec_neighbors(current) == g1.spec_neighbors(current));
            assert forall|d: TitleCoords| g2.spec_in_bounds(d) implies gpost.tile_at(d) == (
            if d == current && !g2.spec_is_start_or_end(current) {
                (Title::Normal { was_visited: true })
            } else if fresh.contains(d) && !g2.spec_is_start_or_end(d) {
                Title::Process
            } else {
                g2.tile_at(d)
            }) by {
                assert(g1.tile_at(d) == g2.tile_at(d));
                if d == current {
                    assert(g1.spec_is_start_or_end(current) == g2.spec_is_start_or_end(current));
                }
            }
        }
    }
}

proof fn lemma_unchanged_symmetric(a: Grid, b: Grid)
    requires
        a.unchanged_from(b),
    ensures
        b.unchanged_from(a),
{
    assert forall|i: int| 0 <= i < b.titles@.len() implies (#[trigger] b.titles@[i])@
        == a.titles@[i]@ by {
        assert(a.titles@[i]@ == b.titles@[i]@);
    }
}

/// Determinism of a breadth-first step: from one state and grid, stepping
/// with the same elapsed time can only produce one observable outcome —
/// the frontier, visited order, predecessor record, reconstructed path,
/// coordinator state and every tile agree between any two runs.
pub proof fn lemma_bfs_step_deterministic(
    pre: Bfs,
    g: Grid,
    delta_time: u64,
    post1: Bfs,
    gpost1: Grid,
    post2: Bfs,
    gpost2: Grid,
)
    requires
        g.wf(),
        Bfs::step_post(pre, post1, g, gpost1, delta_time),
        Bfs::step_post(pre, post2, g, gpost2, delta_time),
    ensures
        post1.title_processing_queue@ == post2.title_processing_queue@,
        post1.visited_titles@ == post2.visited_titles@,
        post1.path_finder.path@ == post2.path_finder.path@,
        post1.path_finder.solution_path@ == post2.path_finder.solution_path@,
        post1.sim_coordinator == post2.sim_coordinator,
        forall|d: TitleCoords| g.spec_in_bounds(d) ==> gpost1.tile_at(d) == gpost2.tile_at(d),
{
    if pre.sim_coordinator.spec_ready(delta_time) && pre.title_processing_queue@.len() != 0 {
        let current = pre.title_processing_queue@[0];
        let goal = g.goal_title->0;
        let start = g.start_title->0;
        if current == goal {
            let n0 = pre.path_finder.solution_path@.len() as int;
            let seg1 = post1.path_finder.solution_path@.skip(n0);
            let seg2 = post2.path_finder.solution_path@.skip(n0);
            lemma_valid_chain_unique(pre.path_finder.path@, seg1, seg2, goal, start);
            assert(post1.path_finder.solution_path@ =~= post2.path_finder.solution_path@) by {
                assert(post1.path_finder.solution_path@.len() == n0 + seg1.len());
                assert(post2.path_finder.solution_path@.len() == n0 + seg2.len());
                assert forall|i: int|
                    0 <= i < post1.path_finder.solution_path@.len() implies post1.path_finder.solution_path@[i]
                    == post2.path_finder.solution_path@[i] by {
                    if i < n0 {
                        assert(post1.path_finder.solution_path@.subrange(0, n0)[i]
                            == pre.path_finder.solution_path@[i]);
                        assert(post2.path_finder.solution_path@.subrange(0, n0)[i]
                            == pre.path_finder.solution_path@[i]);
                    } else {
                        assert(seg1[i - n0] == seg2[i - n0]);
                    }
                }
            }
        } else {
            assert(post1.path_finder.path@ == post2.path_finder.path@);
        }
    } else {
        assert forall|d: TitleCoords| g.spec_in_bounds(d) implies gpost1.tile_at(d)
            == gpost2.tile_at(d) by {
            assert(gpost1.titles@[d.x as int]@ == g.titles@[d.x as int]@);
            assert(gpost2.titles@[d.x as int]@ == g.titles@[d.x as int]@);
        }
    }
}


/// Determinism of whole breadth-first runs, the fixed-sequence form: two
/// runs driven from one observable initial state and grid by the same
/// sequence of elapsed times agree observably at every point — they visit
/// the same cells in the same order and reconstruct the same path.
pub proof fn lemma_bfs_run_deterministic(
    states1: Seq<Bfs>,
    grids1: Seq<Grid>,
    states2: Seq<Bfs>,
    grids2: Seq<Grid>,
    deltas: Seq<u64>,
)
    requires
        states1.len() == deltas.len() + 1,
        states2.len() == deltas.len() + 1,
        grids1.len() == states1.len(),
        grids2.len() == states2.len(),
        bfs_obs_eq(states1[0], states2[0]),
        grids1[0].unchanged_from(grids2[0]),
        forall|i: int| 0 <= i < grids1.len() ==> (#[trigger] grids1[i]).wf(),
        forall|i: int| 0 <= i < grids2.len() ==> (#[trigger] grids2[i]).wf(),
        forall|i: int|
            0 <= i < deltas.len() ==> Bfs::step_post(
                #[trigger] states1[i],
                states1[i + 1],
                grids1[i],
                grids1[i + 1],
                deltas[i],
            ),
        forall|i: int|
            0 <= i < deltas.len() ==> Bfs::step_post(
                #[trigger] states2[i],
                states2[i + 1],
                grids2[i],
                grids2[i + 1],
                deltas[i],
            ),
    ensures
        forall|i: int| 0 <= i < states1.len() ==> bfs_obs_eq(#[trigger] states1[i], states2[i]),
        forall|i: int|
            0 <= i < grids1.len() ==> (#[trigger] grids1[i]).unchanged_from(grids2[i]),
    decreases deltas.len(),
{
    if deltas.len() == 0 {
        assert forall|i: int| 0 <= i < states1.len() implies bfs_obs_eq(
            #[trigger] states1[i],
            states2[i],
        ) by {
            assert(i == 0);
        }
        assert forall|i: int| 0 <= i < grids1.len() implies (#[trigger] grids1[i]).unchanged_from(
            grids2[i],
        ) by {
            assert(i == 0);
        }
    } else {
        assert(Bfs::step_post(states1[0], states1[1], grids1[0], grids1[1], deltas[0]));
        assert(Bfs::step_post(states2[0], states2[1], grids2[0], grids2[1], deltas[0]));
        lemma_unchanged_symmetric(grids1[0], grids2[0]);
        lemma_bfs_step_post_congruence(
            states2[0],
            states1[0],
            grids2[0],
            grids1[0],
            states2[1],
            grids2[1],
            deltas[0],
        );
        lemma_bfs_step_deterministic(
            states1[0],
            grids1[0],
            deltas[0],
            states1[1],
            grids1[1],
            states2[1],
            grids2[1],
        );
        assert(grids1[1].unchanged_from(grids2[1])) by {
            assert(grids1[1].wf() && grids2[1].wf());
            assert forall|x: int| 0 <= x < grids1[1].titles@.len() implies (
            #[trigger] grids1[1].titles@[x])@ == grids2[1].titles@[x]@ by {
                assert forall|y: int|
                    0 <= y < grids1[1].titles@[x]@.len() implies grids1[1].titles@[x]@[y]
                    == grids2[1].titles@[x]@[y] by {
                    let d = (TitleCoords { x: x as usize, y: y as usize });
                    assert(grids1[0].spec_in_bounds(d));
                    assert(grids1[1].tile_at(d) == grids2[1].tile_at(d));
                }
                assert(grids1[1].titles@[x]@ =~= grids2[1].titles@[x]@);
            }
        }
        let s1 = states1.skip(1);
        let s2 = states2.skip(1);
        let h1 = grids1.skip(1);
        let h2 = grids2.skip(1);
        let ds = deltas.skip(1);
        assert forall|i: int| 0 <= i < h1.len() implies (#[trigger] h1[i]).wf() by {
            assert(h1[i] == grids1[i + 1]);
        }
        assert forall|i: int| 0 <= i < h2.len() implies (#[trigger] h2[i]).wf() by {
            assert(h2[i] == grids2[i + 1]);
        }
        assert forall|i: int| 0 <= i < ds.len() implies Bfs::step_post(
            #[trigger] s1[i],
            s1[i + 1],
            h1[i],
            h1[i + 1],
            ds[i],
        ) by {
            assert(s1[i] == states1[i + 1] && s1[i + 1] == states1[i + 2]);
            assert(h1[i] == grids1[i + 1] && h1[i + 1] == grids1[i + 2]);
            assert(ds[i] == deltas[i + 1]);
            assert(Bfs::step_post(
                states1[i + 1],
                states1[i + 2],
                grids1[i + 1],
                grids1[i + 2],
                deltas[i + 1],
            ));
        }
        assert forall|i: int| 0 <= i < ds.len() implies Bfs::step_post(
            #[trigger] s2[i],
            s2[i + 1],
            h2[i],
            h2[i + 1],
            ds[i],
        ) by {
            assert(s2[i] == states2[i + 1] && s2[i + 1] == states2[i + 2]);
            assert(h2[i] == grids2[i + 1] && h2[i + 1] == grids2[i + 2]);
            assert(ds[i] == deltas[i + 1]);
            assert(Bfs::step_post(
                states2[i + 1],
                states2[i + 2],
                grids2[i + 1],
                grids2[i + 2],
                deltas[i + 1],
            ));
        }
        lemma_bfs_run_deterministic(s1, h1, s2, h2, ds);
        assert forall|i: int| 0 <= i < states1.len() implies bfs_obs_eq(
            #[trigger] states1[i],
            states2[i],
        ) by {
            if i > 0 {
                assert(s1[i - 1] == states1[i] && s2[i - 1] == states2[i]);
                assert(bfs_obs_eq(s1[i - 1], s2[i - 1]));
            }
        }
        assert forall|i: int| 0 <= i < grids1.len() implies (#[trigger] grids1[i]).unchanged_from(
            grids2[i],
        ) by {
            if i > 0 {
                assert(h1[i - 1] == grids1[i] && h2[i - 1] == grids2[i]);
                assert(h1[i - 1].unchanged_from(h2[i - 1]));
            }
        }
    }
}


/// No title of the grid is an obstacle.
pub open spec fn obstacle_free(g: Grid) -> bool {
    forall|d: TitleCoords| g.spec_in_bounds(d) ==> #[trigger] g.tile_at(d) != Title::Obstacle
}

/// On an obstacle-free grid the neighbor list is complete: every in-bounds
/// cell one Manhattan step away is reported.
proof fn lemma_neighbors_complete(g: Grid, c: TitleCoords, n: TitleCoords)
    requires
        obstacle_free(g),
        g.spec_in_bounds(n),
        n.manhattan(c) == 1,
    ensures
        g.spec_neighbors(c).contains(n),
{
    let up = (TitleCoords { x: c.x, y: (c.y - 1) as usize });
    let down = (TitleCoords { x: c.x, y: (c.y + 1) as usize });
    let left = (TitleCoords { x: (c.x - 1) as usize, y: c.y });
    let right = (TitleCoords { x: (c.x + 1) as usize, y: c.y });
    let a = (if c.y > 0 && g.spec_traversable(up) {
        seq![up]
    } else {
        Seq::<TitleCoords>::empty()
    });
    let b = (if c.y < usize::MAX && g.spec_traversable(down) {
        seq![down]
    } else {
        Seq::<TitleCoords>::empty()
    });
    let l = (if c.x > 0 && g.spec_traversable(left) {
        seq![left]
    } else {
        Seq::<TitleCoords>::empty()
    });
    let r = (if c.x < usize::MAX && g.spec_traversable(right) {
        seq![right]
    } else {
        Seq::<TitleCoords>::empty()
    });
    assert(g.spec_neighbors(c) == a + b + l + r);
    assert(g.spec_traversable(n));
    if n.x == c.x {
        if n.y as int == c.y as int - 1 {
            assert(c.y > 0);
            assert(n == up);
            assert(a == seq![up]);
            assert(a[0] == n);
        } else {
            assert(n.y as int == c.y as int + 1);
            assert(c.y < usize::MAX);
            assert(n == down);
            assert(b == seq![down]);
            assert(b[0] == n);
        }
    } else {
        assert(n.y == c.y);
        if n.x as int == c.x as int - 1 {
            assert(c.x > 0);
            assert(n == left);
            assert(l == seq![left]);
            assert(l[0] == n);
        } else {
            assert(n.x as int == c.x as int + 1);
            assert(c.x < usize::MAX);
            assert(n == right);
            assert(r == seq![right]);
            assert(r[0] == n);
        }
    }
    lemma_contains_concat(a + b + l, r, n);
    lemma_contains_concat(a + b, l, n);
    lemma_contains_concat(a, b, n);
}

/// The breadth-first level structure on an obstacle-free grid with start
/// `s`: visited cells and predecessor keys coincide and hold chains of
/// exactly their Manhattan distance; the frontier is sorted by distance and
/// spans at most two consecutive levels; fully expanded cells have all
/// their neighbors discovered; and every cell closer than the frontier has
/// been discovered.
pub open spec fn bfs_levels_inv(b: Bfs, g: Grid, s: TitleCoords) -> bool {
    let m = b.path_finder.path@;
    let q = b.title_processing_queue@;
    let v = b.visited_titles@;
    &&& g.wf()
    &&& obstacle_free(g)
    &&& g.start_title == Some(s)
    &&& g.spec_in_bounds(s)
    &&& v.contains(s)
    &&& forall|c: TitleCoords| #[trigger] v.contains(c) ==> g.spec_in_bounds(c)
    &&& forall|c: TitleCoords| #[trigger] m.contains_key(c) <==> v.contains(c)
    &&& forall|i: int| 0 <= i < q.len() ==> v.contains(#[trigger] q[i])
    &&& q.no_duplicates()
    &&& forall|c: TitleCoords|
        #[trigger] m.contains_key(c) ==> exists|seg: Seq<TitleCoords>|
            valid_chain(m, seg, c, s) && seg.len() == s.manhattan(c) + 1
    &&& forall|i: int, j: int|
        0 <= i < j < q.len() ==> s.manhattan(#[trigger] q[i]) <= s.manhattan(#[trigger] q[j])
    &&& forall|i: int|
        0 <= i < q.len() ==> s.manhattan(#[trigger] q[i]) <= s.manhattan(q[0]) + 1
    &&& forall|c: TitleCoords|
        (#[trigger] v.contains(c)) && !q.contains(c) ==> (forall|n: TitleCoords|
            g.spec_in_bounds(n) && #[trigger] n.manhattan(c) == 1 ==> v.contains(n))
    &&& forall|c: TitleCoords|
        g.spec_in_bounds(c) && q.len() > 0 && #[trigger] s.manhattan(c) < s.manhattan(q[0])
            ==> v.contains(c)
}

/// A successful `start` on an obstacle-free grid establishes the level
/// structure.
pub proof fn lemma_bfs_start_levels(
    pre: Bfs,
    post: Bfs,
    gpre: Grid,
    gpost: Grid,
    r: Result<(), AlgorithmError>,
    s: TitleCoords,
)
    requires
        Bfs::start_post(pre, post, gpre, gpost, r),
        r is Ok,
        gpre.start_title == Some(s),
        gpre.spec_in_bounds(s),
        obstacle_free(gpre),
        gpre.wf(),
    ensures
        bfs_levels_inv(post, gpost, s),
{
    let m = post.path_finder.path@;
    let q = post.title_processing_queue@;
    let v = post.visited_titles@;
    assert(gpost.wf()) by {
        assert forall|i: int| 0 <= i < gpost.titles@.len() implies (
        #[trigger] gpost.titles@[i])@.len() == gpost.rows as int by {
            assert(gpre.titles@[i]@ == gpost.titles@[i]@);
        }
    }
    assert(obstacle_free(gpost)) by {
        assert forall|d: TitleCoords| gpost.spec_in_bounds(d) implies #[trigger] gpost.tile_at(d)
            != Title::Obstacle by {
            assert(gpre.titles@[d.x as int]@ == gpost.titles@[d.x as int]@);
            assert(gpre.tile_at(d) != Title::Obstacle);
        }
    }
    assert(q[0] == s && v[0] == s);
    assert(v.contains(s));
    assert forall|c: TitleCoords| #[trigger] v.contains(c) implies c == s by {}
    assert forall|c: TitleCoords| #[trigger] m.contains_key(c) implies exists|
        seg: Seq<TitleCoords>,
    | valid_chain(m, seg, c, s) && seg.len() == s.manhattan(c) + 1 by {
        assert(c == s);
        let seg = seq![s];
        assert(seg[0] == s && seg.last() == s && seg.len() == 1);
        assert(valid_chain(m, seg, s, s));
        assert(s.manhattan(s) == 0);
    }
    assert forall|c: TitleCoords| (#[trigger] v.contains(c)) && !q.contains(c) implies (forall|
        n: TitleCoords,
    | gpost.spec_in_bounds(n) && #[trigger] n.manhattan(c) == 1 ==> v.contains(n)) by {
        assert(c == s);
        assert(q.contains(s));
    }
}


/// The distance from any anchor changes by exactly one step along one
/// grid move.
proof fn lemma_adjacent_dist(s: TitleCoords, a: TitleCoords, b: TitleCoords)
    requires
        a.manhattan(b) == 1,
    ensures
        s.manhattan(a) == s.manhattan(b) + 1 || s.manhattan(a) == s.manhattan(b) - 1,
{
}

/// One paced breadth-first step preserves the level structure — and the
/// step that pops the goal appends a reconstructed path of exactly the
/// goal's Manhattan distance plus one cells. Chained along a run that
/// `lemma_bfs_start_levels` anchors, this is the shortest-path guarantee
/// of breadth-first search on obstacle-free grids.
#[verifier::rlimit(100)]
pub proof fn lemma_bfs_step_levels(
    pre: Bfs,
    post: Bfs,
    g1: Grid,
    g2: Grid,
    delta_time: u64,
    s: TitleCoords,
)
    requires
        bfs_levels_inv(pre, g1, s),
        Bfs::step_post(pre, post, g1, g2, delta_time),
        g2.wf(),
    ensures
        (pre.sim_coordinator.spec_ready(delta_time) && pre.title_processing_queue@.len() != 0
            && pre.title_processing_queue@[0] == g1.goal_title->0)
            ==> post.path_finder.solution_path@.len() == pre.path_finder.solution_path@.len()
            + s.manhattan(g1.goal_title->0) + 1,
        !(pre.sim_coordinator.spec_ready(delta_time) && pre.title_processing_queue@.len() != 0
            && pre.title_processing_queue@[0] == g1.goal_title->0) ==> bfs_levels_inv(
            post,
            g2,
            s,
        ),
{
    let m = pre.path_finder.path@;
    let q = pre.title_processing_queue@;
    let v = pre.visited_titles@;
    if !pre.sim_coordinator.spec_ready(delta_time) || q.len() == 0 {
        assert(obstacle_free(g2)) by {
            assert forall|d: TitleCoords| g2.spec_in_bounds(d) implies #[trigger] g2.tile_at(d)
                != Title::Obstacle by {
                assert(g1.titles@[d.x as int]@ == g2.titles@[d.x as int]@);
                assert(g1.tile_at(d) != Title::Obstacle);
            }
        }
        assert(bfs_levels_inv(post, g2, s));
    } else {
        let current = q[0];
        let goal = g1.goal_title->0;
        assert(v.contains(current));
        assert(m.contains_key(current));
        if current == goal {
            let seg0 = choose|seg: Seq<TitleCoords>|
                valid_chain(m, seg, current, s) && seg.len() == s.manhattan(current) + 1;
            let n0 = pre.path_finder.solution_path@.len() as int;
            let seg = post.path_finder.solution_path@.skip(n0);
            lemma_valid_chain_unique(m, seg, seg0, goal, s);
            assert(post.path_finder.solution_path@.len() == n0 + seg.len());
        } else {
            let nbrs = g1.spec_neighbors(current);
            let fresh = fresh_items(nbrs, v);
            let m2 = post.path_finder.path@;
            let q2 = post.title_processing_queue@;
            let v2 = post.visited_titles@;
            let d1 = s.manhattan(current);
            lemma_neighbors_sound(g1, current);
            lemma_fresh_items_no_dup(nbrs, v);

            assert(g1.spec_in_bounds(current));
            assert forall|x: TitleCoords| #[trigger] fresh.contains(x) implies nbrs.contains(x)
                && !v.contains(x) && g1.spec_traversable(x) && x.manhattan(current) == 1
                && x != current by {
                lemma_fresh_items_sub(nbrs, v, x);
                let i = choose|i: int| 0 <= i < nbrs.len() && nbrs[i] == x;
                assert(g1.spec_traversable(nbrs[i]));
            }
            assert forall|x: TitleCoords| #[trigger] fresh.contains(x) implies s.manhattan(x)
                == d1 + 1 by {
                lemma_adjacent_dist(s, x, current);
                if s.manhattan(x) == d1 - 1 {
                    assert(v.contains(x));
                    assert(false);
                }
            }
            assert forall|c: TitleCoords| #[trigger] v2.contains(c) == (v.contains(c)
                || fresh.contains(c)) by {
                lemma_contains_concat(v, fresh, c);
            }
            assert(q2.len() == q.len() - 1 + fresh.len());
            assert forall|i: int| 0 <= i < q.len() - 1 implies #[trigger] q2[i] == q[i + 1] by {}
            assert forall|j: int| 0 <= j < fresh.len() implies #[trigger] q2[q.len() - 1 + j]
                == fresh[j] by {}

            // the grid stays free of obstacles
            assert(obstacle_free(g2)) by {
                assert forall|d: TitleCoords| g2.spec_in_bounds(d) implies #[trigger] g2.tile_at(
                    d,
                ) != Title::Obstacle by {
                    assert(g1.spec_in_bounds(d));
                    assert(g1.tile_at(d) != Title::Obstacle);
                }
            }
            assert(v2.contains(s));

            // discovered cells and predecessor keys still coincide
            assert forall|c: TitleCoords| #[trigger] m2.contains_key(c) <==> v2.contains(c) by {
                lemma_contains_concat(v, fresh, c);
                if fresh.contains(c) {
                    lemma_preds_inserted_mem(m, fresh, current, c);
                } else {
                    lemma_preds_inserted_other(m, fresh, current, c);
                }
            }

            // the frontier still holds only discovered cells
            assert forall|i: int| 0 <= i < q2.len() implies v2.contains(#[trigger] q2[i]) by {
                if i < q.len() - 1 {
                    assert(q2[i] == q[i + 1]);
                    assert(v.contains(q[i + 1]));
                } else {
                    assert(q2[i] == fresh[i - (q.len() - 1)]);
                    assert(fresh.contains(q2[i]));
                }
                lemma_contains_concat(v, fresh, q2[i]);
            }

            // and never twice
            assert(q2.no_duplicates()) by {
                assert forall|i: int, j: int|
                    0 <= i < q2.len() && 0 <= j < q2.len() && i != j implies q2[i] != q2[j] by {
                    if i < q.len() - 1 && j < q.len() - 1 {
                        assert(q2[i] == q[i + 1] && q2[j] == q[j + 1]);
                    } else if i >= q.len() - 1 && j >= q.len() - 1 {
                        assert(q2[i] == fresh[i - (q.len() - 1)]);
                        assert(q2[j] == fresh[j - (q.len() - 1)]);
                    } else if i < q.len() - 1 {
                        assert(v.contains(q[i + 1]));
                        assert(fresh.contains(fresh[j - (q.len() - 1)]));
                        assert(q2[j] == fresh[j - (q.len() - 1)]);
                    } else {
                        assert(v.contains(q[j + 1]));
                        assert(fresh.contains(fresh[i - (q.len() - 1)]));
                        assert(q2[i] == fresh[i - (q.len() - 1)]);
                    }
                }
            }

            // chains of exactly the Manhattan distance survive and extend
            assert forall|i: int| 0 <= i < fresh.len() implies !m.contains_key(
                #[trigger] fresh[i],
            ) by {
                assert(fresh.contains(fresh[i]));
            }
            let seg_c = choose|seg: Seq<TitleCoords>|
                valid_chain(m, seg, current, s) && seg.len() == s.manhattan(current) + 1;
            lemma_valid_chain_preds_inserted(m, fresh, current, seg_c, current, s);
            assert forall|c: TitleCoords| #[trigger] m2.contains_key(c) implies exists|
                seg: Seq<TitleCoords>,
            | valid_chain(m2, seg, c, s) && seg.len() == s.manhattan(c) + 1 by {
                lemma_contains_concat(v, fresh, c);
                if fresh.contains(c) {
                    lemma_preds_inserted_mem(m, fresh, current, c);
                    let segx = seq![c] + seg_c;
                    assert(c != s);
                    assert(valid_chain(m2, segx, c, s)) by {
                        assert(segx[0] == c);
                        assert(segx.last() == seg_c.last());
                        assert(segx[1] == seg_c[0] && seg_c[0] == current);
                        assert forall|i: int| 0 <= i < segx.len() - 1 implies {
                            &&& #[trigger] segx[i] != s
                            &&& m2.contains_key(segx[i])
                            &&& m2[segx[i]] == Some(segx[i + 1])
                        } by {
                            if i == 0 {
                                assert(m2[c] == Some(current));
                            } else {
                                assert(segx[i] == seg_c[i - 1] && segx[i + 1] == seg_c[i]);
                                assert(seg_c[i - 1] != s && m2.contains_key(seg_c[i - 1])
                                    && m2[seg_c[i - 1]] == Some(seg_c[i]));
                            }
                        }
                    }
                    assert(segx.len() == s.manhattan(c) + 1);
                } else {
                    lemma_preds_inserted_other(m, fresh, current, c);
                    assert(m.contains_key(c));
                    let sego = choose|seg: Seq<TitleCoords>|
                        valid_chain(m, seg, c, s) && seg.len() == s.manhattan(c) + 1;
                    lemma_valid_chain_preds_inserted(m, fresh, current, sego, c, s);
                }
            }

            // the frontier stays sorted by distance ...
            assert forall|i: int, j: int| 0 <= i < j < q2.len() implies s.manhattan(
                #[trigger] q2[i],
            ) <= s.manhattan(#[trigger] q2[j]) by {
                if j < q.len() - 1 {
                    assert(q2[i] == q[i + 1] && q2[j] == q[j + 1]);
                    assert(s.manhattan(q[i + 1]) <= s.manhattan(q[j + 1]));
                } else {
                    assert(q2[j] == fresh[j - (q.len() - 1)]);
                    assert(fresh.contains(q2[j]));
                    assert(s.manhattan(q2[j]) == d1 + 1);
                    if i < q.len() - 1 {
                        assert(q2[i] == q[i + 1]);
                        assert(s.manhattan(q[i + 1]) <= s.manhattan(q[0]) + 1);
                    } else {
                        assert(q2[i] == fresh[i - (q.len() - 1)]);
                        assert(fresh.contains(q2[i]));
                    }
                }
            }

            // ... and spans at most two consecutive levels
            assert forall|i: int| 0 <= i < q2.len() implies s.manhattan(#[trigger] q2[i])
                <= s.manhattan(q2[0]) + 1 by {
                if q.len() >= 2 {
                    assert(q2[0] == q[1]);
                    assert(s.manhattan(q[0]) <= s.manhattan(q[1]));
                    if i < q.len() - 1 {
                        assert(q2[i] == q[i + 1]);
                        assert(s.manhattan(q[i + 1]) <= s.manhattan(q[0]) + 1);
                    } else {
                        assert(q2[i] == fresh[i - (q.len() - 1)]);
                        assert(fresh.contains(q2[i]));
                    }
                } else {
                    assert(q2[0] == fresh[0]);
                    assert(fresh.contains(fresh[0]));
                    assert(q2[i] == fresh[i - (q.len() - 1)]);
                    assert(fresh.contains(q2[i]));
                }
            }

            // popped cells keep every neighbor discovered
            assert forall|c: TitleCoords| (#[trigger] v2.contains(c)) && !q2.contains(c) implies (
            forall|n: TitleCoords|
                g2.spec_in_bounds(n) && #[trigger] n.manhattan(c) == 1 ==> v2.contains(n)) by {
                if fresh.contains(c) {
                    let j = choose|j: int| 0 <= j < fresh.len() && fresh[j] == c;
                    assert(q2[q.len() - 1 + j] == c);
                    assert(q2.contains(c));
                } else if c == current {
                    assert forall|n: TitleCoords|
                        g2.spec_in_bounds(n) && #[trigger] n.manhattan(current) == 1 implies v2.contains(
                        n,
                    ) by {
                        assert(g1.spec_in_bounds(n));
                        lemma_neighbors_complete(g1, current, n);
                        if !v.contains(n) {
                            lemma_fresh_items_complete(nbrs, v, n);
                        }
                        lemma_contains_concat(v, fresh, n);
                    }
                } else {
                    assert(v.contains(c));
                    assert(!q.contains(c)) by {
                        if q.contains(c) {
                            let k = choose|k: int| 0 <= k < q.len() && q[k] == c;
                            assert(k != 0);
                            assert(q2[k - 1] == q[k]);
                            assert(q2.contains(c));
                        }
                    }
                    assert forall|n: TitleCoords|
                        g2.spec_in_bounds(n) && #[trigger] n.manhattan(c) == 1 implies v2.contains(
                        n,
                    ) by {
                        assert(g1.spec_in_bounds(n));
                        assert(v.contains(n));
                        lemma_contains_concat(v, fresh, n);
                    }
                }
            }

            // everything closer than the frontier is discovered
            assert forall|c: TitleCoords|
                g2.spec_in_bounds(c) && q2.len() > 0 && #[trigger] s.manhattan(c) < s.manhattan(
                    q2[0],
                ) implies v2.contains(c) by {
                assert(g1.spec_in_bounds(c));
                assert(s.manhattan(q2[0]) <= d1 + 1) by {
                    if q.len() >= 2 {
                        assert(q2[0] == q[1]);
                        assert(s.manhattan(q[1]) <= s.manhattan(q[0]) + 1);
                    } else {
                        assert(q2[0] == fresh[0]);
                        assert(fresh.contains(fresh[0]));
                    }
                }
                if s.manhattan(c) < d1 {
                    assert(v.contains(c));
                    lemma_contains_concat(v, fresh, c);
                } else {
                    assert(s.manhattan(c) == d1);
                    if c == current {
                        lemma_contains_concat(v, fresh, c);
                    } else if s.manhattan(c) == 0 {
                        assert(c == s);
                        lemma_contains_concat(v, fresh, c);
                    } else {
                        let p = (if c.x > s.x {
                            TitleCoords { x: (c.x - 1) as usize, y: c.y }
                        } else if c.x < s.x {
                            TitleCoords { x: (c.x + 1) as usize, y: c.y }
                        } else if c.y > s.y {
                            TitleCoords { x: c.x, y: (c.y - 1) as usize }
                        } else {
                            TitleCoords { x: c.x, y: (c.y + 1) as usize }
                        });
                        assert(g1.spec_in_bounds(p));
                        assert(s.manhattan(p) == d1 - 1);
                        assert(c.manhattan(p) == 1);
                        assert(v.contains(p));
                        assert(!q.contains(p)) by {
                            if q.contains(p) {
                                let k = choose|k: int| 0 <= k < q.len() && q[k] == p;
                                if k > 0 {
                                    assert(s.manhattan(q[0]) <= s.manhattan(q[k]));
                                }
                            }
                        }
                        assert(v.contains(c));
                        lemma_contains_concat(v, fresh, c);
                    }
                }
            }

            assert(bfs_levels_inv(post, g2, s));
        }
    }
}


/// P1 assembled over a whole run: a breadth-first search that begins in
/// the level structure on an obstacle-free grid (as a successful `start`
/// leaves it) reconstructs, at the step that pops the goal, a path of
/// exactly `manhattan(start, goal) + 1` cells — the shortest possible on
/// an unweighted four-directional grid.
pub proof fn lemma_bfs_run_shortest_path(
    states: Seq<Bfs>,
    grids: Seq<Grid>,
    deltas: Seq<u64>,
    s: TitleCoords,
    k: int,
)
    requires
        states.len() == deltas.len() + 1,
        grids.len() == states.len(),
        bfs_levels_inv(states[0], grids[0], s),
        forall|i: int| 0 <= i < grids.len() ==> (#[trigger] grids[i]).wf(),
        forall|i: int|
            0 <= i < deltas.len() ==> Bfs::step_post(
                #[trigger] states[i],
                states[i + 1],
                grids[i],
                grids[i + 1],
                deltas[i],
            ),
        0 <= k < deltas.len(),
        forall|i: int|
            0 <= i < k ==> !((#[trigger] states[i]).sim_coordinator.spec_ready(deltas[i])
                && states[i].title_processing_queue@.len() != 0
                && states[i].title_processing_queue@[0] == grids[i].goal_title->0),
        states[k].sim_coordinator.spec_ready(deltas[k]),
        states[k].title_processing_queue@.len() != 0,
        states[k].title_processing_queue@[0] == grids[k].goal_title->0,
    ensures
        states[k + 1].path_finder.solution_path@.len() == states[k].path_finder.solution_path@.len()
            + s.manhattan(grids[k].goal_title->0) + 1,
    decreases k,
{
    if k == 0 {
        lemma_bfs_step_levels(states[0], states[1], grids[0], grids[1], deltas[0], s);
    } else {
        lemma_bfs_step_levels(states[0], states[1], grids[0], grids[1], deltas[0], s);
        assert(bfs_levels_inv(states[1], grids[1], s));
        let s1 = states.skip(1);
        let h1 = grids.skip(1);
        let ds = deltas.skip(1);
        assert(bfs_levels_inv(s1[0], h1[0], s));
        assert forall|i: int| 0 <= i < h1.len() implies (#[trigger] h1[i]).wf() by {
            assert(h1[i] == grids[i + 1]);
        }
        assert forall|i: int| 0 <= i < ds.len() implies Bfs::step_post(
            #[trigger] s1[i],
            s1[i + 1],
            h1[i],
            h1[i + 1],
            ds[i],
        ) by {
            assert(s1[i] == states[i + 1] && s1[i + 1] == states[i + 2]);
            assert(h1[i] == grids[i + 1] && h1[i + 1] == grids[i + 2]);
            assert(ds[i] == deltas[i + 1]);
            assert(Bfs::step_post(
                states[i + 1],
                states[i + 2],
                grids[i + 1],
                grids[i + 2],
                deltas[i + 1],
            ));
        }
        assert forall|i: int| 0 <= i < k - 1 implies !((
        #[trigger] s1[i]).sim_coordinator.spec_ready(ds[i])
            && s1[i].title_processing_queue@.len() != 0 && s1[i].title_processing_queue@[0]
            == h1[i].goal_title->0) by {
            assert(s1[i] == states[i + 1] && h1[i] == grids[i + 1] && ds[i] == deltas[i + 1]);
            assert(!(states[i + 1].sim_coordinator.spec_ready(deltas[i + 1]) && states[i
                + 1].title_processing_queue@.len() != 0 && states[i
                + 1].title_processing_queue@[0] == grids[i + 1].goal_title->0));
        }
        assert(s1[k - 1] == states[k] && h1[k - 1] == grids[k] && ds[k - 1] == deltas[k]);
        lemma_bfs_run_shortest_path(s1, h1, ds, s, k - 1);
        assert(s1[k] == states[k + 1]);
    }
}

} // verus!
