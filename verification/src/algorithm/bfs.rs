use super::{
    adjacent_links, connected, contains_coord, fresh_items, get_statistics,
    lemma_contains_concat, lemma_fresh_items_sub, lemma_reaches_insert, preds_inserted, reaches,
    spec_statistics, valid_chain, AlgorithmError, Measurable, Pathfinder, SimulationCoordinator,
};
use crate::map::grid::{lemma_neighbors_sound, Grid};
use crate::map::{Title, TitleCoords};
use std::collections::VecDeque;
use vstd::prelude::*;

verus! {

/// # Breadth-First Search Algorithm
/// The algorithm explores titles equally in all directions: a FIFO frontier,
/// every unvisited traversable neighbor enqueued exactly once, and the first
/// enqueue winning the predecessor slot.
pub struct Bfs {
    pub title_processing_queue: VecDeque<TitleCoords>,
    pub visited_titles: Vec<TitleCoords>,
    pub sim_coordinator: SimulationCoordinator,
    pub path_finder: Pathfinder,
}

impl Measurable for Bfs {
    open spec fn spec_statistics_of(&self) -> Seq<char> {
        spec_statistics(
            "Breadth First Search"@,
            self.path_finder.solution_path@.len() as int,
            self.sim_coordinator.steps as int,
            self.visited_titles@.len() as int,
        )
    }

    fn output_statistics(&self) -> (r: String) {
        get_statistics(
            self.name().as_str(),
            self.path_finder.get_path().len(),
            self.sim_coordinator.steps,
            self.visited_titles.len(),
        )
    }
}

impl Default for Bfs {
    fn default() -> (r: Self)
        ensures
            r.is_initial(),
    {
        Bfs {
            title_processing_queue: VecDeque::new(),
            visited_titles: Vec::new(),
            sim_coordinator: SimulationCoordinator::default(),
            path_finder: Pathfinder::default(),
        }
    }
}

impl Bfs {
    /// The state a freshly built or freshly reset instance is in.
    pub open spec fn is_initial(&self) -> bool {
        &&& self.title_processing_queue@ == Seq::<TitleCoords>::empty()
        &&& self.visited_titles@ == Seq::<TitleCoords>::empty()
        &&& self.sim_coordinator == (SimulationCoordinator {
            is_processing: false,
            steps: 0,
            accumulated_time: 0,
            has_completed: false,
        })
        &&& self.path_finder.path@ == Map::<TitleCoords, Option<TitleCoords>>::empty()
        &&& self.path_finder.path.wf()
        &&& self.path_finder.solution_path@ == Seq::<TitleCoords>::empty()
    }

    /// Internal consistency, relative to the grid the run was started on:
    /// while a run is active, the grid keeps its Start and Goal designations,
    /// every frontier entry has a recorded predecessor chain, and the
    /// predecessor map leads every known cell back to the start.
    pub open spec fn inv(&self, grid: Grid) -> bool {
        &&& self.path_finder.path.wf()
        &&& adjacent_links(self.path_finder.path@)
        &&& self.sim_coordinator.is_processing ==> {
            let start = grid.start_title->0;
            &&& grid.start_title is Some
            &&& grid.goal_title is Some
            &&& self.path_finder.path@.contains_key(start)
            &&& forall|i: int|
                0 <= i < self.title_processing_queue@.len()
                    ==> self.path_finder.path@.contains_key(
                    #[trigger] self.title_processing_queue@[i],
                )
            &&& forall|c: TitleCoords|
                #[trigger] self.path_finder.path@.contains_key(c) <==> self.visited_titles@.contains(
                    c,
                )
            &&& forall|c: TitleCoords|
                #[trigger] self.path_finder.path@.contains_key(c) ==> connected(
                    self.path_finder.path@,
                    c,
                    start,
                )
        }
    }

    /// The frontier, the visited list and the pathfinder are untouched.
    pub open spec fn frozen(pre: Bfs, post: Bfs) -> bool {
        &&& post.title_processing_queue@ == pre.title_processing_queue@
        &&& post.visited_titles@ == pre.visited_titles@
        &&& post.path_finder.path@ == pre.path_finder.path@
        &&& post.path_finder.solution_path@ == pre.path_finder.solution_path@
    }

    /// What `start` does: rejected without both designations, otherwise the
    /// start cell seeds the frontier, the visited list and the predecessor
    /// map, and processing begins.
    pub open spec fn start_post(
        pre: Bfs,
        post: Bfs,
        gpre: Grid,
        gpost: Grid,
        r: Result<(), AlgorithmError>,
    ) -> bool {
        &&& gpost.unchanged_from(gpre)
        &&& if gpre.start_title is None || gpre.goal_title is None {
            &&& r is Err
            &&& r == Err::<(), AlgorithmError>(AlgorithmError::InvalidInputData)
            &&& post.is_initial()
        } else {
            let start = gpre.start_title->0;
            &&& r is Ok
            &&& post.title_processing_queue@ == seq![start]
            &&& post.visited_titles@ == seq![start]
            &&& post.path_finder.path@ == Map::<TitleCoords, Option<TitleCoords>>::empty().insert(
                start,
                None,
            )
            &&& post.path_finder.solution_path@ == Seq::<TitleCoords>::empty()
            &&& post.sim_coordinator == (SimulationCoordinator {
                is_processing: true,
                steps: 0,
                accumulated_time: 0,
                has_completed: false,
            })
        }
    }

    /// What `reset` does: the algorithm returns to its initial state and the
    /// grid is cleared of all markings and designations.
    pub open spec fn reset_post(post: Bfs, gpre: Grid, gpost: Grid) -> bool {
        &&& post.is_initial()
        &&& gpost.same_dimensions(gpre)
        &&& gpost.start_title is None
        &&& gpost.goal_title is None
        &&& gpost.titles@.len() == gpre.titles@.len()
        &&& forall|i: int|
            0 <= i < gpost.titles@.len() ==> (#[trigger] gpost.titles@[i])@.len()
                == gpre.titles@[i]@.len()
        &&& forall|i: int, j: int|
            0 <= i < gpost.titles@.len() && 0 <= j < gpost.titles@[i]@.len()
                ==> #[trigger] gpost.titles@[i]@[j] == (Title::Normal { was_visited: false })
    }

    /// One call of `execute_step`, case by case: nothing but the time
    /// accumulator moves while the pacing interval has not elapsed; an empty
    /// frontier ends the run as unreachable; a popped goal reconstructs and
    /// marks the path; any other popped cell is expanded, its unvisited
    /// traversable neighbors joining the frontier in order.
    pub open spec fn step_post(pre: Bfs, post: Bfs, gpre: Grid, gpost: Grid, delta_time: u64) -> bool {
        if !pre.sim_coordinator.spec_ready(delta_time) {
            &&& post.sim_coordinator == pre.sim_coordinator.spec_time_passed(delta_time)
            &&& Self::frozen(pre, post)
            &&& gpost.unchanged_from(gpre)
        } else if pre.title_processing_queue@.len() == 0 {
            &&& post.sim_coordinator == (SimulationCoordinator {
                is_processing: false,
                steps: pre.sim_coordinator.steps,
                accumulated_time: 0,
                has_completed: true,
            })
            &&& Self::frozen(pre, post)
            &&& gpost.unchanged_from(gpre)
        } else {
            let current = pre.title_processing_queue@[0];
            let goal = gpre.goal_title->0;
            let start = gpre.start_title->0;
            &&& post.sim_coordinator.steps == pre.sim_coordinator.steps + 1
            &&& post.sim_coordinator.accumulated_time == 0
            &&& gpost.same_dimensions(gpre)
            &&& gpost.start_title == gpre.start_title
            &&& gpost.goal_title == gpre.goal_title
            &&& if current == goal {
                &&& post.sim_coordinator.is_processing == false
                &&& post.sim_coordinator.has_completed == true
                &&& post.title_processing_queue@ == pre.title_processing_queue@.skip(1)
                &&& post.visited_titles@ == pre.visited_titles@
                &&& post.path_finder.path@ == pre.path_finder.path@
                &&& post.path_finder.solution_path@.len() > pre.path_finder.solution_path@.len()
                &&& post.path_finder.solution_path@.subrange(
                    0,
                    pre.path_finder.solution_path@.len() as int,
                ) == pre.path_finder.solution_path@
                &&& valid_chain(
                    pre.path_finder.path@,
                    post.path_finder.solution_path@.skip(
                        pre.path_finder.solution_path@.len() as int,
                    ),
                    goal,
                    start,
                )
                &&& forall|d: TitleCoords|
                    gpre.spec_in_bounds(d) ==> gpost.tile_at(d) == (if post.path_finder.solution_path@.contains(d)
                        && gpre.tile_at(d) == (Title::Normal { was_visited: true }) {
                        Title::Path
                    } else {
                        gpre.tile_at(d)
                    })
            } else {
                let fresh = fresh_items(gpre.spec_neighbors(current), pre.visited_titles@);
                &&& post.title_processing_queue@ == pre.title_processing_queue@.skip(1) + fresh
                &&& post.visited_titles@ == pre.visited_titles@ + fresh
                &&& post.path_finder.path@ == preds_inserted(pre.path_finder.path@, fresh, current)
                &&& post.path_finder.solution_path@ == pre.path_finder.solution_path@
                &&& post.sim_coordinator.is_processing == (post.title_processing_queue@.len() != 0)
                &&& post.sim_coordinator.has_completed == (pre.sim_coordinator.has_completed
                    || post.title_processing_queue@.len() == 0)
                &&& forall|d: TitleCoords|
                    gpre.spec_in_bounds(d) ==> gpost.tile_at(d) == (if d == current
                        && !gpre.spec_is_start_or_end(current) {
                        (Title::Normal { was_visited: true })
                    } else if fresh.contains(d) && !gpre.spec_is_start_or_end(d) {
                        Title::Process
                    } else {
                        gpre.tile_at(d)
                    })
            }
        }
    }

    /// # start
    /// BFS Algorithm starts.
    ///
    /// Init the algorithm values.
    pub fn start(&mut self, grid: &mut Grid) -> (r: Result<(), AlgorithmError>)
        requires
            old(self).is_initial(),
            old(grid).wf(),
        ensures
            final(grid).wf(),
            final(self).inv(*final(grid)),
            Self::start_post(*old(self), *final(self), *old(grid), *final(grid), r),
    {
        if grid.start_title.is_none() || grid.goal_title.is_none() {
            return Err(AlgorithmError::InvalidInputData);
        }
        let start = grid.start_title.unwrap();

        self.title_processing_queue.push_back(start);
        self.visited_titles.push(start);
        self.path_finder.add_to_path(start, None);
        self.sim_coordinator.start_processing();
        proof {
            assert(self.title_processing_queue@ =~= seq![start]);
            assert(self.visited_titles@ =~= seq![start]);
            assert(reaches(self.path_finder.path@, start, start, 0));
            assert(self.visited_titles@[0] == start);
            assert forall|c: TitleCoords| #[trigger] self.visited_titles@.contains(c) implies self
                .path_finder.path@.contains_key(c) by {
                assert(c == start);
            }
        }
        Ok(())
    }

    /// # execute_step
    /// Algorithm processing update every iteration interval until the goal
    /// is reached or the frontier runs dry.
    #[verifier::loop_isolation(false)]
    #[verifier::rlimit(100)]
    pub fn execute_step(&mut self, grid: &mut Grid, delta_time: u64)
        requires
            old(grid).wf(),
            old(self).inv(*old(grid)),
            old(self).sim_coordinator.steps < u32::MAX,
        ensures
            final(grid).wf(),
            final(self).inv(*final(grid)),
            Self::step_post(*old(self), *final(self), *old(grid), *final(grid), delta_time),
    {
        if !self.sim_coordinator.is_ready_to_execute(delta_time) {
            return ;
        }
        if let Some(current) = self.title_processing_queue.pop_front() {
            self.sim_coordinator.increase_step_count();
            let goal = grid.goal_title.unwrap();
            let start = grid.start_title.unwrap();

            if self.sim_coordinator.process_goal_reached(current, goal) {
                proof {
                    assert(old(self).path_finder.path@.contains_key(current));
                }
                self.path_finder.reconstruct_path(start, goal);
                let ghost g0 = *old(grid);
                let mut idx: usize = 0;
                while idx < self.path_finder.solution_path.len()
                    invariant
                        idx <= self.path_finder.solution_path@.len(),
                        grid.wf(),
                        grid.same_dimensions(g0),
                        grid.start_title == g0.start_title,
                        grid.goal_title == g0.goal_title,
                        grid.titles@.len() == g0.titles@.len(),
                        forall|d: TitleCoords|
                            g0.spec_in_bounds(d) ==> grid.tile_at(d) == (if self.path_finder.solution_path@.take(
                                idx as int,
                            ).contains(d) && g0.tile_at(d) == (Title::Normal {
                                was_visited: true,
                            }) {
                                Title::Path
                            } else {
                                g0.tile_at(d)
                            }),
                    decreases self.path_finder.solution_path@.len() - idx,
                {
                    let element = self.path_finder.solution_path[idx];
                    grid.set_trace_back_path(element);
                    proof {
                        let sol = self.path_finder.solution_path@;
                        assert(sol.take(idx + 1) =~= sol.take(idx as int).push(element));
                        assert(sol.take(idx + 1)[idx as int] == element);
                        assert forall|d: TitleCoords| g0.spec_in_bounds(d) implies grid.tile_at(d)
                            == (if sol.take(idx + 1).contains(d) && g0.tile_at(d)
                            == (Title::Normal { was_visited: true }) {
                            Title::Path
                        } else {
                            g0.tile_at(d)
                        }) by {
                            if sol.take(idx + 1).contains(d) && !sol.take(idx as int).contains(d) {
                                assert(d == element);
                            }
                            if sol.take(idx as int).contains(d) {
                                let k = choose|k: int|
                                    0 <= k < sol.take(idx as int).len() && sol.take(idx as int)[k]
                                        == d;
                                assert(sol.take(idx + 1)[k] == d);
                            }
                        }
                    }
                    idx = idx + 1;
                }
                proof {
                    let sol = self.path_finder.solution_path@;
                    assert(sol.take(sol.len() as int) =~= sol);
                }
                return ;
            }
            grid.mark_visited(current);
            let ghost g0 = *old(grid);
            proof {
                assert forall|d: TitleCoords| d != current implies grid.spec_traversable(d)
                    == g0.spec_traversable(d) by {}
            }
            let neighboring_titles = grid.get_neighbors(current);
            proof {
                assert(grid.spec_neighbors(current) =~= g0.spec_neighbors(current));
                lemma_neighbors_sound(g0, current);
            }
            let ghost nbrs = g0.spec_neighbors(current);
            let ghost v0 = old(self).visited_titles@;
            let ghost m0 = old(self).path_finder.path@;
            let ghost q0 = old(self).title_processing_queue@;
            let ghost start_g = g0.start_title->0;

            let mut idx: usize = 0;
            while idx < neighboring_titles.len()
                invariant
                    idx <= nbrs.len(),
                    neighboring_titles@ == nbrs,
                    grid.wf(),
                    grid.same_dimensions(g0),
                    grid.start_title == g0.start_title,
                    grid.goal_title == g0.goal_title,
                    grid.titles@.len() == g0.titles@.len(),
                    self.sim_coordinator == (SimulationCoordinator {
                        is_processing: true,
                        steps: (old(self).sim_coordinator.steps + 1) as u32,
                        accumulated_time: 0,
                        has_completed: old(self).sim_coordinator.has_completed,
                    }),
                    self.title_processing_queue@ == q0.skip(1) + fresh_items(
                        nbrs.take(idx as int),
                        v0,
                    ),
                    self.visited_titles@ == v0 + fresh_items(nbrs.take(idx as int), v0),
                    self.path_finder.path@ == preds_inserted(
                        m0,
                        fresh_items(nbrs.take(idx as int), v0),
                        current,
                    ),
                    self.path_finder.solution_path@ == old(self).path_finder.solution_path@,
                    self.path_finder.path.wf(),
                    adjacent_links(self.path_finder.path@),
                    self.path_finder.path@.contains_key(start_g),
                    forall|i: int|
                        0 <= i < self.title_processing_queue@.len()
                            ==> self.path_finder.path@.contains_key(
                            #[trigger] self.title_processing_queue@[i],
                        ),
                    forall|c: TitleCoords|
                        #[trigger] self.path_finder.path@.contains_key(c)
                            <==> self.visited_titles@.contains(c),
                    forall|c: TitleCoords|
                        #[trigger] self.path_finder.path@.contains_key(c) ==> connected(
                            self.path_finder.path@,
                            c,
                            start_g,
                        ),
                    forall|d: TitleCoords|
                        g0.spec_in_bounds(d) ==> grid.tile_at(d) == (if d == current
                            && !g0.spec_is_start_or_end(current) {
                            (Title::Normal { was_visited: true })
                        } else if fresh_items(nbrs.take(idx as int), v0).contains(d)
                            && !g0.spec_is_start_or_end(d) {
                            Title::Process
                        } else {
                            g0.tile_at(d)
                        }),
                decreases nbrs.len() - idx,
            {
                let neighbor_title = neighboring_titles[idx];
                let ghost taken = fresh_items(nbrs.take(idx as int), v0);
                proof {
                    assert(nbrs.take(idx + 1).drop_last() =~= nbrs.take(idx as int));
                    assert(nbrs.take(idx + 1).last() == neighbor_title);
                    lemma_contains_concat(v0, taken, neighbor_title);
                    if taken.contains(neighbor_title) {
                        lemma_fresh_items_sub(nbrs.take(idx as int), v0, neighbor_title);
                        let k = choose|k: int|
                            0 <= k < nbrs.take(idx as int).len() && nbrs.take(idx as int)[k]
                                == neighbor_title;
                        assert(nbrs[k] == nbrs[idx as int]);
                    }
                }
                if !contains_coord(&self.visited_titles, neighbor_title) {
                    proof {
                        assert(!self.path_finder.path@.contains_key(neighbor_title));
                        assert(self.visited_titles@.contains(start_g)) by {
                            assert(self.path_finder.path@.contains_key(start_g));
                        }
                        assert(neighbor_title != start_g);
                        assert(self.visited_titles@.contains(current)) by {
                            assert(old(self).path_finder.path@.contains_key(
                                old(self).title_processing_queue@[0],
                            ));
                            assert(v0.contains(current));
                            lemma_contains_concat(v0, taken, current);
                        }
                        assert(self.path_finder.path@.contains_key(current));
                    }
                    grid.mark_process(neighbor_title);
                    self.visited_titles.push(neighbor_title);
                    let ghost m_pre = self.path_finder.path@;
                    self.path_finder.add_to_path(neighbor_title, Some(current));
                    self.title_processing_queue.push_back(neighbor_title);
                    proof {
                        let fresh_next = fresh_items(nbrs.take(idx + 1), v0);
                        assert(fresh_next == taken.push(neighbor_title));
                        assert(self.title_processing_queue@ =~= q0.skip(1) + fresh_next);
                        assert(self.visited_titles@ =~= v0 + fresh_next);
                        assert(fresh_next.drop_last() =~= taken);
                        assert(self.path_finder.path@ == preds_inserted(m0, fresh_next, current));
                        assert forall|c: TitleCoords|
                            #[trigger] self.path_finder.path@.contains_key(c)
                                <==> self.visited_titles@.contains(c) by {
                            lemma_contains_concat(v0, fresh_next, c);
                            lemma_contains_concat(v0, taken, c);
                            if taken.contains(c) {
                                let k = choose|k: int| 0 <= k < taken.len() && taken[k] == c;
                                assert(fresh_next[k] == c);
                            }
                            if fresh_next.contains(c) && c != neighbor_title {
                                let k = choose|k: int|
                                    0 <= k < fresh_next.len() && fresh_next[k] == c;
                                assert(taken[k] == c);
                            }
                            assert(fresh_next[fresh_next.len() - 1] == neighbor_title);
                            assert(m_pre.contains_key(c) <==> (v0 + taken).contains(c));
                        }
                        // the new link is one step long, so chains stay adjacent
                        assert(current.manhattan(neighbor_title) == 1) by {
                            assert(nbrs[idx as int].manhattan(current) == 1);
                        }
                        // chains already recorded survive the insertion
                        assert forall|c: TitleCoords|
                            #[trigger] self.path_finder.path@.contains_key(c) implies connected(
                            self.path_finder.path@,
                            c,
                            start_g,
                        ) by {
                            if c != neighbor_title {
                                assert(m_pre.contains_key(c));
                                let f = choose|f: nat| reaches(m_pre, c, start_g, f);
                                lemma_reaches_insert(
                                    m_pre,
                                    c,
                                    start_g,
                                    f,
                                    neighbor_title,
                                    Some(current),
                                );
                            } else {
                                assert(m_pre.contains_key(current));
                                let f = choose|f: nat| reaches(m_pre, current, start_g, f);
                                lemma_reaches_insert(
                                    m_pre,
                                    current,
                                    start_g,
                                    f,
                                    neighbor_title,
                                    Some(current),
                                );
                                assert(reaches(
                                    self.path_finder.path@,
                                    neighbor_title,
                                    start_g,
                                    f + 1,
                                ));
                            }
                        }
                        assert forall|d: TitleCoords| g0.spec_in_bounds(d) implies grid.tile_at(d)
                            == (if d == current && !g0.spec_is_start_or_end(current) {
                            (Title::Normal { was_visited: true })
                        } else if fresh_next.contains(d) && !g0.spec_is_start_or_end(d) {
                            Title::Process
                        } else {
                            g0.tile_at(d)
                        }) by {
                            if fresh_next.contains(d) && !taken.contains(d) {
                                assert(d == neighbor_title) by {
                                    let k = choose|k: int|
                                        0 <= k < fresh_next.len() && fresh_next[k] == d;
                                    if k < taken.len() {
                                        assert(taken[k] == d);
                                    }
                                }
                            }
                            if taken.contains(d) {
                                assert(fresh_next.contains(d)) by {
                                    let k = choose|k: int| 0 <= k < taken.len() && taken[k] == d;
                                    assert(fresh_next[k] == d);
                                }
                            }
                        }
                    }
                } else {
                    proof {
                        assert(fresh_items(nbrs.take(idx + 1), v0) == taken);
                    }
                }
                idx = idx + 1;
            }
            proof {
                assert(nbrs.take(nbrs.len() as int) =~= nbrs);
            }
            // Check if goal is unreachable
            if self.title_processing_queue.len() == 0 {
                self.sim_coordinator.has_completed = true;
                self.sim_coordinator.stop_processing();
            }
        } else {
            self.sim_coordinator.has_completed = true;
            self.sim_coordinator.stop_processing();
        }
    }

    /// # reset
    /// Reset the algorithm processing.
    pub fn reset(&mut self, grid: &mut Grid)
        ensures
            Self::reset_post(*final(self), *old(grid), *final(grid)),
            final(self).inv(*final(grid)),
            old(grid).wf() ==> final(grid).wf(),
    {
        *self = Bfs::default();
        grid.reset();
    }

    /// # has_completed
    /// Check if processing is done.
    pub fn has_completed(&self) -> (r: bool)
        ensures
            r == self.sim_coordinator.has_completed,
    {
        self.sim_coordinator.has_completed
    }

    /// # name
    /// Algorithm name.
    pub fn name(&self) -> (r: String)
        ensures
            r@ == "Breadth First Search"@,
    {
        "Breadth First Search".to_owned()
    }
}

} // verus!
