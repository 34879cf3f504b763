use super::frontier::{empty_contents, pair_of, Frontier};
use super::{
    adjacent_links, cost_chain_inv, costs_inserted, get_statistics, lemma_cost_chain_reaches,
    lemma_relaxed_items_sub, preds_inserted, queue_inserted, relaxed_items, spec_statistics,
    AlgorithmError, CoordMap, Measurable, Pathfinder, SimulationCoordinator,
};
use crate::map::grid::{lemma_neighbors_sound, Grid};
use crate::map::{Title, TitleCoords};
use vstd::prelude::*;

verus! {

/// # A* Algorithm
/// Mix of AStar and Greedy Best First Search: the same cost-relaxation
/// rule as AStar, but each queued priority adds the Manhattan-distance
/// heuristic from the neighbor to the goal.
pub struct AStar {
    pub priority_titles: Frontier,
    pub cost_so_far: CoordMap<u32>,
    pub sim_coordinator: SimulationCoordinator,
    pub path_finder: Pathfinder,
}

impl Measurable for AStar {
    open spec fn spec_statistics_of(&self) -> Seq<char> {
        spec_statistics(
            "A*"@,
            self.path_finder.solution_path@.len() as int,
            self.sim_coordinator.steps as int,
            self.cost_so_far.entries@.len() as int,
        )
    }

    fn output_statistics(&self) -> (r: String) {
        get_statistics(
            self.name().as_str(),
            self.path_finder.get_path().len(),
            self.sim_coordinator.steps,
            self.cost_so_far.entries.len(),
        )
    }
}

impl Default for AStar {
    fn default() -> (r: Self)
        ensures
            r.is_initial(),
    {
        AStar {
            priority_titles: Frontier::new(),
            cost_so_far: CoordMap::new(),
            sim_coordinator: SimulationCoordinator::default(),
            path_finder: Pathfinder::default(),
        }
    }
}

impl AStar {
    /// Queued priorities add a Manhattan-distance term, computed in `i32`:
    /// the goal coordinates and the grid extent must leave it room.
    pub open spec fn heuristic_in_range(grid: Grid) -> bool {
        grid.goal_title matches Some(g) ==> g.x + g.y + grid.columns + grid.rows <= i32::MAX
    }

    /// The state a freshly built or freshly reset instance is in.
    pub open spec fn is_initial(&self) -> bool {
        &&& self.priority_titles@ == empty_contents()
        &&& self.cost_so_far@ == Map::<TitleCoords, u32>::empty()
        &&& self.cost_so_far.wf()
        &&& self.sim_coordinator == (SimulationCoordinator {
            is_processing: false,
            steps: 0,
            accumulated_time: 0,
            has_completed: false,
        })
        &&& self.path_finder.path@ == Map::<TitleCoords, Option<TitleCoords>>::empty()
        &&& self.path_finder.path.wf()
        &&& self.path_finder.solution_path@ == Seq::<TitleCoords>::empty()
    }

    /// Internal consistency, relative to the grid the run was started on:
    /// while a run is active, the grid keeps its designations, recorded
    /// costs strictly descend along predecessors (so every known cell leads
    /// back to the start), every queued cell has a cost entry, and no
    /// recorded cost exceeds the step count.
    pub open spec fn inv(&self, grid: Grid) -> bool {
        &&& self.path_finder.path.wf()
        &&& self.cost_so_far.wf()
        &&& adjacent_links(self.path_finder.path@)
        &&& self.sim_coordinator.is_processing ==> {
            let start = grid.start_title->0;
            &&& grid.start_title is Some
            &&& grid.goal_title is Some
            &&& cost_chain_inv(self.path_finder.path@, self.cost_so_far@, start)
            &&& forall|k: (usize, usize)|
                #[trigger] self.priority_titles@.contains_key(k)
                    ==> self.path_finder.path@.contains_key(TitleCoords { x: k.0, y: k.1 })
            &&& forall|c: TitleCoords|
                #[trigger] self.cost_so_far@.contains_key(c) ==> self.cost_so_far@[c]
                    <= self.sim_coordinator.steps
        }
    }

    /// The frontier, the cost table and the pathfinder are untouched.
    pub open spec fn frozen(pre: AStar, post: AStar) -> bool {
        &&& post.priority_titles@ == pre.priority_titles@
        &&& post.cost_so_far@ == pre.cost_so_far@
        &&& post.path_finder.path@ == pre.path_finder.path@
        &&& post.path_finder.solution_path@ == pre.path_finder.solution_path@
    }

    /// What `start` does: rejected without both designations, otherwise the
    /// start cell enters the frontier at priority 0 with cost 0, and
    /// processing begins.
    pub open spec fn start_post(
        pre: AStar,
        post: AStar,
        gpre: Grid,
        gpost: Grid,
        r: Result<(), AlgorithmError>,
    ) -> bool {
        &&& gpost.unchanged_from(gpre)
        &&& if gpre.start_title is None || gpre.goal_title is None {
            &&& r is Err
            &&& r == Err::<(), AlgorithmError>(AlgorithmError::InvalidInputData)
            &&& post.is_initial()
        } else {
            let start = gpre.start_title->0;
            &&& r is Ok
            &&& post.priority_titles@ == empty_contents().insert(pair_of(start), 0)
            &&& post.cost_so_far@ == Map::<TitleCoords, u32>::empty().insert(start, 0)
            &&& post.path_finder.path@ == Map::<TitleCoords, Option<TitleCoords>>::empty().insert(
                start,
                None,
            )
            &&& post.path_finder.solution_path@ == Seq::<TitleCoords>::empty()
            &&& post.sim_coordinator == (SimulationCoordinator {
                is_processing: true,
                steps: 0,
                accumulated_time: 0,
                has_completed: false,
            })
        }
    }

    /// What `reset` does: back to the initial state, with the grid cleared.
    pub open spec fn reset_post(post: AStar, gpre: Grid, gpost: Grid) -> bool {
        &&& post.is_initial()
        &&& gpost.same_dimensions(gpre)
        &&& gpost.start_title is None
        &&& gpost.goal_title is None
        &&& gpost.titles@.len() == gpre.titles@.len()
        &&& forall|i: int|
            0 <= i < gpost.titles@.len() ==> (#[trigger] gpost.titles@[i])@.len()
                == gpre.titles@[i]@.len()
        &&& forall|i: int, j: int|
            0 <= i < gpost.titles@.len() && 0 <= j < gpost.titles@[i]@.len()
                ==> #[trigger] gpost.titles@[i]@[j] == (Title::Normal { was_visited: false })
    }

    /// One paced step after a cell left the frontier: `current` carried a
    /// minimal queued priority; a popped goal reconstructs and marks the
    /// path; any other cell is expanded, each neighbor whose cost improves
    /// getting the new cost, the new predecessor and a queue entry at the
    /// new cost plus the neighbor's heuristic distance to the goal.
    pub open spec fn pop_post(
        pre: AStar,
        post: AStar,
        gpre: Grid,
        gpost: Grid,
        current: TitleCoords,
        pr: i64,
    ) -> bool {
        let contents0 = pre.priority_titles@;
        let goal = gpre.goal_title->0;
        let start = gpre.start_title->0;
        &&& contents0.contains_key(pair_of(current))
        &&& contents0[pair_of(current)] == pr as int
        &&& forall|k: (usize, usize)|
            #[trigger] contents0.contains_key(k) ==> pr as int <= contents0[k]
        &&& post.sim_coordinator.steps == pre.sim_coordinator.steps + 1
        &&& post.sim_coordinator.accumulated_time == 0
        &&& gpost.same_dimensions(gpre)
        &&& gpost.start_title == gpre.start_title
        &&& gpost.goal_title == gpre.goal_title
        &&& if current == goal {
            &&& post.sim_coordinator.is_processing == false
            &&& post.sim_coordinator.has_completed == true
            &&& post.priority_titles@ == contents0.remove(pair_of(current))
            &&& post.cost_so_far@ == pre.cost_so_far@
            &&& post.path_finder.path@ == pre.path_finder.path@
            &&& post.path_finder.solution_path@.len() > pre.path_finder.solution_path@.len()
            &&& post.path_finder.solution_path@.subrange(
                0,
                pre.path_finder.solution_path@.len() as int,
            ) == pre.path_finder.solution_path@
            &&& super::valid_chain(
                pre.path_finder.path@,
                post.path_finder.solution_path@.skip(pre.path_finder.solution_path@.len() as int),
                goal,
                start,
            )
            &&& forall|d: TitleCoords|
                gpre.spec_in_bounds(d) ==> gpost.tile_at(d) == (if post.path_finder.solution_path@.contains(
                    d,
                ) && gpre.tile_at(d) == (Title::Normal { was_visited: true }) {
                    Title::Path
                } else {
                    gpre.tile_at(d)
                })
        } else {
            let base = pre.cost_so_far@[current];
            let relaxed = relaxed_items(gpre.spec_neighbors(current), pre.cost_so_far@, base);
            &&& post.cost_so_far@ == costs_inserted(pre.cost_so_far@, relaxed, (base + 1) as u32)
            &&& post.path_finder.path@ == preds_inserted(pre.path_finder.path@, relaxed, current)
            &&& post.priority_titles@ == queue_inserted(
                contents0.remove(pair_of(current)),
                relaxed,
                |n: TitleCoords| base + 1 + n.manhattan(goal),
            )
            &&& post.path_finder.solution_path@ == pre.path_finder.solution_path@
            &&& post.sim_coordinator.is_processing == !(post.priority_titles@ == empty_contents())
            &&& post.sim_coordinator.has_completed == (pre.sim_coordinator.has_completed
                || post.priority_titles@ == empty_contents())
            &&& forall|d: TitleCoords|
                gpre.spec_in_bounds(d) ==> gpost.tile_at(d) == (if d == current
                    && !gpre.spec_is_start_or_end(current) {
                    (Title::Normal { was_visited: true })
                } else if relaxed.contains(d) && !gpre.spec_is_start_or_end(d) {
                    Title::Process
                } else {
                    gpre.tile_at(d)
                })
        }
    }

    /// One call of `execute_step`, case by case: nothing but the time
    /// accumulator moves while the pacing interval has not elapsed; an empty
    /// frontier ends the run as unreachable; otherwise some minimal-priority
    /// cell is popped and handled as `pop_post` says.
    pub open spec fn step_post(
        pre: AStar,
        post: AStar,
        gpre: Grid,
        gpost: Grid,
        delta_time: u64,
    ) -> bool {
        if !pre.sim_coordinator.spec_ready(delta_time) {
            &&& post.sim_coordinator == pre.sim_coordinator.spec_time_passed(delta_time)
            &&& Self::frozen(pre, post)
            &&& gpost.unchanged_from(gpre)
        } else if pre.priority_titles@ == empty_contents() {
            &&& post.sim_coordinator == (SimulationCoordinator {
                is_processing: false,
                steps: pre.sim_coordinator.steps,
                accumulated_time: 0,
                has_completed: true,
            })
            &&& Self::frozen(pre, post)
            &&& gpost.unchanged_from(gpre)
        } else {
            exists|current: TitleCoords, pr: i64|
                #[trigger] Self::pop_post(pre, post, gpre, gpost, current, pr)
        }
    }

    /// # start
    /// AStar's Algorithm starts.
    ///
    /// Init the algorithm values.
    pub fn start(&mut self, grid: &mut Grid) -> (r: Result<(), AlgorithmError>)
        requires
            old(self).is_initial(),
            old(grid).wf(),
        ensures
            final(grid).wf(),
            final(self).inv(*final(grid)),
            Self::start_post(*old(self), *final(self), *old(grid), *final(grid), r),
    {
        if grid.start_title.is_none() || grid.goal_title.is_none() {
            return Err(AlgorithmError::InvalidInputData);
        }
        let start = grid.start_title.unwrap();

        self.priority_titles.push(start, 0);
        self.cost_so_far.insert(start, 0);
        self.path_finder.add_to_path(start, None);
        self.sim_coordinator.start_processing();
        proof {
            assert(cost_chain_inv(self.path_finder.path@, self.cost_so_far@, start));
            assert forall|k: (usize, usize)|
                #[trigger] self.priority_titles@.contains_key(k) implies self.path_finder.path@.contains_key(
                TitleCoords { x: k.0, y: k.1 },
            ) by {
                assert(k == pair_of(start));
                assert(TitleCoords { x: k.0, y: k.1 } == start);
            }
        }
        Ok(())
    }

    /// # execute_step
    /// Algorithm processing update every iteration interval until the goal
    /// is reached or the frontier runs dry.
    #[verifier::loop_isolation(false)]
    #[verifier::rlimit(100)]
    pub fn execute_step(&mut self, grid: &mut Grid, delta_time: u64)
        requires
            old(grid).wf(),
            old(self).inv(*old(grid)),
            old(self).sim_coordinator.steps < u32::MAX,
            Self::heuristic_in_range(*old(grid)),
        ensures
            final(grid).wf(),
            final(self).inv(*final(grid)),
            Self::step_post(*old(self), *final(self), *old(grid), *final(grid), delta_time),
    {
        if !self.sim_coordinator.is_ready_to_execute(delta_time) {
            return ;
        }

        if let Some(current_title) = self.priority_titles.pop_min() {
            let current = current_title.0;
            let popped_priority = current_title.1;
            self.sim_coordinator.increase_step_count();
            let goal = grid.goal_title.unwrap();
            let start = grid.start_title.unwrap();
            proof {
                assert(TitleCoords { x: current.x, y: current.y } == current);
                assert(old(self).path_finder.path@.contains_key(current));
                assert(old(self).cost_so_far@.contains_key(current));
            }

            // Early exit
            if self.sim_coordinator.process_goal_reached(current, goal) {
                proof {
                    lemma_cost_chain_reaches(
                        old(self).path_finder.path@,
                        old(self).cost_so_far@,
                        start,
                        current,
                    );
                }
                self.path_finder.reconstruct_path(start, goal);
                let ghost g0 = *old(grid);
                let mut idx: usize = 0;
                while idx < self.path_finder.solution_path.len()
                    invariant
                        idx <= self.path_finder.solution_path@.len(),
                        grid.wf(),
                        grid.same_dimensions(g0),
                        grid.start_title == g0.start_title,
                        grid.goal_title == g0.goal_title,
                        grid.titles@.len() == g0.titles@.len(),
                        forall|d: TitleCoords|
                            g0.spec_in_bounds(d) ==> grid.tile_at(d) == (if self.path_finder.solution_path@.take(
                                idx as int,
                            ).contains(d) && g0.tile_at(d) == (Title::Normal {
                                was_visited: true,
                            }) {
                                Title::Path
                            } else {
                                g0.tile_at(d)
                            }),
                    decreases self.path_finder.solution_path@.len() - idx,
                {
                    let element = self.path_finder.solution_path[idx];
                    grid.set_trace_back_path(element);
                    proof {
                        let sol = self.path_finder.solution_path@;
                        assert(sol.take(idx + 1) =~= sol.take(idx as int).push(element));
                        assert(sol.take(idx + 1)[idx as int] == element);
                        assert forall|d: TitleCoords| g0.spec_in_bounds(d) implies grid.tile_at(d)
                            == (if sol.take(idx + 1).contains(d) && g0.tile_at(d)
                            == (Title::Normal { was_visited: true }) {
                            Title::Path
                        } else {
                            g0.tile_at(d)
                        }) by {
                            if sol.take(idx + 1).contains(d) && !sol.take(idx as int).contains(d) {
                                assert(d == element);
                            }
                            if sol.take(idx as int).contains(d) {
                                let k = choose|k: int|
                                    0 <= k < sol.take(idx as int).len() && sol.take(idx as int)[k]
                                        == d;
                                assert(sol.take(idx + 1)[k] == d);
                            }
                        }
                    }
                    idx = idx + 1;
                }
                proof {
                    let sol = self.path_finder.solution_path@;
                    assert(sol.take(sol.len() as int) =~= sol);
                    assert(Self::pop_post(
                        *old(self),
                        *self,
                        *old(grid),
                        *grid,
                        current,
                        popped_priority,
                    ));
                }
                return ;
            }
            grid.mark_visited(current);
            let ghost g0 = *old(grid);
            proof {
                assert forall|d: TitleCoords| d != current implies grid.spec_traversable(d)
                    == g0.spec_traversable(d) by {}
            }
            let neighbors = grid.get_neighbors(current);
            proof {
                assert(grid.spec_neighbors(current) =~= g0.spec_neighbors(current));
                lemma_neighbors_sound(g0, current);
            }
            let ghost nbrs = g0.spec_neighbors(current);
            let ghost cost0 = old(self).cost_so_far@;
            let ghost m0 = old(self).path_finder.path@;
            let ghost contents1 = self.priority_titles@;
            let ghost start_g = g0.start_title->0;

            let base = self.cost_so_far.get(current).unwrap();
            let ghost goal_g = g0.goal_title->0;
            let ghost prio = |n: TitleCoords| base + 1 + n.manhattan(goal_g);

            let mut idx: usize = 0;
            while idx < neighbors.len()
                invariant
                    idx <= nbrs.len(),
                    grid.wf(),
                    grid.same_dimensions(g0),
                    grid.start_title == g0.start_title,
                    grid.goal_title == g0.goal_title,
                    grid.titles@.len() == g0.titles@.len(),
                    self.sim_coordinator == (SimulationCoordinator {
                        is_processing: true,
                        steps: (old(self).sim_coordinator.steps + 1) as u32,
                        accumulated_time: 0,
                        has_completed: old(self).sim_coordinator.has_completed,
                    }),
                    self.cost_so_far.wf(),
                    self.path_finder.path.wf(),
                    self.cost_so_far@ == costs_inserted(
                        cost0,
                        relaxed_items(nbrs.take(idx as int), cost0, base),
                        (base + 1) as u32,
                    ),
                    self.path_finder.path@ == preds_inserted(
                        m0,
                        relaxed_items(nbrs.take(idx as int), cost0, base),
                        current,
                    ),
                    self.priority_titles@ == queue_inserted(
                        contents1,
                        relaxed_items(nbrs.take(idx as int), cost0, base),
                        prio,
                    ),
                    self.path_finder.solution_path@ == old(self).path_finder.solution_path@,
                    adjacent_links(self.path_finder.path@),
                    cost_chain_inv(self.path_finder.path@, self.cost_so_far@, start_g),
                    forall|k: (usize, usize)|
                        #[trigger] self.priority_titles@.contains_key(k)
                            ==> self.path_finder.path@.contains_key(TitleCoords { x: k.0, y: k.1 }),
                    forall|c: TitleCoords|
                        #[trigger] self.cost_so_far@.contains_key(c) ==> self.cost_so_far@[c]
                            <= self.sim_coordinator.steps,
                    forall|c: TitleCoords|
                        !relaxed_items(nbrs.take(idx as int), cost0, base).contains(c) ==> ((
                        #[trigger] self.cost_so_far@.contains_key(c) <==> cost0.contains_key(c))
                            && (cost0.contains_key(c) ==> self.cost_so_far@[c] == cost0[c])),
                    forall|d: TitleCoords|
                        g0.spec_in_bounds(d) ==> grid.tile_at(d) == (if d == current
                            && !g0.spec_is_start_or_end(current) {
                            (Title::Normal { was_visited: true })
                        } else if relaxed_items(nbrs.take(idx as int), cost0, base).contains(d)
                            && !g0.spec_is_start_or_end(d) {
                            Title::Process
                        } else {
                            g0.tile_at(d)
                        }),
                decreases nbrs.len() - idx,
            {
                let neighbor = neighbors[idx];
                let ghost taken = relaxed_items(nbrs.take(idx as int), cost0, base);
                proof {
                    assert(nbrs.take(idx + 1).drop_last() =~= nbrs.take(idx as int));
                    assert(nbrs.take(idx + 1).last() == neighbor);
                    if taken.contains(neighbor) {
                        lemma_relaxed_items_sub(nbrs.take(idx as int), cost0, base, neighbor);
                        let k = choose|k: int|
                            0 <= k < nbrs.take(idx as int).len() && nbrs.take(idx as int)[k]
                                == neighbor;
                        assert(nbrs[k] == nbrs[idx as int]);
                    }
                    assert(!taken.contains(neighbor));
                    assert(!taken.contains(current)) by {
                        if taken.contains(current) {
                            lemma_relaxed_items_sub(nbrs.take(idx as int), cost0, base, current);
                            let k = choose|k: int|
                                0 <= k < nbrs.take(idx as int).len() && nbrs.take(idx as int)[k]
                                    == current;
                            assert(nbrs[k] == current);
                        }
                    }
                    assert(cost0.contains_key(current) && cost0[current] == base);
                    assert(self.cost_so_far@.contains_key(current));
                    assert(self.cost_so_far@[current] == base);
                }
                let new_cost = base + 1;

                if !self.cost_so_far.contains_key(neighbor) || new_cost < self.cost_so_far.get(
                    neighbor,
                ).unwrap() {
                    proof {
                        assert(neighbor != start_g) by {
                            if neighbor == start_g {
                                assert(cost0.contains_key(start_g) && cost0[start_g] == 0);
                                assert(self.cost_so_far@[start_g] == 0);
                            }
                        }
                        assert(neighbor != current);
                    }
                    grid.mark_process(neighbor);
                    let ghost m_pre = self.path_finder.path@;
                    let ghost cost_pre = self.cost_so_far@;
                    let ghost q_pre = self.priority_titles@;
                    self.cost_so_far.insert(neighbor, new_cost);
                    proof {
                        assert(g0.spec_traversable(nbrs[idx as int]));
                        assert(neighbor.x <= i32::MAX as usize && neighbor.y <= i32::MAX as usize);
                        assert(neighbor.manhattan(goal) <= i32::MAX as int);
                    }
                    let h = grid.heuristic(neighbor, goal);
                    let priority: i64 = new_cost as i64 + h as i64;
                    self.priority_titles.push(neighbor, priority);
                    self.path_finder.add_to_path(neighbor, Some(current));
                    proof {
                        let relaxed_next = relaxed_items(nbrs.take(idx + 1), cost0, base);
                        assert(relaxed_next == taken.push(neighbor));
                        assert(relaxed_next.drop_last() =~= taken);
                        assert(self.cost_so_far@ == costs_inserted(
                            cost0,
                            relaxed_next,
                            (base + 1) as u32,
                        ));
                        assert(self.path_finder.path@ == preds_inserted(m0, relaxed_next, current));
                        assert(self.priority_titles@ == queue_inserted(
                            contents1,
                            relaxed_next,
                            prio,
                        ));
                        // the new link is one step long, so chains stay adjacent
                        assert(current.manhattan(neighbor) == 1) by {
                            assert(nbrs[idx as int].manhattan(current) == 1);
                        }
                        // costs still strictly descend along every predecessor link
                        assert(cost_chain_inv(
                            self.path_finder.path@,
                            self.cost_so_far@,
                            start_g,
                        )) by {
                            let m2 = self.path_finder.path@;
                            let c2 = self.cost_so_far@;
                            assert(m2.dom() =~= c2.dom());
                            assert forall|c: TitleCoords| #[trigger]
                                m2.contains_key(c) && c != start_g implies {
                                &&& m2[c] is Some
                                &&& m2.contains_key(m2[c]->0)
                                &&& c2[m2[c]->0] < c2[c]
                                &&& c2[c] >= 1
                            } by {
                                if c == neighbor {
                                    assert(m2[c] == Some(current));
                                    assert(cost_pre[current] == base);
                                } else {
                                    assert(m_pre.contains_key(c));
                                    let p = m_pre[c]->0;
                                    if m_pre[c] is Some && p == neighbor {
                                        assert(cost_pre.contains_key(neighbor));
                                        assert(new_cost < cost_pre[neighbor]);
                                    }
                                }
                            }
                        }
                        assert forall|c: TitleCoords|
                            !relaxed_next.contains(c) implies ((
                        #[trigger] self.cost_so_far@.contains_key(c) <==> cost0.contains_key(c))
                            && (cost0.contains_key(c) ==> self.cost_so_far@[c] == cost0[c])) by {
                            assert(relaxed_next[relaxed_next.len() - 1] == neighbor);
                            if taken.contains(c) {
                                let k = choose|k: int| 0 <= k < taken.len() && taken[k] == c;
                                assert(relaxed_next[k] == c);
                            }
                            assert(cost_pre.contains_key(c) <==> cost0.contains_key(c));
                        }
                        assert forall|k: (usize, usize)|
                            #[trigger] self.priority_titles@.contains_key(k) implies self.path_finder.path@.contains_key(
                            TitleCoords { x: k.0, y: k.1 },
                        ) by {
                            if k != pair_of(neighbor) {
                                assert(q_pre.contains_key(k));
                            } else {
                                assert(TitleCoords { x: k.0, y: k.1 } == neighbor);
                            }
                        }
                        assert forall|d: TitleCoords| g0.spec_in_bounds(d) implies grid.tile_at(d)
                            == (if d == current && !g0.spec_is_start_or_end(current) {
                            (Title::Normal { was_visited: true })
                        } else if relaxed_next.contains(d) && !g0.spec_is_start_or_end(d) {
                            Title::Process
                        } else {
                            g0.tile_at(d)
                        }) by {
                            if relaxed_next.contains(d) && !taken.contains(d) {
                                assert(d == neighbor) by {
                                    let k = choose|k: int|
                                        0 <= k < relaxed_next.len() && relaxed_next[k] == d;
                                    if k < taken.len() {
                                        assert(taken[k] == d);
                                    }
                                }
                            }
                            if taken.contains(d) {
                                assert(relaxed_next.contains(d)) by {
                                    let k = choose|k: int| 0 <= k < taken.len() && taken[k] == d;
                                    assert(relaxed_next[k] == d);
                                }
                            }
                        }
                    }
                } else {
                    proof {
                        assert(relaxed_items(nbrs.take(idx + 1), cost0, base) == taken);
                    }
                }
                idx = idx + 1;
            }
            proof {
                assert(nbrs.take(nbrs.len() as int) =~= nbrs);
            }
            // Check if goal is unreachable
            if self.priority_titles.is_empty() {
                self.sim_coordinator.has_completed = true;
                self.sim_coordinator.stop_processing();
            }
            proof {
                assert(Self::pop_post(
                    *old(self),
                    *self,
                    *old(grid),
                    *grid,
                    current,
                    popped_priority,
                ));
            }
        } else {
            self.sim_coordinator.has_completed = true;
            self.sim_coordinator.stop_processing();
        }
    }

    /// # reset
    /// Reset the algorithm processing.
    pub fn reset(&mut self, grid: &mut Grid)
        ensures
            Self::reset_post(*final(self), *old(grid), *final(grid)),
            final(self).inv(*final(grid)),
            old(grid).wf() ==> final(grid).wf(),
    {
        *self = AStar::default();
        grid.reset();
    }

    /// # has_completed
    /// Check if processing is done.
    pub fn has_completed(&self) -> (r: bool)
        ensures
            r == self.sim_coordinator.has_completed,
    {
        self.sim_coordinator.has_completed
    }

    /// # name
    /// Algorithm name.
    pub fn name(&self) -> (r: String)
        ensures
            r@ == "A*"@,
    {
        "A*".to_owned()
    }
}

} // verus!
