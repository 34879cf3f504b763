use crate::map::grid::Grid;
use crate::map::TitleCoords;
use vstd::prelude::*;

pub mod a_star;
pub mod bfs;
pub mod dijkstra;
pub mod frontier;
pub mod greedy_bfs;

verus! {

/// How long one algorithm iteration lasts, in microseconds: accumulated
/// frame time is weighed against this interval before a step may run.
pub const ONE_ITERATION_TIME_MICROS: u64 = 10_000;

#[derive(Debug)]
pub enum AlgorithmError {
    InvalidInputData,
}

pub trait Measurable {
    /// The text the statistics summary must spell out.
    spec fn spec_statistics_of(&self) -> Seq<char>;

    fn output_statistics(&self) -> (r: String)
        ensures
            r@ == self.spec_statistics_of(),
    ;
}

/// Owns the run/step bookkeeping shared by every algorithm variant:
/// whether a run is active, the accumulated frame time weighed against the
/// fixed iteration interval, the step counter, and the completion flag.
pub struct SimulationCoordinator {
    pub is_processing: bool,
    pub steps: u32,
    pub accumulated_time: u64,
    pub has_completed: bool,
}

impl SimulationCoordinator {
    /// Whether a step fires when `delta_time` more microseconds arrive.
    pub open spec fn spec_ready(self, delta_time: u64) -> bool {
        self.is_processing && self.accumulated_time + delta_time
            >= ONE_ITERATION_TIME_MICROS
    }

    /// The accumulator value after the ready check consumed `delta_time`.
    pub open spec fn spec_time_passed(self, delta_time: u64) -> SimulationCoordinator {
        SimulationCoordinator {
            accumulated_time: if !self.is_processing {
                self.accumulated_time
            } else if self.accumulated_time + delta_time >= ONE_ITERATION_TIME_MICROS {
                0
            } else {
                (self.accumulated_time + delta_time) as u64
            },
            ..self
        }
    }

    pub fn is_ready_to_execute(&mut self, delta_time: u64) -> (r: bool)
        ensures
            r == old(self).spec_ready(delta_time),
            *final(self) == old(self).spec_time_passed(delta_time),
    {
        if self.is_processing && self.should_iterate(delta_time) {
            return true;
        }
        false
    }

    pub fn increase_step_count(&mut self)
        requires
            old(self).steps < u32::MAX,
        ensures
            *final(self) == (SimulationCoordinator { steps: (old(self).steps + 1) as u32, ..*old(
                self,
            ) }),
    {
        self.steps = self.steps + 1;
    }

    pub fn start_processing(&mut self)
        ensures
            *final(self) == (SimulationCoordinator { is_processing: true, ..*old(self) }),
    {
        self.is_processing = true;
    }

    pub fn stop_processing(&mut self)
        ensures
            *final(self) == (SimulationCoordinator { is_processing: false, ..*old(self) }),
    {
        self.is_processing = false;
    }

    /// The single authoritative goal check: on equality the run is flagged
    /// complete and processing stops.
    pub fn process_goal_reached(&mut self, current: TitleCoords, goal: TitleCoords) -> (r: bool)
        ensures
            r == (current == goal),
            *final(self) == (if current == goal {
                (SimulationCoordinator { has_completed: true, is_processing: false, ..*old(self) })
            } else {
                *old(self)
            }),
    {
        if current == goal {
            self.has_completed = true;
            self.stop_processing();
            return true;
        }
        false
    }

    fn should_iterate(&mut self, delta_time: u64) -> (r: bool)
        ensures
            r == (old(self).accumulated_time + delta_time >= ONE_ITERATION_TIME_MICROS),
            final(self).is_processing == old(self).is_processing,
            final(self).steps == old(self).steps,
            final(self).has_completed == old(self).has_completed,
            final(self).accumulated_time == (if old(self).accumulated_time + delta_time
                >= ONE_ITERATION_TIME_MICROS {
                0u64
            } else {
                (old(self).accumulated_time + delta_time) as u64
            }),
    {
        self.accumulated_time = self.accumulated_time.saturating_add(delta_time);
        if self.accumulated_time < ONE_ITERATION_TIME_MICROS {
            return false;
        }
        self.accumulated_time = 0;
        true
    }
}

impl Default for SimulationCoordinator {
    fn default() -> (r: Self)
        ensures
            r.is_processing == false,
            r.steps == 0,
            r.accumulated_time == 0,
            r.has_completed == false,
    {
        Self { is_processing: false, steps: 0, accumulated_time: 0, has_completed: false }
    }
}

/// An association map from grid coordinates to `T`, kept as a vector of
/// key-value pairs with pairwise distinct keys and viewed as a `Map`.
pub struct CoordMap<T> {
    pub entries: Vec<(TitleCoords, T)>,
}

impl<T> CoordMap<T> {
    /// The map described by the prefix of the entries: later entries win,
    /// though under `wf` every key occurs at most once.
    pub open spec fn seq_to_map(s: Seq<(TitleCoords, T)>) -> Map<TitleCoords, T>
        decreases s.len(),
    {
        if s.len() == 0 {
            Map::empty()
        } else {
            Self::seq_to_map(s.drop_last()).insert(s.last().0, s.last().1)
        }
    }

    /// Keys are pairwise distinct.
    pub open spec fn wf(&self) -> bool {
        forall|i: int, j: int|
            0 <= i < j < self.entries@.len() ==> (#[trigger] self.entries@[i]).0 != (
            #[trigger] self.entries@[j]).0
    }

    pub open spec fn spec_has_key(s: Seq<(TitleCoords, T)>, key: TitleCoords) -> bool {
        exists|i: int| 0 <= i < s.len() && (#[trigger] s[i]).0 == key
    }

    proof fn lemma_contains(s: Seq<(TitleCoords, T)>, key: TitleCoords)
        ensures
            Self::seq_to_map(s).contains_key(key) <==> Self::spec_has_key(s, key),
        decreases s.len(),
    {
        if s.len() > 0 {
            Self::lemma_contains(s.drop_last(), key);
            if s.last().0 == key {
                assert((#[trigger] s[s.len() - 1]).0 == key);
            } else {
                if Self::spec_has_key(s.drop_last(), key) {
                    let i = choose|i: int|
                        0 <= i < s.drop_last().len() && (#[trigger] s.drop_last()[i]).0 == key;
                    assert((#[trigger] s[i]).0 == key);
                }
                if Self::spec_has_key(s, key) {
                    let i = choose|i: int| 0 <= i < s.len() && (#[trigger] s[i]).0 == key;
                    assert(i < s.len() - 1 ==> (#[trigger] s.drop_last()[i]).0 == key);
                }
            }
        }
    }

    proof fn lemma_index(s: Seq<(TitleCoords, T)>, i: int)
        requires
            forall|a: int, b: int|
                0 <= a < b < s.len() ==> (#[trigger] s[a]).0 != (#[trigger] s[b]).0,
            0 <= i < s.len(),
        ensures
            Self::seq_to_map(s).contains_key(s[i].0),
            Self::seq_to_map(s)[s[i].0] == s[i].1,
        decreases s.len(),
    {
        if i == s.len() - 1 {
        } else {
            Self::lemma_index(s.drop_last(), i);
            assert(s.drop_last()[i] == s[i]);
            assert(s[i].0 != s.last().0);
        }
    }

    /// The number of keys equals the number of entries.
    proof fn lemma_dom_len(s: Seq<(TitleCoords, T)>)
        requires
            forall|a: int, b: int|
                0 <= a < b < s.len() ==> (#[trigger] s[a]).0 != (#[trigger] s[b]).0,
        ensures
            Self::seq_to_map(s).dom().finite(),
            Self::seq_to_map(s).dom().len() == s.len(),
        decreases s.len(),
    {
        if s.len() > 0 {
            Self::lemma_dom_len(s.drop_last());
            Self::lemma_contains(s.drop_last(), s.last().0);
            assert(!Self::spec_has_key(s.drop_last(), s.last().0)) by {
                if Self::spec_has_key(s.drop_last(), s.last().0) {
                    let i = choose|i: int|
                        0 <= i < s.drop_last().len() && (#[trigger] s.drop_last()[i]).0
                            == s.last().0;
                    assert((#[trigger] s[i]).0 == (#[trigger] s[s.len() - 1]).0);
                }
            }
        }
    }

    pub fn new() -> (r: Self)
        ensures
            r@ == Map::<TitleCoords, T>::empty(),
            r.wf(),
            r.entries@.len() == 0,
    {
        CoordMap { entries: Vec::new() }
    }

    /// Insert or update: the view becomes `self@.insert(key, value)`.
    pub fn insert(&mut self, key: TitleCoords, value: T)
        requires
            old(self).wf(),
        ensures
            final(self).wf(),
            final(self)@ == old(self)@.insert(key, value),
            old(self)@.contains_key(key) ==> final(self).entries@.len() == old(
                self,
            ).entries@.len(),
            !old(self)@.contains_key(key) ==> final(self).entries@.len() == old(
                self,
            ).entries@.len() + 1,
    {
        proof {
            Self::lemma_contains(self.entries@, key);
        }
        let mut i: usize = 0;
        while i < self.entries.len()
            invariant
                i <= self.entries@.len(),
                self.wf(),
                *self == *old(self),
                forall|k: int| 0 <= k < i as int ==> (#[trigger] self.entries@[k]).0 != key,
            decreases self.entries@.len() - i,
        {
            if self.entries[i].0 == key {
                self.entries[i] = (key, value);
                proof {
                    assert((old(self).entries@[i as int]).0 == key);
                    assert(Self::spec_has_key(old(self).entries@, key));
                    Self::lemma_contains(old(self).entries@, key);
                    Self::lemma_update(old(self).entries@, i as int, key, value);
                }
                return ;
            }
            i = i + 1;
        }
        self.entries.push((key, value));
        proof {
            Self::lemma_contains(old(self).entries@, key);
            assert(self.entries@.drop_last() =~= old(self).entries@);
            assert(self@ == old(self)@.insert(key, value));
        }
    }

    proof fn lemma_update(s: Seq<(TitleCoords, T)>, i: int, key: TitleCoords, value: T)
        requires
            forall|a: int, b: int|
                0 <= a < b < s.len() ==> (#[trigger] s[a]).0 != (#[trigger] s[b]).0,
            0 <= i < s.len(),
            s[i].0 == key,
        ensures
            Self::seq_to_map(s.update(i, (key, value))) == Self::seq_to_map(s).insert(key, value),
        decreases s.len(),
    {
        let su = s.update(i, (key, value));
        if i == s.len() - 1 {
            assert(su.drop_last() =~= s.drop_last());
            assert(Self::seq_to_map(su) =~= Self::seq_to_map(s).insert(key, value));
        } else {
            assert(su.drop_last() =~= s.drop_last().update(i, (key, value)));
            Self::lemma_update(s.drop_last(), i, key, value);
            assert(s.drop_last()[i] == s[i]);
            assert(su.last() == s.last());
            assert(s.last().0 != key);
            assert(Self::seq_to_map(su) =~= Self::seq_to_map(s).insert(key, value));
        }
    }

    /// Look the key up, returning a copy of the stored value.
    pub fn get(&self, key: TitleCoords) -> (r: Option<T>) where T: Copy
        requires
            self.wf(),
        ensures
            match r {
                Some(v) => self@.contains_key(key) && self@[key] == v,
                None => !self@.contains_key(key),
            },
    {
        proof {
            Self::lemma_contains(self.entries@, key);
        }
        let mut i: usize = 0;
        while i < self.entries.len()
            invariant
                i <= self.entries@.len(),
                self.wf(),
                forall|k: int| 0 <= k < i as int ==> (#[trigger] self.entries@[k]).0 != key,
            decreases self.entries@.len() - i,
        {
            if self.entries[i].0 == key {
                proof {
                    Self::lemma_index(self.entries@, i as int);
                }
                return Some(self.entries[i].1);
            }
            i = i + 1;
        }
        None
    }

    pub fn contains_key(&self, key: TitleCoords) -> (r: bool) where T: Copy
        requires
            self.wf(),
        ensures
            r == self@.contains_key(key),
    {
        self.get(key).is_some()
    }

    /// The number of keys held.
    pub fn len(&self) -> (r: usize)
        requires
            self.wf(),
        ensures
            self@.dom().finite(),
            r == self@.dom().len(),
    {
        proof {
            Self::lemma_dom_len(self.entries@);
        }
        self.entries.len()
    }
}

impl<T> View for CoordMap<T> {
    type V = Map<TitleCoords, T>;

    open spec fn view(&self) -> Map<TitleCoords, T> {
        Self::seq_to_map(self.entries@)
    }
}

/// The neighbors, in expansion order, that pass the visited gate: the ones
/// an algorithm with once-only enqueueing adds to its frontier.
pub open spec fn fresh_items(neighbors: Seq<TitleCoords>, visited: Seq<TitleCoords>) -> Seq<
    TitleCoords,
>
    decreases neighbors.len(),
{
    if neighbors.len() == 0 {
        Seq::empty()
    } else {
        let prefix = fresh_items(neighbors.drop_last(), visited);
        if !visited.contains(neighbors.last()) {
            prefix.push(neighbors.last())
        } else {
            prefix
        }
    }
}

/// The predecessor map after every item of `items` was recorded as reached
/// from `current`, in order.
pub open spec fn preds_inserted(
    m: Map<TitleCoords, Option<TitleCoords>>,
    items: Seq<TitleCoords>,
    current: TitleCoords,
) -> Map<TitleCoords, Option<TitleCoords>>
    decreases items.len(),
{
    if items.len() == 0 {
        m
    } else {
        preds_inserted(m, items.drop_last(), current).insert(items.last(), Some(current))
    }
}

/// What the visited gate lets through is complete: every listed neighbor
/// that was not yet visited passes.
pub proof fn lemma_fresh_items_complete(
    neighbors: Seq<TitleCoords>,
    visited: Seq<TitleCoords>,
    x: TitleCoords,
)
    requires
        neighbors.contains(x),
        !visited.contains(x),
    ensures
        fresh_items(neighbors, visited).contains(x),
    decreases neighbors.len(),
{
    let prefix = fresh_items(neighbors.drop_last(), visited);
    if x == neighbors.last() {
        let out = fresh_items(neighbors, visited);
        assert(out == prefix.push(x));
        assert(out[out.len() - 1] == x);
    } else {
        assert(neighbors.drop_last().contains(x)) by {
            let i = choose|i: int| 0 <= i < neighbors.len() && neighbors[i] == x;
            assert(neighbors.drop_last()[i] == x);
        }
        lemma_fresh_items_complete(neighbors.drop_last(), visited, x);
        if !visited.contains(neighbors.last()) {
            let i = choose|i: int| 0 <= i < prefix.len() && prefix[i] == x;
            assert(fresh_items(neighbors, visited)[i] == x);
        }
    }
}

/// The visited gate keeps the neighbor order and never repeats a cell.
pub proof fn lemma_fresh_items_no_dup(neighbors: Seq<TitleCoords>, visited: Seq<TitleCoords>)
    requires
        neighbors.no_duplicates(),
    ensures
        fresh_items(neighbors, visited).no_duplicates(),
    decreases neighbors.len(),
{
    if neighbors.len() > 0 {
        assert(neighbors.drop_last().no_duplicates());
        lemma_fresh_items_no_dup(neighbors.drop_last(), visited);
        let prefix = fresh_items(neighbors.drop_last(), visited);
        if !visited.contains(neighbors.last()) {
            assert(!prefix.contains(neighbors.last())) by {
                if prefix.contains(neighbors.last()) {
                    lemma_fresh_items_sub(neighbors.drop_last(), visited, neighbors.last());
                    let i = choose|i: int|
                        0 <= i < neighbors.drop_last().len() && neighbors.drop_last()[i]
                            == neighbors.last();
                    assert(neighbors[i] == neighbors[neighbors.len() - 1]);
                }
            }
        }
    }
}

/// Recording predecessors for `items` touches no other key.
pub proof fn lemma_preds_inserted_other(
    m: Map<TitleCoords, Option<TitleCoords>>,
    items: Seq<TitleCoords>,
    current: TitleCoords,
    x: TitleCoords,
)
    requires
        !items.contains(x),
    ensures
        preds_inserted(m, items, current).contains_key(x) == m.contains_key(x),
        m.contains_key(x) ==> preds_inserted(m, items, current)[x] == m[x],
    decreases items.len(),
{
    if items.len() > 0 {
        assert(!items.drop_last().contains(x)) by {
            if items.drop_last().contains(x) {
                let i = choose|i: int|
                    0 <= i < items.drop_last().len() && items.drop_last()[i] == x;
                assert(items[i] == x);
            }
        }
        assert(items[items.len() - 1] == items.last());
        lemma_preds_inserted_other(m, items.drop_last(), current, x);
    }
}

/// Every item of `items` ends up recorded as reached from `current`.
pub proof fn lemma_preds_inserted_mem(
    m: Map<TitleCoords, Option<TitleCoords>>,
    items: Seq<TitleCoords>,
    current: TitleCoords,
    x: TitleCoords,
)
    requires
        items.contains(x),
    ensures
        preds_inserted(m, items, current).contains_key(x),
        preds_inserted(m, items, current)[x] == Some(current),
    decreases items.len(),
{
    if x == items.last() {
    } else {
        assert(items.drop_last().contains(x)) by {
            let i = choose|i: int| 0 <= i < items.len() && items[i] == x;
            assert(items.drop_last()[i] == x);
        }
        lemma_preds_inserted_mem(m, items.drop_last(), current, x);
    }
}

/// A chain whose cells the map already knew survives the recording of new
/// keys: `valid_chain` looks the inserted keys up nowhere.
pub proof fn lemma_valid_chain_preds_inserted(
    m: Map<TitleCoords, Option<TitleCoords>>,
    items: Seq<TitleCoords>,
    current: TitleCoords,
    seg: Seq<TitleCoords>,
    goal: TitleCoords,
    start: TitleCoords,
)
    requires
        valid_chain(m, seg, goal, start),
        forall|i: int| 0 <= i < items.len() ==> !m.contains_key(#[trigger] items[i]),
    ensures
        valid_chain(preds_inserted(m, items, current), seg, goal, start),
{
    let m2 = preds_inserted(m, items, current);
    assert forall|i: int| 0 <= i < seg.len() - 1 implies {
        &&& #[trigger] seg[i] != start
        &&& m2.contains_key(seg[i])
        &&& m2[seg[i]] == Some(seg[i + 1])
    } by {
        assert(m.contains_key(seg[i]));
        assert(!items.contains(seg[i])) by {
            if items.contains(seg[i]) {
                let k = choose|k: int| 0 <= k < items.len() && items[k] == seg[i];
            }
        }
        lemma_preds_inserted_other(m, items, current, seg[i]);
    }
}

/// Membership in a concatenation is membership in either part.
pub proof fn lemma_contains_concat(a: Seq<TitleCoords>, b: Seq<TitleCoords>, x: TitleCoords)
    ensures
        (a + b).contains(x) <==> (a.contains(x) || b.contains(x)),
{
    if a.contains(x) {
        let i = choose|i: int| 0 <= i < a.len() && a[i] == x;
        assert((a + b)[i] == x);
    }
    if b.contains(x) {
        let i = choose|i: int| 0 <= i < b.len() && b[i] == x;
        assert((a + b)[a.len() + i] == x);
    }
    if (a + b).contains(x) {
        let i = choose|i: int| 0 <= i < (a + b).len() && (a + b)[i] == x;
        if i < a.len() {
            assert(a[i] == x);
        } else {
            assert(b[i - a.len()] == x);
        }
    }
}

/// What passes the visited gate comes from the neighbor list and was not
/// visited before.
pub proof fn lemma_fresh_items_sub(
    neighbors: Seq<TitleCoords>,
    visited: Seq<TitleCoords>,
    x: TitleCoords,
)
    requires
        fresh_items(neighbors, visited).contains(x),
    ensures
        neighbors.contains(x),
        !visited.contains(x),
    decreases neighbors.len(),
{
    let prefix = fresh_items(neighbors.drop_last(), visited);
    if !visited.contains(neighbors.last()) && x == neighbors.last() {
        assert(neighbors[neighbors.len() - 1] == x);
    } else {
        assert(prefix.contains(x)) by {
            let out = fresh_items(neighbors, visited);
            let i = choose|i: int| 0 <= i < out.len() && out[i] == x;
            if !visited.contains(neighbors.last()) {
                assert(out == prefix.push(neighbors.last()));
                assert(prefix[i] == x);
            }
        }
        lemma_fresh_items_sub(neighbors.drop_last(), visited, x);
        let j = choose|j: int|
            0 <= j < neighbors.drop_last().len() && neighbors.drop_last()[j] == x;
        assert(neighbors[j] == x);
    }
}

/// Executable membership test over a vector of coordinates.
pub(crate) fn contains_coord(v: &Vec<TitleCoords>, c: TitleCoords) -> (r: bool)
    ensures
        r == v@.contains(c),
{
    let mut i: usize = 0;
    while i < v.len()
        invariant
            i <= v@.len(),
            forall|k: int| 0 <= k < i as int ==> v@[k] != c,
        decreases v@.len() - i,
    {
        if v[i] == c {
            return true;
        }
        i = i + 1;
    }
    false
}

/// Every recorded predecessor is an orthogonal grid neighbor of the cell it
/// was recorded for.
pub open spec fn adjacent_links(m: Map<TitleCoords, Option<TitleCoords>>) -> bool {
    forall|c: TitleCoords|
        #[trigger] m.contains_key(c) ==> match m[c] {
            Some(p) => p.manhattan(c) == 1,
            None => true,
        }
}

/// `c` leads back to `start` through the predecessor map `m` in at most
/// `fuel` hops.
pub open spec fn reaches(
    m: Map<TitleCoords, Option<TitleCoords>>,
    c: TitleCoords,
    start: TitleCoords,
    fuel: nat,
) -> bool
    decreases fuel,
{
    c == start || (fuel > 0 && m.contains_key(c) && match m[c] {
        Some(p) => reaches(m, p, start, (fuel - 1) as nat),
        None => false,
    })
}

/// `c` leads back to `start` through the predecessor map `m` in finitely
/// many hops.
pub open spec fn connected(
    m: Map<TitleCoords, Option<TitleCoords>>,
    c: TitleCoords,
    start: TitleCoords,
) -> bool {
    exists|fuel: nat| reaches(m, c, start, fuel)
}

/// `seg` walks the predecessor map `m` from `goal` back to `start`:
/// it begins at `goal`, ends at `start`, and every other entry is the
/// recorded predecessor of the one before it.
pub open spec fn valid_chain(
    m: Map<TitleCoords, Option<TitleCoords>>,
    seg: Seq<TitleCoords>,
    goal: TitleCoords,
    start: TitleCoords,
) -> bool {
    &&& seg.len() >= 1
    &&& seg[0] == goal
    &&& seg.last() == start
    &&& forall|i: int|
        0 <= i < seg.len() - 1 ==> {
            &&& #[trigger] seg[i] != start
            &&& m.contains_key(seg[i])
            &&& m[seg[i]] == Some(seg[i + 1])
        }
}

pub proof fn lemma_reaches_fuel_mono(
    m: Map<TitleCoords, Option<TitleCoords>>,
    c: TitleCoords,
    start: TitleCoords,
    f1: nat,
    f2: nat,
)
    requires
        reaches(m, c, start, f1),
        f1 <= f2,
    ensures
        reaches(m, c, start, f2),
    decreases f1,
{
    if c != start {
        lemma_reaches_fuel_mono(m, m[c]->0, start, (f1 - 1) as nat, (f2 - 1) as nat);
    }
}

/// Adding an entry for a coordinate the map does not know yet cannot break
/// any chain that already led back to `start`.
pub proof fn lemma_reaches_insert(
    m: Map<TitleCoords, Option<TitleCoords>>,
    c: TitleCoords,
    start: TitleCoords,
    fuel: nat,
    k: TitleCoords,
    v: Option<TitleCoords>,
)
    requires
        reaches(m, c, start, fuel),
        !m.contains_key(k),
        k != start,
    ensures
        reaches(m.insert(k, v), c, start, fuel),
    decreases fuel,
{
    if c != start {
        assert(c != k);
        lemma_reaches_insert(m, m[c]->0, start, (fuel - 1) as nat, k, v);
    }
}

/// The neighbors, in expansion order, whose best known cost improves when
/// reached from a cell whose own cost is `base`: unseen ones, and ones whose
/// recorded cost exceeds `base + 1`.
pub open spec fn relaxed_items(
    neighbors: Seq<TitleCoords>,
    cost: Map<TitleCoords, u32>,
    base: u32,
) -> Seq<TitleCoords>
    decreases neighbors.len(),
{
    if neighbors.len() == 0 {
        Seq::empty()
    } else {
        let prefix = relaxed_items(neighbors.drop_last(), cost, base);
        let n = neighbors.last();
        if !cost.contains_key(n) || base + 1 < cost[n] {
            prefix.push(n)
        } else {
            prefix
        }
    }
}

/// The cost table after every item of `items` was recorded with cost
/// `value`, in order.
pub open spec fn costs_inserted(
    cost: Map<TitleCoords, u32>,
    items: Seq<TitleCoords>,
    value: u32,
) -> Map<TitleCoords, u32>
    decreases items.len(),
{
    if items.len() == 0 {
        cost
    } else {
        costs_inserted(cost, items.drop_last(), value).insert(items.last(), value)
    }
}

/// The frontier contents after every item of `items` was pushed with the
/// priority `prio` assigns it, in order.
pub open spec fn queue_inserted(
    contents: Map<(usize, usize), int>,
    items: Seq<TitleCoords>,
    prio: spec_fn(TitleCoords) -> int,
) -> Map<(usize, usize), int>
    decreases items.len(),
{
    if items.len() == 0 {
        contents
    } else {
        queue_inserted(contents, items.drop_last(), prio).insert(
            (items.last().x, items.last().y),
            prio(items.last()),
        )
    }
}

/// What passes the relaxation gate comes from the neighbor list.
pub proof fn lemma_relaxed_items_sub(
    neighbors: Seq<TitleCoords>,
    cost: Map<TitleCoords, u32>,
    base: u32,
    x: TitleCoords,
)
    requires
        relaxed_items(neighbors, cost, base).contains(x),
    ensures
        neighbors.contains(x),
    decreases neighbors.len(),
{
    let prefix = relaxed_items(neighbors.drop_last(), cost, base);
    let n = neighbors.last();
    if (!cost.contains_key(n) || base + 1 < cost[n]) && x == n {
        assert(neighbors[neighbors.len() - 1] == x);
    } else {
        assert(prefix.contains(x)) by {
            let out = relaxed_items(neighbors, cost, base);
            let i = choose|i: int| 0 <= i < out.len() && out[i] == x;
            if !cost.contains_key(n) || base + 1 < cost[n] {
                assert(out == prefix.push(n));
                assert(prefix[i] == x);
            }
        }
        lemma_relaxed_items_sub(neighbors.drop_last(), cost, base, x);
        let j = choose|j: int|
            0 <= j < neighbors.drop_last().len() && neighbors.drop_last()[j] == x;
        assert(neighbors[j] == x);
    }
}

/// A predecessor map whose entries strictly descend in recorded cost must
/// lead every key back to `start`.
pub open spec fn cost_chain_inv(
    m: Map<TitleCoords, Option<TitleCoords>>,
    cost: Map<TitleCoords, u32>,
    start: TitleCoords,
) -> bool {
    &&& m.dom() == cost.dom()
    &&& m.contains_key(start)
    &&& m[start] is None
    &&& cost[start] == 0
    &&& forall|c: TitleCoords|
        #[trigger] m.contains_key(c) ==> c != start ==> {
            &&& m[c] is Some
            &&& m.contains_key(m[c]->0)
            &&& cost[m[c]->0] < cost[c]
            &&& cost[c] >= 1
        }
}

pub proof fn lemma_cost_chain_reaches(
    m: Map<TitleCoords, Option<TitleCoords>>,
    cost: Map<TitleCoords, u32>,
    start: TitleCoords,
    c: TitleCoords,
)
    requires
        cost_chain_inv(m, cost, start),
        m.contains_key(c),
    ensures
        reaches(m, c, start, cost[c] as nat),
        connected(m, c, start),
    decreases cost[c],
{
    if c != start {
        let p = m[c]->0;
        if p == start {
            lemma_cost_chain_reaches(m, cost, start, p);
        } else {
            assert(cost[p] >= 1);
            lemma_cost_chain_reaches(m, cost, start, p);
        }
        lemma_reaches_fuel_mono(m, p, start, cost[p] as nat, (cost[c] - 1) as nat);
    }
}

/// The walk a predecessor map pins down is unique: two chains from the same
/// goal to the same start over the same map are equal.
pub proof fn lemma_valid_chain_unique(
    m: Map<TitleCoords, Option<TitleCoords>>,
    a: Seq<TitleCoords>,
    b: Seq<TitleCoords>,
    goal: TitleCoords,
    start: TitleCoords,
)
    requires
        valid_chain(m, a, goal, start),
        valid_chain(m, b, goal, start),
    ensures
        a == b,
    decreases a.len(),
{
    if goal == start {
        assert(a.len() == 1) by {
            if a.len() > 1 {
                assert(a[0] != start);
            }
        }
        assert(b.len() == 1) by {
            if b.len() > 1 {
                assert(b[0] != start);
            }
        }
        assert(a =~= b);
    } else {
        assert(a.len() >= 2) by {
            assert(a[0] != start && a.last() == start);
        }
        assert(b.len() >= 2) by {
            assert(b[0] != start && b.last() == start);
        }
        assert(a[0] == goal && m[a[0]] == Some(a[1]));
        assert(b[0] == goal && m[b[0]] == Some(b[1]));
        assert(a[1] == b[1]);
        let a1 = a.skip(1);
        let b1 = b.skip(1);
        assert(valid_chain(m, a1, a[1], start)) by {
            assert(a1[0] == a[1]);
            assert(a1.last() == a.last());
            assert forall|i: int| 0 <= i < a1.len() - 1 implies {
                &&& #[trigger] a1[i] != start
                &&& m.contains_key(a1[i])
                &&& m[a1[i]] == Some(a1[i + 1])
            } by {
                assert(a1[i] == a[i + 1] && a1[i + 1] == a[i + 2]);
            }
        }
        assert(valid_chain(m, b1, b[1], start)) by {
            assert(b1[0] == b[1]);
            assert(b1.last() == b.last());
            assert forall|i: int| 0 <= i < b1.len() - 1 implies {
                &&& #[trigger] b1[i] != start
                &&& m.contains_key(b1[i])
                &&& m[b1[i]] == Some(b1[i + 1])
            } by {
                assert(b1[i] == b[i + 1] && b1[i + 1] == b[i + 2]);
            }
        }
        lemma_valid_chain_unique(m, a1, b1, a[1], start);
        assert(a =~= b) by {
            assert forall|i: int| 0 <= i < a.len() implies a[i] == b[i] by {
                if i > 0 {
                    assert(a1[i - 1] == b1[i - 1]);
                }
            }
        }
    }
}

/// The decimal digit characters, low to high.
pub open spec fn dec_digit(d: int) -> char {
    if d == 0 {
        '0'
    } else if d == 1 {
        '1'
    } else if d == 2 {
        '2'
    } else if d == 3 {
        '3'
    } else if d == 4 {
        '4'
    } else if d == 5 {
        '5'
    } else if d == 6 {
        '6'
    } else if d == 7 {
        '7'
    } else if d == 8 {
        '8'
    } else {
        '9'
    }
}

/// The decimal spelling of a non-negative number, most significant digit
/// first.
pub open spec fn spec_dec(n: int) -> Seq<char>
    recommends
        n >= 0,
    decreases n,
{
    if n < 10 {
        seq![dec_digit(n)]
    } else {
        spec_dec(n / 10).push(dec_digit(n % 10))
    }
}

/// The statistics summary, spelled out: the unreachable notice when no path
/// was found, otherwise the algorithm name followed by path length, step
/// count, visited-node count and timing, the times in seconds with two
/// decimals at 0.01 seconds per step.
pub open spec fn spec_statistics(
    name: Seq<char>,
    path_length: int,
    steps: int,
    num_visited: int,
) -> Seq<char> {
    if path_length == 0 {
        "Goal is unreachable !"@
    } else {
        " "@ + name + "\n\n Statistics:\n - Path length: "@ + spec_dec(path_length)
            + "\n - Steps taken: "@ + spec_dec(steps) + "\n - Visited nodes: "@ + spec_dec(
            num_visited,
        ) + "\n - Time per iteration: 0.01 sec\n - Total time: "@ + spec_dec(steps / 100) + "."@
            + seq![dec_digit((steps % 100) / 10), dec_digit(steps % 10)] + " sec"@
    }
}

/// Relies on String::push_str: it appends the slice's characters.
#[verifier::external_body]
fn push_str(s: &mut String, piece: &str)
    ensures
        final(s)@ == old(s)@ + piece@,
{
    s.push_str(piece);
}

/// Relies on String::push: it appends one character.
#[verifier::external_body]
fn push_char(s: &mut String, c: char)
    ensures
        final(s)@ == old(s)@.push(c),
{
    s.push(c);
}

/// The character of one decimal digit.
fn digit_char(d: u64) -> (c: char)
    requires
        d < 10,
    ensures
        c == dec_digit(d as int),
{
    if d == 0 {
        '0'
    } else if d == 1 {
        '1'
    } else if d == 2 {
        '2'
    } else if d == 3 {
        '3'
    } else if d == 4 {
        '4'
    } else if d == 5 {
        '5'
    } else if d == 6 {
        '6'
    } else if d == 7 {
        '7'
    } else if d == 8 {
        '8'
    } else {
        '9'
    }
}

/// Spell a number in decimal.
#[verifier::loop_isolation(false)]
fn u64_to_string(n: u64) -> (r: String)
    ensures
        r@ == spec_dec(n as int),
{
    let mut digits: Vec<char> = Vec::new();
    let mut m: u64 = n;
    while m >= 10
        invariant
            spec_dec(n as int) == spec_dec(m as int) + digits@.reverse(),
        decreases m,
    {
        let ghost digits_pre = digits@;
        digits.push(digit_char(m % 10));
        proof {
            assert(digits@.reverse() =~= seq![dec_digit(m as int % 10)] + digits_pre.reverse());
            assert(spec_dec(m as int) + digits_pre.reverse() == spec_dec(m as int / 10) + (seq![
                dec_digit(m as int % 10),
            ] + digits_pre.reverse())) by {
                assert(spec_dec(m as int) == spec_dec(m as int / 10).push(
                    dec_digit(m as int % 10),
                ));
                assert(spec_dec(m as int / 10).push(dec_digit(m as int % 10))
                    + digits_pre.reverse() =~= spec_dec(m as int / 10) + (seq![
                    dec_digit(m as int % 10),
                ] + digits_pre.reverse()));
            }
        }
        m = m / 10;
    }
    let ghost digits_pre = digits@;
    digits.push(digit_char(m));
    proof {
        assert(digits@.reverse() =~= seq![dec_digit(m as int)] + digits_pre.reverse());
        assert(spec_dec(n as int) =~= digits@.reverse());
    }
    let mut r = String::new();
    let mut i: usize = digits.len();
    while i > 0
        invariant
            i <= digits@.len(),
            r@ == digits@.subrange(i as int, digits@.len() as int).reverse(),
        decreases i,
    {
        i = i - 1;
        let ghost r_pre = r@;
        push_char(&mut r, digits[i]);
        proof {
            assert(digits@.subrange(i as int, digits@.len() as int).reverse() =~= r_pre.push(
                digits@[i as int],
            ));
        }
    }
    proof {
        assert(digits@.subrange(0, digits@.len() as int) =~= digits@);
        assert(r@ == digits@.reverse());
    }
    r
}

/// Render the statistics summary of a finished or running search.
pub fn get_statistics(
    algorithm_name: &str,
    path_length: usize,
    steps: u32,
    num_visited_titles: usize,
) -> (r: String)
    ensures
        r@ == spec_statistics(
            algorithm_name@,
            path_length as int,
            steps as int,
            num_visited_titles as int,
        ),
{
    if path_length == 0 {
        return "Goal is unreachable !".to_owned();
    }
    let mut r = String::new();
    push_str(&mut r, " ");
    push_str(&mut r, algorithm_name);
    push_str(&mut r, "\n\n Statistics:\n - Path length: ");
    let length_text = u64_to_string(path_length as u64);
    push_str(&mut r, length_text.as_str());
    push_str(&mut r, "\n - Steps taken: ");
    let steps_text = u64_to_string(steps as u64);
    push_str(&mut r, steps_text.as_str());
    push_str(&mut r, "\n - Visited nodes: ");
    let visited_text = u64_to_string(num_visited_titles as u64);
    push_str(&mut r, visited_text.as_str());
    push_str(&mut r, "\n - Time per iteration: 0.01 sec\n - Total time: ");
    let whole_text = u64_to_string((steps / 100) as u64);
    push_str(&mut r, whole_text.as_str());
    push_str(&mut r, ".");
    push_char(&mut r, digit_char(((steps % 100) / 10) as u64));
    push_char(&mut r, digit_char((steps % 10) as u64));
    push_str(&mut r, " sec");
    proof {
        assert(r@ =~= spec_statistics(
            algorithm_name@,
            path_length as int,
            steps as int,
            num_visited_titles as int,
        ));
    }
    r
}

/// Owns the predecessor map built during traversal and reconstructs the
/// final path from goal back to start.
pub struct Pathfinder {
    pub path: CoordMap<Option<TitleCoords>>,
    pub solution_path: Vec<TitleCoords>,
}

impl Default for Pathfinder {
    fn default() -> (r: Self)
        ensures
            r.path@ == Map::<TitleCoords, Option<TitleCoords>>::empty(),
            r.path.wf(),
            r.path.entries@.len() == 0,
            r.solution_path@ == Seq::<TitleCoords>::empty(),
    {
        Pathfinder { path: CoordMap::new(), solution_path: Vec::new() }
    }
}

impl Pathfinder {
    /// Record that `came_from` was discovered from `to` (`None` marks the
    /// start cell).
    pub fn add_to_path(&mut self, came_from: TitleCoords, to: Option<TitleCoords>)
        requires
            old(self).path.wf(),
        ensures
            final(self).path.wf(),
            final(self).path@ == old(self).path@.insert(came_from, to),
            final(self).solution_path@ == old(self).solution_path@,
    {
        self.path.insert(came_from, to);
    }

    /// Walk the recorded predecessors from `goal` back to `start` and append
    /// the cells passed, goal first and start last, to the solution path.
    pub fn reconstruct_path(&mut self, start: TitleCoords, goal: TitleCoords)
        requires
            old(self).path.wf(),
            connected(old(self).path@, goal, start),
        ensures
            final(self).path == old(self).path,
            final(self).solution_path@.len() > old(self).solution_path@.len(),
            final(self).solution_path@.subrange(0, old(self).solution_path@.len() as int) == old(
                self,
            ).solution_path@,
            valid_chain(
                old(self).path@,
                final(self).solution_path@.skip(old(self).solution_path@.len() as int),
                goal,
                start,
            ),
    {
        let ghost m = self.path@;
        let ghost n0 = old(self).solution_path@.len() as int;
        let ghost mut fuel: nat = choose|f: nat| reaches(m, goal, start, f);
        let mut current = goal;
        proof {
            assert(self.solution_path@.subrange(0, n0) =~= old(self).solution_path@);
            assert(self.solution_path@.skip(n0) =~= Seq::<TitleCoords>::empty());
        }
        while current != start
            invariant
                self.path.wf(),
                self.path == old(self).path,
                self.path@ == m,
                reaches(m, current, start, fuel),
                n0 == old(self).solution_path@.len(),
                self.solution_path@.len() >= n0,
                self.solution_path@.subrange(0, n0) == old(self).solution_path@,
                ({
                    let seg = self.solution_path@.skip(n0);
                    if seg.len() == 0 {
                        current == goal
                    } else {
                        &&& seg[0] == goal
                        &&& seg.last() != start
                        &&& m.contains_key(seg.last())
                        &&& m[seg.last()] == Some(current)
                        &&& forall|i: int|
                            0 <= i < seg.len() - 1 ==> {
                                &&& #[trigger] seg[i] != start
                                &&& m.contains_key(seg[i])
                                &&& m[seg[i]] == Some(seg[i + 1])
                            }
                    }
                }),
            decreases fuel,
        {
            let ghost seg_pre = self.solution_path@.skip(n0);
            self.solution_path.push(current);
            let recorded = self.path.get(current);
            let next = recorded.unwrap().unwrap();
            proof {
                let seg = self.solution_path@.skip(n0);
                assert(seg =~= seg_pre.push(current));
                assert(self.solution_path@.subrange(0, n0) =~= old(self).solution_path@);
                assert(fuel > 0);
                fuel = (fuel - 1) as nat;
            }
            current = next;
        }
        let ghost seg_pre = self.solution_path@.skip(n0);
        self.solution_path.push(current);
        proof {
            let seg = self.solution_path@.skip(n0);
            assert(seg =~= seg_pre.push(current));
            assert(self.solution_path@.subrange(0, n0) =~= old(self).solution_path@);
            assert(valid_chain(m, seg, goal, start));
        }
    }

    pub fn get_path(&self) -> (r: &Vec<TitleCoords>)
        ensures
            r@ == self.solution_path@,
    {
        &self.solution_path
    }
}


/// The four interchangeable search strategies behind one closed dispatch:
/// the variant set is fixed, so a driver can hold any of them in one value.
pub enum Algorithm {
    Bfs(bfs::Bfs),
    Dijkstra(dijkstra::Dijkstra),
    GreedyBfs(greedy_bfs::GreedyBfs),
    AStar(a_star::AStar),
}

impl Algorithm {
    pub open spec fn is_initial(&self) -> bool {
        match self {
            Algorithm::Bfs(a) => a.is_initial(),
            Algorithm::Dijkstra(a) => a.is_initial(),
            Algorithm::GreedyBfs(a) => a.is_initial(),
            Algorithm::AStar(a) => a.is_initial(),
        }
    }

    pub open spec fn inv(&self, grid: Grid) -> bool {
        match self {
            Algorithm::Bfs(a) => a.inv(grid),
            Algorithm::Dijkstra(a) => a.inv(grid),
            Algorithm::GreedyBfs(a) => a.inv(grid),
            Algorithm::AStar(a) => a.inv(grid),
        }
    }

    pub open spec fn spec_steps(&self) -> u32 {
        match self {
            Algorithm::Bfs(a) => a.sim_coordinator.steps,
            Algorithm::Dijkstra(a) => a.sim_coordinator.steps,
            Algorithm::GreedyBfs(a) => a.sim_coordinator.steps,
            Algorithm::AStar(a) => a.sim_coordinator.steps,
        }
    }

    pub open spec fn spec_completed(&self) -> bool {
        match self {
            Algorithm::Bfs(a) => a.sim_coordinator.has_completed,
            Algorithm::Dijkstra(a) => a.sim_coordinator.has_completed,
            Algorithm::GreedyBfs(a) => a.sim_coordinator.has_completed,
            Algorithm::AStar(a) => a.sim_coordinator.has_completed,
        }
    }

    /// The heuristic-keyed variants compute Manhattan distances in `i32`;
    /// the grid extent and the goal must leave them room.
    pub open spec fn heuristic_ok(&self, grid: Grid) -> bool {
        match self {
            Algorithm::Bfs(_) => true,
            Algorithm::Dijkstra(_) => true,
            Algorithm::GreedyBfs(_) => greedy_bfs::GreedyBfs::heuristic_in_range(grid),
            Algorithm::AStar(_) => a_star::AStar::heuristic_in_range(grid),
        }
    }

    pub open spec fn spec_name(&self) -> Seq<char> {
        match self {
            Algorithm::Bfs(_) => "Breadth First Search"@,
            Algorithm::Dijkstra(_) => "Dijkstra"@,
            Algorithm::GreedyBfs(_) => "Greedy Best First Search"@,
            Algorithm::AStar(_) => "A*"@,
        }
    }

    /// The variant is kept and its own `start_post` holds.
    pub open spec fn start_post(
        pre: Algorithm,
        post: Algorithm,
        gpre: Grid,
        gpost: Grid,
        r: Result<(), AlgorithmError>,
    ) -> bool {
        match (pre, post) {
            (Algorithm::Bfs(a), Algorithm::Bfs(b)) => bfs::Bfs::start_post(a, b, gpre, gpost, r),
            (Algorithm::Dijkstra(a), Algorithm::Dijkstra(b)) => dijkstra::Dijkstra::start_post(
                a,
                b,
                gpre,
                gpost,
                r,
            ),
            (Algorithm::GreedyBfs(a), Algorithm::GreedyBfs(b)) => greedy_bfs::GreedyBfs::start_post(
                a,
                b,
                gpre,
                gpost,
                r,
            ),
            (Algorithm::AStar(a), Algorithm::AStar(b)) => a_star::AStar::start_post(
                a,
                b,
                gpre,
                gpost,
                r,
            ),
            _ => false,
        }
    }

    /// The variant is kept and its own `step_post` holds.
    pub open spec fn step_post(
        pre: Algorithm,
        post: Algorithm,
        gpre: Grid,
        gpost: Grid,
        delta_time: u64,
    ) -> bool {
        match (pre, post) {
            (Algorithm::Bfs(a), Algorithm::Bfs(b)) => bfs::Bfs::step_post(
                a,
                b,
                gpre,
                gpost,
                delta_time,
            ),
            (Algorithm::Dijkstra(a), Algorithm::Dijkstra(b)) => dijkstra::Dijkstra::step_post(
                a,
                b,
                gpre,
                gpost,
                delta_time,
            ),
            (Algorithm::GreedyBfs(a), Algorithm::GreedyBfs(b)) => greedy_bfs::GreedyBfs::step_post(
                a,
                b,
                gpre,
                gpost,
                delta_time,
            ),
            (Algorithm::AStar(a), Algorithm::AStar(b)) => a_star::AStar::step_post(
                a,
                b,
                gpre,
                gpost,
                delta_time,
            ),
            _ => false,
        }
    }

    /// The variant is kept, it returns to its initial state, and the grid
    /// is cleared.
    pub open spec fn reset_post(pre: Algorithm, post: Algorithm, gpre: Grid, gpost: Grid) -> bool {
        match (pre, post) {
            (Algorithm::Bfs(_), Algorithm::Bfs(b)) => bfs::Bfs::reset_post(b, gpre, gpost),
            (Algorithm::Dijkstra(_), Algorithm::Dijkstra(b)) => dijkstra::Dijkstra::reset_post(
                b,
                gpre,
                gpost,
            ),
            (Algorithm::GreedyBfs(_), Algorithm::GreedyBfs(b)) => greedy_bfs::GreedyBfs::reset_post(
                b,
                gpre,
                gpost,
            ),
            (Algorithm::AStar(_), Algorithm::AStar(b)) => a_star::AStar::reset_post(
                b,
                gpre,
                gpost,
            ),
            _ => false,
        }
    }

    pub fn start(&mut self, grid: &mut Grid) -> (r: Result<(), AlgorithmError>)
        requires
            old(self).is_initial(),
            old(grid).wf(),
        ensures
            final(grid).wf(),
            final(self).inv(*final(grid)),
            Self::start_post(*old(self), *final(self), *old(grid), *final(grid), r),
    {
        match self {
            Algorithm::Bfs(a) => a.start(grid),
            Algorithm::Dijkstra(a) => a.start(grid),
            Algorithm::GreedyBfs(a) => a.start(grid),
            Algorithm::AStar(a) => a.start(grid),
        }
    }

    pub fn execute_step(&mut self, grid: &mut Grid, delta_time: u64)
        requires
            old(grid).wf(),
            old(self).inv(*old(grid)),
            old(self).spec_steps() < u32::MAX,
            old(self).heuristic_ok(*old(grid)),
        ensures
            final(grid).wf(),
            final(self).inv(*final(grid)),
            Self::step_post(*old(self), *final(self), *old(grid), *final(grid), delta_time),
    {
        match self {
            Algorithm::Bfs(a) => a.execute_step(grid, delta_time),
            Algorithm::Dijkstra(a) => a.execute_step(grid, delta_time),
            Algorithm::GreedyBfs(a) => a.execute_step(grid, delta_time),
            Algorithm::AStar(a) => a.execute_step(grid, delta_time),
        }
    }

    pub fn reset(&mut self, grid: &mut Grid)
        ensures
            Self::reset_post(*old(self), *final(self), *old(grid), *final(grid)),
            final(self).inv(*final(grid)),
            old(grid).wf() ==> final(grid).wf(),
    {
        match self {
            Algorithm::Bfs(a) => a.reset(grid),
            Algorithm::Dijkstra(a) => a.reset(grid),
            Algorithm::GreedyBfs(a) => a.reset(grid),
            Algorithm::AStar(a) => a.reset(grid),
        }
    }

    pub fn has_completed(&self) -> (r: bool)
        ensures
            r == self.spec_completed(),
    {
        match self {
            Algorithm::Bfs(a) => a.has_completed(),
            Algorithm::Dijkstra(a) => a.has_completed(),
            Algorithm::GreedyBfs(a) => a.has_completed(),
            Algorithm::AStar(a) => a.has_completed(),
        }
    }

    pub fn name(&self) -> (r: String)
        ensures
            r@ == self.spec_name(),
    {
        match self {
            Algorithm::Bfs(a) => a.name(),
            Algorithm::Dijkstra(a) => a.name(),
            Algorithm::GreedyBfs(a) => a.name(),
            Algorithm::AStar(a) => a.name(),
        }
    }
}

impl Measurable for Algorithm {
    open spec fn spec_statistics_of(&self) -> Seq<char> {
        match self {
            Algorithm::Bfs(a) => a.spec_statistics_of(),
            Algorithm::Dijkstra(a) => a.spec_statistics_of(),
            Algorithm::GreedyBfs(a) => a.spec_statistics_of(),
            Algorithm::AStar(a) => a.spec_statistics_of(),
        }
    }

    fn output_statistics(&self) -> (r: String) {
        match self {
            Algorithm::Bfs(a) => a.output_statistics(),
            Algorithm::Dijkstra(a) => a.output_statistics(),
            Algorithm::GreedyBfs(a) => a.output_statistics(),
            Algorithm::AStar(a) => a.output_statistics(),
        }
    }
}

} // verus!
