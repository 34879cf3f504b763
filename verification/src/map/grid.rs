use crate::map::{Title, TitleCoords};
use vstd::prelude::*;

verus! {

/// # Grid
/// Grid of titles used for path-finding algorithms.
///
/// `titles` is stored column-major: `titles[x][y]` is the title at
/// coordinate `(x, y)`, so the outer vector has `columns` entries and
/// each inner vector has `rows` entries.
pub struct Grid {
    pub rows: u32,
    pub columns: u32,
    pub title_size: u32,
    pub offset: (u32, u32),
    pub titles: Vec<Vec<Title>>,
    pub start_title: Option<TitleCoords>,
    pub goal_title: Option<TitleCoords>,
}

impl Grid {
    /// Well-formedness: the title storage matches the advertised extent.
    pub open spec fn wf(&self) -> bool {
        &&& self.titles@.len() == self.columns as int
        &&& forall|i: int|
            0 <= i < self.titles@.len() ==> (#[trigger] self.titles@[i])@.len()
                == self.rows as int
    }

    /// The title stored at coordinate `c` (meaningful only in bounds).
    pub open spec fn tile_at(&self, c: TitleCoords) -> Title {
        self.titles@[c.x as int]@[c.y as int]
    }

    /// Whether `c` lies inside the grid extent.
    pub open spec fn spec_in_bounds(&self, c: TitleCoords) -> bool {
        (c.x as int) < (self.columns as int) && (c.y as int) < (self.rows as int)
    }

    /// Whether the title at `c` carries the Start or the End designation.
    pub open spec fn spec_is_start_or_end(&self, c: TitleCoords) -> bool {
        self.tile_at(c) == Title::Start || self.tile_at(c) == Title::End
    }

    /// A cell an algorithm may walk onto: in bounds and not an obstacle.
    pub open spec fn spec_traversable(&self, c: TitleCoords) -> bool {
        self.spec_in_bounds(c) && self.tile_at(c) != Title::Obstacle
    }

    /// The up-to-4 orthogonal neighbors of `c` that are in bounds and not
    /// obstacles, in the fixed expansion order up, down, left, right.
    pub open spec fn spec_neighbors(&self, c: TitleCoords) -> Seq<TitleCoords> {
        let up = (TitleCoords { x: c.x, y: (c.y - 1) as usize });
        let down = (TitleCoords { x: c.x, y: (c.y + 1) as usize });
        let left = (TitleCoords { x: (c.x - 1) as usize, y: c.y });
        let right = (TitleCoords { x: (c.x + 1) as usize, y: c.y });
        (if c.y > 0 && self.spec_traversable(up) {
            seq![up]
        } else {
            Seq::<TitleCoords>::empty()
        }) + (if c.y < usize::MAX && self.spec_traversable(down) {
            seq![down]
        } else {
            Seq::<TitleCoords>::empty()
        }) + (if c.x > 0 && self.spec_traversable(left) {
            seq![left]
        } else {
            Seq::<TitleCoords>::empty()
        }) + (if c.x < usize::MAX && self.spec_traversable(right) {
            seq![right]
        } else {
            Seq::<TitleCoords>::empty()
        })
    }

    /// The grid dimensions and placement are the same in `self` and `other`.
    pub open spec fn same_dimensions(self, other: Grid) -> bool {
        &&& self.rows == other.rows
        &&& self.columns == other.columns
        &&& self.title_size == other.title_size
        &&& self.offset == other.offset
    }

    /// Every stored title of `self` equals the one of `other`.
    pub open spec fn same_titles(self, other: Grid) -> bool {
        &&& self.titles@.len() == other.titles@.len()
        &&& forall|i: int|
            0 <= i < self.titles@.len() ==> (#[trigger] self.titles@[i])@ == other.titles@[i]@
    }

    /// The grid is observably identical to `other`.
    pub open spec fn unchanged_from(self, other: Grid) -> bool {
        &&& self.same_dimensions(other)
        &&& self.same_titles(other)
        &&& self.start_title == other.start_title
        &&& self.goal_title == other.goal_title
    }

    /// # new
    /// Create a new grid with dim(width x height) with offset(x,y) and title size.
    pub fn new(x: u32, y: u32, width: u32, height: u32, title_size: u32) -> (grid: Self)
        requires
            title_size > 0,
        ensures
            grid.wf(),
            grid.columns == width / title_size,
            grid.rows == height / title_size,
            grid.title_size == title_size,
            grid.offset == (x, y),
            grid.start_title is None,
            grid.goal_title is None,
            forall|c: TitleCoords|
                grid.spec_in_bounds(c) ==> grid.tile_at(c) == (Title::Normal {
                    was_visited: false,
                }),
    {
        let columns = width / title_size;
        let rows = height / title_size;
        let mut titles: Vec<Vec<Title>> = Vec::new();

        let mut i: u32 = 0;
        while i < columns
            invariant
                i <= columns,
                titles@.len() == i as int,
                forall|k: int|
                    0 <= k < i as int ==> (#[trigger] titles@[k])@.len() == rows as int,
                forall|k: int, j: int|
                    0 <= k < i as int && 0 <= j < rows as int ==> #[trigger] titles@[k]@[j]
                        == (Title::Normal { was_visited: false }),
            decreases columns - i,
        {
            let mut column_titles: Vec<Title> = Vec::new();
            let mut j: u32 = 0;
            while j < rows
                invariant
                    j <= rows,
                    column_titles@.len() == j as int,
                    forall|k: int|
                        0 <= k < j as int ==> column_titles@[k] == (Title::Normal {
                            was_visited: false,
                        }),
                decreases rows - j,
            {
                column_titles.push(Title::Normal { was_visited: false });
                j = j + 1;
            }
            titles.push(column_titles);
            i = i + 1;
        }

        Self {
            rows,
            columns,
            title_size,
            offset: (x, y),
            titles,
            start_title: None,
            goal_title: None,
        }
    }

    /// # set_designation
    /// Designate a title as Start, End or Obstacle. Only a title that still
    /// holds the default (unvisited, undesignated) state accepts a new role;
    /// any other request, and any out-of-bounds coordinate, is ignored.
    pub fn set_designation(&mut self, title_coords: TitleCoords, title: Title)
        requires
            old(self).wf(),
            title is Start || title is End || title is Obstacle,
        ensures
            final(self).wf(),
            final(self).same_dimensions(*old(self)),
            if old(self).spec_in_bounds(title_coords) && old(self).tile_at(title_coords)
                == (Title::Normal { was_visited: false }) {
                &&& forall|d: TitleCoords|
                    old(self).spec_in_bounds(d) ==> final(self).tile_at(d) == (if d
                        == title_coords {
                        title
                    } else {
                        old(self).tile_at(d)
                    })
                &&& final(self).titles@.len() == old(self).titles@.len()
                &&& final(self).start_title == (if title is Start {
                    Some(title_coords)
                } else {
                    old(self).start_title
                })
                &&& final(self).goal_title == (if title is End {
                    Some(title_coords)
                } else {
                    old(self).goal_title
                })
            } else {
                final(self).unchanged_from(*old(self))
            },
    {
        if !self.is_within_bounds(title_coords) {
            return ;
        }
        if self.is_not_set(title_coords) {
            match title {
                Title::Start => self.start_title = Some(title_coords),
                Title::End => self.goal_title = Some(title_coords),
                _ => {},
            }
            self.titles[title_coords.x][title_coords.y] = title;
        }
    }

    /// # get_neighbors
    /// Get title neighbors for current title, in the fixed order
    /// up, down, left, right.
    pub fn get_neighbors(&mut self, current_coord: TitleCoords) -> (neighbors: Vec<TitleCoords>)
        requires
            old(self).wf(),
        ensures
            *final(self) == *old(self),
            neighbors@ == old(self).spec_neighbors(current_coord),
    {
        let mut neighbors: Vec<TitleCoords> = Vec::new();

        if current_coord.y > 0 {
            let n = TitleCoords { x: current_coord.x, y: current_coord.y - 1 };
            if self.is_within_bounds(n) && !self.is_obstacle(n) {
                neighbors.push(n);
            }
        }
        if current_coord.y < usize::MAX {
            let n = TitleCoords { x: current_coord.x, y: current_coord.y + 1 };
            if self.is_within_bounds(n) && !self.is_obstacle(n) {
                neighbors.push(n);
            }
        }
        if current_coord.x > 0 {
            let n = TitleCoords { x: current_coord.x - 1, y: current_coord.y };
            if self.is_within_bounds(n) && !self.is_obstacle(n) {
                neighbors.push(n);
            }
        }
        if current_coord.x < usize::MAX {
            let n = TitleCoords { x: current_coord.x + 1, y: current_coord.y };
            if self.is_within_bounds(n) && !self.is_obstacle(n) {
                neighbors.push(n);
            }
        }
        proof {
            assert(neighbors@ =~= self.spec_neighbors(current_coord));
        }
        neighbors
    }

    /// # cost
    /// The movement cost - Is 1 for normal grid.
    pub fn cost(&self, _current: TitleCoords, _next: TitleCoords) -> (r: i32)
        ensures
            r == 1,
    {
        1
    }

    /// # heuristic
    /// Manhattan distance on a square grid.
    pub fn heuristic(&self, current: TitleCoords, next: TitleCoords) -> (r: i32)
        requires
            current.x <= i32::MAX as usize,
            current.y <= i32::MAX as usize,
            next.x <= i32::MAX as usize,
            next.y <= i32::MAX as usize,
            current.manhattan(next) <= i32::MAX as int,
        ensures
            r == current.manhattan(next),
    {
        let x_distance: i32 = (next.x as i32) - (current.x as i32);
        let y_distance: i32 = (next.y as i32) - (current.y as i32);
        let x_abs: i32 = if x_distance < 0 {
            -x_distance
        } else {
            x_distance
        };
        let y_abs: i32 = if y_distance < 0 {
            -y_distance
        } else {
            y_distance
        };
        x_abs + y_abs
    }

    /// # is_within_bounds
    /// Check if coordinate of title is in the grid.
    pub fn is_within_bounds(&self, title_coords: TitleCoords) -> (r: bool)
        ensures
            r == self.spec_in_bounds(title_coords),
    {
        title_coords.x < self.columns as usize && title_coords.y < self.rows as usize
    }

    /// # mark_visited
    /// Mark title visited. A no-op out of bounds and on Start/End titles.
    pub fn mark_visited(&mut self, title_coords: TitleCoords)
        requires
            old(self).wf(),
        ensures
            final(self).wf(),
            final(self).same_dimensions(*old(self)),
            final(self).titles@.len() == old(self).titles@.len(),
            final(self).start_title == old(self).start_title,
            final(self).goal_title == old(self).goal_title,
            forall|d: TitleCoords|
                old(self).spec_in_bounds(d) ==> final(self).tile_at(d) == (if d == title_coords
                    && old(self).spec_in_bounds(title_coords) && !old(self).spec_is_start_or_end(
                    title_coords,
                ) {
                    (Title::Normal { was_visited: true })
                } else {
                    old(self).tile_at(d)
                }),
    {
        if !self.is_within_bounds(title_coords) || self.is_title_start_or_end(title_coords) {
            return ;
        }
        self.titles[title_coords.x][title_coords.y] = Title::Normal { was_visited: true };
    }

    /// # mark_process
    /// Mark title in processing state. A no-op out of bounds and on
    /// Start/End titles.
    pub fn mark_process(&mut self, title_coords: TitleCoords)
        requires
            old(self).wf(),
        ensures
            final(self).wf(),
            final(self).same_dimensions(*old(self)),
            final(self).titles@.len() == old(self).titles@.len(),
            final(self).start_title == old(self).start_title,
            final(self).goal_title == old(self).goal_title,
            forall|d: TitleCoords|
                old(self).spec_in_bounds(d) ==> final(self).tile_at(d) == (if d == title_coords
                    && old(self).spec_in_bounds(title_coords) && !old(self).spec_is_start_or_end(
                    title_coords,
                ) {
                    Title::Process
                } else {
                    old(self).tile_at(d)
                }),
    {
        if !self.is_within_bounds(title_coords) || self.is_title_start_or_end(title_coords) {
            return ;
        }
        self.titles[title_coords.x][title_coords.y] = Title::Process;
    }

    /// # set_trace_back_path
    /// Set title to be a title path. Only a previously visited title is
    /// overwritten; everything else is left as it is.
    pub fn set_trace_back_path(&mut self, title_coords: TitleCoords)
        requires
            old(self).wf(),
        ensures
            final(self).wf(),
            final(self).same_dimensions(*old(self)),
            final(self).titles@.len() == old(self).titles@.len(),
            final(self).start_title == old(self).start_title,
            final(self).goal_title == old(self).goal_title,
            forall|d: TitleCoords|
                old(self).spec_in_bounds(d) ==> final(self).tile_at(d) == (if d == title_coords
                    && old(self).spec_in_bounds(title_coords) && old(self).tile_at(title_coords)
                    == (Title::Normal { was_visited: true }) {
                    Title::Path
                } else {
                    old(self).tile_at(d)
                }),
    {
        if self.is_within_bounds(title_coords) {
            if self.titles[title_coords.x][title_coords.y] == (Title::Normal {
                was_visited: true,
            }) {
                self.titles[title_coords.x][title_coords.y] = Title::Path;
            }
        }
    }

    /// # is_obstacle
    /// Is current title an obstacle. Out-of-bounds coordinates count as
    /// obstacles, so callers never need a separate bounds check.
    pub fn is_obstacle(&self, title_coords: TitleCoords) -> (r: bool)
        requires
            self.wf(),
        ensures
            r == !self.spec_traversable(title_coords),
    {
        if !self.is_within_bounds(title_coords) {
            return true;
        }
        self.titles[title_coords.x][title_coords.y] == Title::Obstacle
    }

    /// # reset
    /// Clear grid: every title back to the default state, and the Start and
    /// End designations dropped.
    pub fn reset(&mut self)
        ensures
            final(self).same_dimensions(*old(self)),
            final(self).start_title is None,
            final(self).goal_title is None,
            final(self).titles@.len() == old(self).titles@.len(),
            forall|i: int|
                0 <= i < final(self).titles@.len() ==> (#[trigger] final(self).titles@[i])@.len()
                    == old(self).titles@[i]@.len(),
            forall|i: int, j: int|
                0 <= i < final(self).titles@.len() && 0 <= j < final(self).titles@[i]@.len()
                    ==> (#[trigger] final(self).titles@[i]@[j]) == (Title::Normal {
                    was_visited: false,
                }),
            old(self).wf() ==> final(self).wf(),
    {
        let mut i: usize = 0;
        while i < self.titles.len()
            invariant
                i <= self.titles@.len(),
                self.titles@.len() == old(self).titles@.len(),
                self.rows == old(self).rows,
                self.columns == old(self).columns,
                self.title_size == old(self).title_size,
                self.offset == old(self).offset,
                self.start_title == old(self).start_title,
                self.goal_title == old(self).goal_title,
                forall|k: int|
                    0 <= k < self.titles@.len() ==> (#[trigger] self.titles@[k])@.len()
                        == old(self).titles@[k]@.len(),
                forall|k: int, j: int|
                    0 <= k < i as int && 0 <= j < self.titles@[k]@.len() ==> (
                    #[trigger] self.titles@[k]@[j]) == (Title::Normal { was_visited: false }),
            decreases self.titles@.len() - i,
        {
            let mut j: usize = 0;
            while j < self.titles[i].len()
                invariant
                    i < self.titles@.len(),
                    j <= self.titles@[i as int]@.len(),
                    self.titles@.len() == old(self).titles@.len(),
                    self.rows == old(self).rows,
                    self.columns == old(self).columns,
                    self.title_size == old(self).title_size,
                    self.offset == old(self).offset,
                    self.start_title == old(self).start_title,
                    self.goal_title == old(self).goal_title,
                    forall|k: int|
                        0 <= k < self.titles@.len() ==> (#[trigger] self.titles@[k])@.len()
                            == old(self).titles@[k]@.len(),
                    forall|k: int, l: int|
                        0 <= k < i as int && 0 <= l < self.titles@[k]@.len() ==> (
                        #[trigger] self.titles@[k]@[l]) == (Title::Normal { was_visited: false }),
                    forall|l: int|
                        0 <= l < j as int ==> (#[trigger] self.titles@[i as int]@[l])
                            == (Title::Normal { was_visited: false }),
                decreases self.titles@[i as int]@.len() - j,
            {
                self.titles[i][j] = Title::Normal { was_visited: false };
                j = j + 1;
            }
            i = i + 1;
        }
        self.start_title = None;
        self.goal_title = None;
    }

    /// # is_title_start_or_end
    /// Whether the title at `title_coords` carries the Start or End
    /// designation.
    pub fn is_title_start_or_end(&self, title_coords: TitleCoords) -> (r: bool)
        requires
            self.wf(),
            self.spec_in_bounds(title_coords),
        ensures
            r == self.spec_is_start_or_end(title_coords),
    {
        if self.titles[title_coords.x][title_coords.y] == Title::Start
            || self.titles[title_coords.x][title_coords.y] == Title::End {
            return true;
        }
        false
    }

    /// # is_not_set
    /// Whether the title at `title_coords` still holds the default state.
    pub fn is_not_set(&self, title_coords: TitleCoords) -> (r: bool)
        requires
            self.wf(),
            self.spec_in_bounds(title_coords),
        ensures
            r == (self.tile_at(title_coords) == (Title::Normal { was_visited: false })),
    {
        if self.titles[title_coords.x][title_coords.y] == (Title::Normal {
            was_visited: false,
        }) {
            return true;
        }
        false
    }
}

/// Every neighbor the grid reports is in bounds, traversable, adjacent to
/// the expanded cell (Manhattan distance exactly 1), different from it, and
/// reported only once.
pub proof fn lemma_neighbors_sound(g: Grid, c: TitleCoords)
    ensures
        forall|i: int|
            0 <= i < g.spec_neighbors(c).len() ==> {
                &&& g.spec_traversable(#[trigger] g.spec_neighbors(c)[i])
                &&& g.spec_neighbors(c)[i].manhattan(c) == 1
                &&& g.spec_neighbors(c)[i] != c
            },
        g.spec_neighbors(c).no_duplicates(),
{
    let s = g.spec_neighbors(c);
    let up = (TitleCoords { x: c.x, y: (c.y - 1) as usize });
    let down = (TitleCoords { x: c.x, y: (c.y + 1) as usize });
    let left = (TitleCoords { x: (c.x - 1) as usize, y: c.y });
    let right = (TitleCoords { x: (c.x + 1) as usize, y: c.y });
    assert forall|i: int| 0 <= i < s.len() implies {
        &&& g.spec_traversable(#[trigger] s[i])
        &&& s[i].manhattan(c) == 1
        &&& s[i] != c
    } by {
        assert(s[i] == up || s[i] == down || s[i] == left || s[i] == right);
    }
    assert(s.no_duplicates()) by {
        assert forall|i: int, j: int| 0 <= i < s.len() && 0 <= j < s.len() && i != j implies s[i]
            != s[j] by {
            assert(s[i] == up || s[i] == down || s[i] == left || s[i] == right);
        }
    }
}

} // verus!
