//! Integer grid coordinates and sets of occupied cells.
use vstd::prelude::*;

verus! {

/// One cell of a level's integer grid.
#[derive(Clone, Copy, Debug, PartialEq, Eq, Structural, Hash, Default)]
pub struct GridCoords {
    pub x: i32,
    pub y: i32,
}

impl View for GridCoords {
    type V = (int, int);

    open spec fn view(&self) -> (int, int) {
        (self.x as int, self.y as int)
    }
}

impl GridCoords {
    pub fn new(x: i32, y: i32) -> (r: GridCoords)
        ensures
            r.x == x,
            r.y == y,
    {
        GridCoords { x, y }
    }
}

/// The occupied cells of one level, each held once.
pub struct OccupancySet {
    cells: Vec<GridCoords>,
}

impl View for OccupancySet {
    type V = Set<(int, int)>;

    open spec fn view(&self) -> Set<(int, int)> {
        Set::new(|p: (int, int)| exists|i: int| 0 <= i < self.size() && (#[trigger] self.cell(i))@ == p)
    }
}

impl OccupancySet {
    /// The cells are pairwise distinct.
    pub closed spec fn wf(&self) -> bool {
        forall|i: int, j: int|
            0 <= i < self.cells@.len() && 0 <= j < self.cells@.len() && i != j
                ==> self.cells@[i] != self.cells@[j]
    }

    /// Two cells at different positions differ.
    pub proof fn lemma_distinct(&self, i: int, j: int)
        requires
            self.wf(),
            0 <= i < self.size(),
            0 <= j < self.size(),
            i != j,
        ensures
            self.cell(i)@ != self.cell(j)@,
    {
    }

    /// How many cells are held.
    pub closed spec fn size(&self) -> nat {
        self.cells@.len()
    }

    /// The `i`-th cell, in order of insertion.
    pub closed spec fn cell(&self, i: int) -> GridCoords {
        self.cells@[i]
    }

    pub fn new() -> (r: OccupancySet)
        ensures
            r.wf(),
            r@ == Set::<(int, int)>::empty(),
    {
        let r = OccupancySet { cells: Vec::new() };
        assert(r@ =~= Set::<(int, int)>::empty());
        r
    }

    /// Number of occupied cells.
    pub fn len(&self) -> (r: usize)
        requires
            self.wf(),
        ensures
            r == self.size(),
            r == self@.len(),
    {
        proof { self.lemma_len(); }
        self.cells.len()
    }

    /// The `i`-th cell, in order of insertion.
    pub fn get(&self, i: usize) -> (r: GridCoords)
        requires
            i < self.size(),
        ensures
            r == self.cell(i as int),
    {
        self.cells[i]
    }

    /// The distinct cells are as many as the stored ones.
    pub proof fn lemma_len(&self)
        requires
            self.wf(),
        ensures
            self@.finite(),
            self@.len() == self.size(),
    {
        let s = self.cells@.map_values(|c: GridCoords| c@);
        assert forall|i: int, j: int| 0 <= i < s.len() && 0 <= j < s.len() && i != j
            implies s[i] != s[j] by {
            assert(self.cells@[i] != self.cells@[j]);
        }
        assert(s.no_duplicates());
        s.unique_seq_to_set();
        assert(self@ =~= s.to_set()) by {
            assert forall|p: (int, int)| self@.contains(p) implies s.to_set().contains(p) by {
                let i = choose|i: int| 0 <= i < self.size() && (#[trigger] self.cell(i))@ == p;
                assert(s[i] == p);
            }
            assert forall|p: (int, int)| s.to_set().contains(p) implies self@.contains(p) by {
                let i = choose|i: int| 0 <= i < s.len() && s[i] == p;
                assert(self.cell(i)@ == p);
            }
        }
    }

    /// Whether cell `c` is occupied.
    pub fn contains(&self, c: GridCoords) -> (r: bool)
        ensures
            r == self@.contains(c@),
    {
        let mut i: usize = 0;
        while i < self.cells.len()
            invariant
                i <= self.cells@.len(),
                forall|k: int| 0 <= k < i ==> self.cells@[k]@ != c@,
            decreases self.cells@.len() - i,
        {
            if self.cells[i].x == c.x && self.cells[i].y == c.y {
                assert(self.cell(i as int)@ == c@);
                return true;
            }
            i = i + 1;
        }
        assert(!self@.contains(c@)) by {
            if self@.contains(c@) {
                let k = choose|k: int| 0 <= k < self.size() && (#[trigger] self.cell(k))@ == c@;
                assert(self.cells@[k]@ != c@);
            }
        }
        false
    }

    /// Adds cell `c`; returns whether it was not there before.
    pub fn insert(&mut self, c: GridCoords) -> (r: bool)
        requires
            old(self).wf(),
        ensures
            final(self).wf(),
            final(self)@ == old(self)@.insert(c@),
            r == !old(self)@.contains(c@),
    {
        if self.contains(c) {
            assert(self@.insert(c@) =~= self@);
            false
        } else {
            let ghost o = *self;
            let ghost before = self@;
            self.cells.push(c);
            assert forall|i: int| 0 <= i < o.size() implies self.cell(i) == o.cell(i) by {}
            assert forall|i: int, j: int|
                0 <= i < self.cells@.len() && 0 <= j < self.cells@.len() && i != j
                    implies self.cells@[i] != self.cells@[j] by {
                if i == self.cells@.len() - 1 {
                    assert(before.contains(o.cell(j)@));
                } else if j == self.cells@.len() - 1 {
                    assert(before.contains(o.cell(i)@));
                }
            }
            assert forall|p: (int, int)| self@.contains(p) <==> before.insert(c@).contains(p) by {
                if self@.contains(p) && p != c@ {
                    let i = choose|i: int| 0 <= i < self.size() && (#[trigger] self.cell(i))@ == p;
                    assert(i < self.size() - 1);
                    assert(o.cell(i)@ == p);
                }
                if before.insert(c@).contains(p) {
                    if p == c@ {
                        assert(self.cell(self.size() - 1)@ == p);
                    } else {
                        let i = choose|i: int| 0 <= i < o.size() && (#[trigger] o.cell(i))@ == p;
                        assert(self.cell(i)@ == p);
                    }
                }
            }
            assert(self@ =~= before.insert(c@));
            true
        }
    }

    /// The smallest box that holds every occupied cell, as its lowest and its
    /// highest corner; `None` when no cell is occupied.
    pub fn bounds(&self) -> (r: Option<(GridCoords, GridCoords)>)
        ensures
            r is None <==> self@ == Set::<(int, int)>::empty(),
            r matches Some((lo, hi)) ==> {
                &&& forall|p: (int, int)| #[trigger] self@.contains(p)
                    ==> lo.x <= p.0 <= hi.x && lo.y <= p.1 <= hi.y
                &&& exists|p: (int, int)| #[trigger] self@.contains(p) && p.0 == lo.x
                &&& exists|p: (int, int)| #[trigger] self@.contains(p) && p.0 == hi.x
                &&& exists|p: (int, int)| #[trigger] self@.contains(p) && p.1 == lo.y
                &&& exists|p: (int, int)| #[trigger] self@.contains(p) && p.1 == hi.y
            },
    {
        if self.cells.len() == 0 {
            assert(self@ =~= Set::<(int, int)>::empty());
            return None;
        }
        let mut lo = self.cells[0];
        let mut hi = self.cells[0];
        let ghost mut ix: int = 0;
        let ghost mut iy: int = 0;
        let ghost mut ax: int = 0;
        let ghost mut ay: int = 0;
        let mut i: usize = 1;
        while i < self.cells.len()
            invariant
                1 <= i <= self.cells@.len(),
                forall|k: int| 0 <= k < i ==> lo.x <= (#[trigger] self.cell(k)).x <= hi.x
                    && lo.y <= self.cell(k).y <= hi.y,
                0 <= ix < i && self.cell(ix).x == lo.x,
                0 <= iy < i && self.cell(iy).y == lo.y,
                0 <= ax < i && self.cell(ax).x == hi.x,
                0 <= ay < i && self.cell(ay).y == hi.y,
            decreases self.cells@.len() - i,
        {
            let c = self.cells[i];
            if c.x < lo.x {
                lo.x = c.x;
                proof { ix = i as int; }
            }
            if c.x > hi.x {
                hi.x = c.x;
                proof { ax = i as int; }
            }
            if c.y < lo.y {
                lo.y = c.y;
                proof { iy = i as int; }
            }
            if c.y > hi.y {
                hi.y = c.y;
                proof { ay = i as int; }
            }
            i = i + 1;
        }
        assert(self@.contains(self.cell(0)@));
        assert(self@.contains(self.cell(ix)@));
        assert(self@.contains(self.cell(iy)@));
        assert(self@.contains(self.cell(ax)@));
        assert(self@.contains(self.cell(ay)@));
        Some((lo, hi))
    }

    /// The set of the given cells; a cell listed twice is held once.
    pub fn from_cells(cells: &Vec<GridCoords>) -> (r: OccupancySet)
        ensures
            r.wf(),
            r@ == cells@.map_values(|c: GridCoords| c@).to_set(),
    {
        let mut r = OccupancySet::new();
        let mut i: usize = 0;
        while i < cells.len()
            invariant
                i <= cells@.len(),
                r.wf(),
                r@ == cells@.subrange(0, i as int).map_values(|c: GridCoords| c@).to_set(),
            decreases cells@.len() - i,
        {
            let ghost before = r@;
            r.insert(cells[i]);
            assert(r@ =~= cells@.subrange(0, i + 1).map_values(|c: GridCoords| c@).to_set()) by {
                let s0 = cells@.subrange(0, i as int).map_values(|c: GridCoords| c@);
                let s1 = cells@.subrange(0, i + 1).map_values(|c: GridCoords| c@);
                assert(s1 == s0.push(cells@[i as int]@));
                assert forall|p: (int, int)| s1.contains(p) implies r@.contains(p) by {
                    let k = choose|k: int| 0 <= k < s1.len() && s1[k] == p;
                    if k < i {
                        assert(s0[k] == p);
                        assert(before.contains(p));
                    }
                }
                assert forall|p: (int, int)| r@.contains(p) implies s1.contains(p) by {
                    if p != cells@[i as int]@ {
                        assert(before.contains(p));
                        let k = choose|k: int| 0 <= k < s0.len() && s0[k] == p;
                        assert(s1[k] == p);
                    } else {
                        assert(s1[i as int] == p);
                    }
                }
            }
            i = i + 1;
        }
        assert(cells@.subrange(0, cells@.len() as int) == cells@);
        r
    }
}

} // verus!
