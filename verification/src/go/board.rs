//! The Go board: a sparse mapping from occupied points to stones.

use vstd::prelude::*;

verus! {

/// A point on the Go board, with 0-based coordinates.
#[derive(Debug, Clone, Copy, PartialEq, Eq, Structural, Hash)]
pub struct Point {
    pub x: usize,
    pub y: usize,
}

/// The two players' stones.
#[derive(Debug, Clone, Copy, PartialEq, Eq, Structural)]
pub enum Stone {
    Black,
    White,
}

impl Point {
    /// Creates a new point with 0-based coordinates.
    pub fn new(x: usize, y: usize) -> (p: Self)
        ensures
            p == (Point { x, y }),
    {
        Self { x, y }
    }
}

/// The mapping described by an association list: each entry, in order,
/// binds its point to its stone (a later entry for the same point wins).
pub open spec fn assoc_map(s: Seq<(Point, Stone)>) -> Map<Point, Stone>
    decreases s.len(),
{
    if s.len() == 0 {
        Map::empty()
    } else {
        assoc_map(s.drop_last()).insert(s.last().0, s.last().1)
    }
}

/// With pairwise-distinct points, the association list and its mapping
/// hold exactly the same bindings.
pub proof fn lemma_assoc_map_unique(s: Seq<(Point, Stone)>)
    requires
        forall|i: int, j: int| 0 <= i < j < s.len() ==> (#[trigger] s[i]).0 != (#[trigger] s[j]).0,
    ensures
        forall|p: Point|
            assoc_map(s).dom().contains(p) <==> exists|i: int|
                0 <= i < s.len() && (#[trigger] s[i]).0 == p,
        forall|i: int|
            0 <= i < s.len() ==> assoc_map(s)[(#[trigger] s[i]).0] == s[i].1,
    decreases s.len(),
{
    if s.len() > 0 {
        let sub = s.drop_last();
        lemma_assoc_map_unique(sub);
        assert forall|i: int| 0 <= i < s.len() implies assoc_map(s)[(#[trigger] s[i]).0]
            == s[i].1 by {
            if i < s.len() - 1 {
                assert(sub[i] == s[i]);
                assert(s[i].0 != s.last().0);
                assert(assoc_map(sub)[(sub[i]).0] == sub[i].1);
            }
        }
        assert forall|p: Point|
            assoc_map(s).dom().contains(p) implies exists|i: int|
                0 <= i < s.len() && (#[trigger] s[i]).0 == p by {
            if p == s.last().0 {
                assert((s[s.len() - 1]).0 == p);
            } else {
                assert(assoc_map(sub).dom().contains(p));
                let i = choose|i: int| 0 <= i < sub.len() && (#[trigger] sub[i]).0 == p;
                assert((s[i]).0 == p);
            }
        }
        assert forall|p: Point|
            (exists|i: int| 0 <= i < s.len() && (#[trigger] s[i]).0 == p) implies assoc_map(
            s,
        ).dom().contains(p) by {
            let i = choose|i: int| 0 <= i < s.len() && (#[trigger] s[i]).0 == p;
            if i < s.len() - 1 {
                assert((sub[i]).0 == p);
                assert(assoc_map(sub).dom().contains(p));
            }
        }
    }
}

/// The Go board state: its size, and the stones standing on it.
#[derive(Debug, Clone)]
pub struct Board {
    pub size: usize,
    grid: Vec<(Point, Stone)>,
}

impl Board {
    /// Each occupied point appears at most once in the grid.
    pub closed spec fn wf(self) -> bool {
        forall|i: int, j: int|
            0 <= i < j < self.grid@.len() ==> (#[trigger] self.grid@[i]).0 != (
            #[trigger] self.grid@[j]).0
    }

    /// The board's size.
    pub closed spec fn spec_size(self) -> usize {
        self.size
    }

    /// The stones on the board: a mapping from occupied points only.
    pub closed spec fn stones(self) -> Map<Point, Stone> {
        assoc_map(self.grid@)
    }

    /// Creates a new empty Go board of a given size.
    pub fn new(size: usize) -> (b: Self)
        ensures
            b.wf(),
            b.spec_size() == size,
            b.stones() == Map::<Point, Stone>::empty(),
    {
        Self { size, grid: Vec::new() }
    }

    /// Returns the stone at the given point, if any.
    pub fn get(&self, point: Point) -> (r: Option<Stone>)
        requires
            self.wf(),
        ensures
            r == (if self.stones().dom().contains(point) {
                Some(self.stones()[point])
            } else {
                None::<Stone>
            }),
    {
        proof {
            lemma_assoc_map_unique(self.grid@);
        }
        let mut i: usize = 0;
        while i < self.grid.len()
            invariant
                self.wf(),
                0 <= i <= self.grid@.len(),
                forall|j: int| 0 <= j < i ==> (#[trigger] self.grid@[j]).0 != point,
            decreases self.grid@.len() - i,
        {
            let (p, s) = self.grid[i];
            if p == point {
                proof {
                    lemma_assoc_map_unique(self.grid@);
                    assert((self.grid@[i as int]).0 == point);
                    assert(self.grid@[i as int].1 == s);
                }
                return Some(s);
            }
            i = i + 1;
        }
        proof {
            if self.stones().dom().contains(point) {
                let j = choose|j: int|
                    0 <= j < self.grid@.len() && (#[trigger] self.grid@[j]).0 == point;
                assert(false);
            }
        }
        None
    }

    /// Places a stone on the board. Fails, leaving the board unchanged,
    /// when the point is already occupied.
    pub fn place_stone(&mut self, point: Point, stone: Stone) -> (result: Result<
        (),
        &'static str,
    >)
        requires
            old(self).wf(),
        ensures
            final(self).wf(),
            final(self).spec_size() == old(self).spec_size(),
            old(self).stones().dom().contains(point) ==> (result matches Err(m) && m@
                == "Point already occupied"@) && final(self).stones() == old(self).stones(),
            !old(self).stones().dom().contains(point) ==> result is Ok && final(self).stones()
                == old(self).stones().insert(point, stone),
    {
        proof {
            lemma_assoc_map_unique(self.grid@);
        }
        let mut i: usize = 0;
        while i < self.grid.len()
            invariant
                self.wf(),
                0 <= i <= self.grid@.len(),
                forall|j: int| 0 <= j < i ==> (#[trigger] self.grid@[j]).0 != point,
            decreases self.grid@.len() - i,
        {
            let (p, _) = self.grid[i];
            if p == point {
                proof {
                    lemma_assoc_map_unique(self.grid@);
                    assert((self.grid@[i as int]).0 == point);
                }
                return Err("Point already occupied");
            }
            i = i + 1;
        }
        proof {
            if self.stones().dom().contains(point) {
                let j = choose|j: int|
                    0 <= j < self.grid@.len() && (#[trigger] self.grid@[j]).0 == point;
                assert(false);
            }
        }
        let ghost before = self.grid@;
        self.grid.push((point, stone));
        proof {
            assert(self.grid@.drop_last() =~= before);
            assert forall|i: int, j: int|
                0 <= i < j < self.grid@.len() implies (#[trigger] self.grid@[i]).0 != (
            #[trigger] self.grid@[j]).0 by {
                if j == self.grid@.len() - 1 {
                    assert(self.grid@[i] == before[i]);
                }
            }
        }
        Ok(())
    }
}

} // verus!
