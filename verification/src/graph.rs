//! The classes of equivalent operations that an e-graph holds, as plain values.

use vstd::prelude::*;

use crate::tile::TileLang;

verus! {

/// A class of operations that compute the same value.
#[derive(Debug)]
pub struct TileClass {
    pub id: usize,
    pub nodes: Vec<TileLang<usize>>,
}

/// Every class of an e-graph, and for each id that was ever handed out the id of its class.
#[derive(Debug)]
pub struct ClassGraph {
    pub classes: Vec<TileClass>,
    pub leaders: Vec<usize>,
}

impl ClassGraph {
    /// The nodes of the class at position `c`.
    pub open spec fn nodes(&self, c: int) -> Seq<TileLang<usize>> {
        self.classes@[c].nodes@
    }

    /// `id` is the id of a class.
    pub open spec fn is_class(&self, id: usize) -> bool {
        exists|c: int| 0 <= c < self.classes@.len() && (#[trigger] self.classes@[c]).id == id
    }

    /// Classes have distinct ids and lead themselves, every id is led by a class, and operands
    /// are ids.
    pub open spec fn wf(&self) -> bool {
        &&& forall|b: int, c: int|
            0 <= b < c < self.classes@.len() ==> (#[trigger] self.classes@[b]).id != (
            #[trigger] self.classes@[c]).id
        &&& forall|c: int|
            0 <= c < self.classes@.len() ==> (#[trigger] self.classes@[c]).id < self.leaders@.len()
                && self.leaders@[self.classes@[c].id as int] == self.classes@[c].id
        &&& forall|i: int|
            0 <= i < self.leaders@.len() ==> self.is_class(#[trigger] self.leaders@[i])
        &&& forall|c: int, j: int, k: int|
            0 <= c < self.classes@.len() && 0 <= j < self.nodes(c).len() && 0 <= k < self.nodes(
                c,
            )[j].children@.len() ==> (#[trigger] self.nodes(c)[j].children@[k])
                < self.leaders@.len()
    }

    /// The position of the class that leads `id`.
    pub open spec fn class_index(&self, id: usize) -> int {
        choose|c: int|
            0 <= c < self.classes@.len() && (#[trigger] self.classes@[c]).id
                == self.leaders@[id as int]
    }

    /// The number of nodes in the classes before position `c`.
    pub open spec fn nodes_before(&self, c: int) -> nat
        decreases c,
    {
        if c <= 0 {
            0
        } else {
            self.nodes_before(c - 1) + self.nodes(c - 1).len()
        }
    }

    /// The class that leads an id stands at exactly one position.
    pub proof fn class_index_is_unique(&self, id: usize, c: int)
        requires
            self.wf(),
            id < self.leaders@.len(),
        ensures
            0 <= self.class_index(id) < self.classes@.len(),
            self.classes@[self.class_index(id)].id == self.leaders@[id as int],
            0 <= c < self.classes@.len() && self.classes@[c].id == self.leaders@[id as int] ==> c
                == self.class_index(id),
    {
        assert(self.is_class(self.leaders@[id as int]));
        let d = self.class_index(id);
        if 0 <= c < self.classes@.len() && self.classes@[c].id == self.leaders@[id as int] {
            assert(self.classes@[c].id == self.classes@[d].id);
        }
    }

    /// The id of the class that holds `id`.
    pub fn find(&self, id: usize) -> (r: usize)
        requires
            id < self.leaders@.len(),
        ensures
            r == self.leaders@[id as int],
    {
        self.leaders[id]
    }

    /// The position of the class that holds `id`.
    pub fn locate(&self, id: usize) -> (r: usize)
        requires
            self.wf(),
            id < self.leaders@.len(),
        ensures
            r == self.class_index(id),
            r < self.classes@.len(),
            self.classes@[r as int].id == self.leaders@[id as int],
    {
        let leader = self.find(id);
        proof {
            self.class_index_is_unique(id, 0);
        }
        let n = self.classes.len();
        let mut c: usize = 0;
        while self.classes[c].id != leader
            invariant
                self.wf(),
                n == self.classes@.len(),
                id < self.leaders@.len(),
                leader == self.leaders@[id as int],
                c <= self.class_index(id) < self.classes@.len(),
                self.classes@[self.class_index(id)].id == leader,
            decreases self.classes@.len() - c,
        {
            c = c + 1;
        }
        proof {
            self.class_index_is_unique(id, c as int);
        }
        c
    }
}

} // verus!
