//! Path conditions: the block transitions under which an edge applies.
use vstd::prelude::*;

verus! {

/// A transition from block `from` to block `to`. A transition from a block
/// to itself stands for reaching that block.
#[derive(Clone, Copy, Debug, PartialEq, Eq, Hash, Structural)]
pub struct PathCondition {
    pub from: usize,
    pub to: usize,
}

impl PathCondition {
    pub fn new(from: usize, to: usize) -> (r: PathCondition)
        ensures
            r == (PathCondition { from, to }),
    {
        PathCondition { from, to }
    }
}

/// The path `path` realises the transition `pc`.
pub open spec fn realized(pc: PathCondition, path: Seq<usize>) -> bool {
    if pc.from == pc.to {
        exists|i: int| 0 <= i < path.len() && path[i] == pc.from
    } else {
        exists|i: int| 0 <= i < path.len() - 1 && #[trigger] path[i] == pc.from && path[i + 1] == pc.to
    }
}

/// Every transition of `conds` is realised by `path`.
pub open spec fn valid_for(conds: Set<PathCondition>, path: Seq<usize>) -> bool {
    forall|pc: PathCondition| conds.contains(pc) ==> #[trigger] realized(pc, path)
}

/// A set of path conditions, all of which must hold.
#[derive(Debug)]
pub struct PathConditions {
    conds: Vec<PathCondition>,
}

impl View for PathConditions {
    type V = Set<PathCondition>;

    closed spec fn view(&self) -> Set<PathCondition> {
        self.conds@.to_set()
    }
}

impl Clone for PathConditions {
    fn clone(&self) -> (r: Self)
        ensures
            r@ == self@,
    {
        let c = self.conds.clone();
        proof {
            assert(c@ =~= self.conds@);
        }
        PathConditions { conds: c }
    }
}

impl PathConditions {
    pub fn new() -> (r: PathConditions)
        ensures
            r@ == Set::<PathCondition>::empty(),
    {
        let r = PathConditions { conds: Vec::new() };
        proof {
            assert(r@ =~= Set::<PathCondition>::empty());
        }
        r
    }

    /// The conditions of an edge created in `block`: that block is reached.
    pub fn at_block(block: usize) -> (r: PathConditions)
        ensures
            r@ == set![PathCondition { from: block, to: block }],
    {
        let r = PathConditions { conds: vec![PathCondition { from: block, to: block }] };
        proof {
            assert(r@ =~= set![PathCondition { from: block, to: block }]) by {
                assert(r.conds@[0] == PathCondition { from: block, to: block });
            }
        }
        r
    }

    pub fn contains(&self, pc: PathCondition) -> (r: bool)
        ensures
            r == self@.contains(pc),
    {
        let mut i: usize = 0;
        while i < self.conds.len()
            invariant
                i <= self.conds@.len(),
                forall|j: int| 0 <= j < i ==> self.conds@[j] != pc,
            decreases self.conds@.len() - i,
        {
            if self.conds[i] == pc {
                proof {
                    assert(self.conds@.contains(pc));
                }
                return true;
            }
            i = i + 1;
        }
        false
    }

    /// Adds `pc`; returns whether the set grew.
    pub fn insert(&mut self, pc: PathCondition) -> (grew: bool)
        ensures
            final(self)@ == old(self)@.insert(pc),
            grew == !old(self)@.contains(pc),
    {
        if self.contains(pc) {
            proof {
                assert(self@.insert(pc) =~= self@);
            }
            return false;
        }
        let ghost before = self.conds@;
        self.conds.push(pc);
        proof {
            assert(self.conds@.to_set() =~= before.to_set().insert(pc)) by {
                assert forall|x: PathCondition| #[trigger] self.conds@.contains(x) == (before.contains(x) || x == pc) by {
                    if self.conds@.contains(x) {
                        let j = choose|j: int| 0 <= j < self.conds@.len() && self.conds@[j] == x;
                        if j < before.len() {
                            assert(before[j] == x);
                        }
                    }
                    if before.contains(x) {
                        let j = choose|j: int| 0 <= j < before.len() && before[j] == x;
                        assert(self.conds@[j] == x);
                    }
                    if x == pc {
                        assert(self.conds@[before.len() as int] == x);
                    }
                }
            }
        }
        true
    }

    /// Adds every condition of `other`; returns whether the set grew.
    pub fn join(&mut self, other: &PathConditions) -> (grew: bool)
        ensures
            final(self)@ == old(self)@.union(other@),
            grew == !other@.subset_of(old(self)@),
    {
        let ghost before = self@;
        let mut grew = false;
        let mut i: usize = 0;
        while i < other.conds.len()
            invariant
                i <= other.conds@.len(),
                self@ == before.union(other.conds@.take(i as int).to_set()),
                grew == !other.conds@.take(i as int).to_set().subset_of(before),
            decreases other.conds@.len() - i,
        {
            let pc = other.conds[i];
            let ghost prev = self@;
            if self.insert(pc) {
                grew = true;
            }
            proof {
                let t = other.conds@.take(i as int);
                let t1 = other.conds@.take(i + 1);
                assert(t1 =~= t.push(pc));
                assert(t1.to_set() =~= t.to_set().insert(pc)) by {
                    assert forall|x: PathCondition| #[trigger] t1.contains(x) == (t.contains(x) || x == pc) by {
                        if t1.contains(x) {
                            let j = choose|j: int| 0 <= j < t1.len() && t1[j] == x;
                            if j < t.len() {
                                assert(t[j] == x);
                            }
                        }
                        if t.contains(x) {
                            let j = choose|j: int| 0 <= j < t.len() && t[j] == x;
                            assert(t1[j] == x);
                        }
                        if x == pc {
                            assert(t1[i as int] == x);
                        }
                    }
                }
                assert(self@ =~= before.union(t1.to_set()));
            }
            i = i + 1;
        }
        proof {
            assert(other.conds@.take(i as int) =~= other.conds@);
        }
        grew
    }

    /// Every transition of the set is realised by `path`.
    pub fn valid_for_path(&self, path: &Vec<usize>) -> (r: bool)
        ensures
            r == valid_for(self@, path@),
    {
        let mut i: usize = 0;
        while i < self.conds.len()
            invariant
                i <= self.conds@.len(),
                forall|j: int| 0 <= j < i ==> realized(#[trigger] self.conds@[j], path@),
            decreases self.conds@.len() - i,
        {
            if !realizes(path, self.conds[i]) {
                proof {
                    assert(self@.contains(self.conds@[i as int]));
                }
                return false;
            }
            i = i + 1;
        }
        proof {
            assert forall|pc: PathCondition| self@.contains(pc) implies #[trigger] realized(pc, path@) by {
                let j = choose|j: int| 0 <= j < self.conds@.len() && self.conds@[j] == pc;
            }
        }
        true
    }

    /// The two sets hold the same conditions.
    pub fn same_as(&self, other: &PathConditions) -> (r: bool)
        ensures
            r == (self@ == other@),
    {
        let a = self.included_in(other);
        let b = other.included_in(self);
        proof {
            if a && b {
                assert(self@ =~= other@);
            }
        }
        a && b
    }

    pub fn included_in(&self, other: &PathConditions) -> (r: bool)
        ensures
            r == self@.subset_of(other@),
    {
        let mut i: usize = 0;
        while i < self.conds.len()
            invariant
                i <= self.conds@.len(),
                forall|j: int| 0 <= j < i ==> other@.contains(#[trigger] self.conds@[j]),
            decreases self.conds@.len() - i,
        {
            if !other.contains(self.conds[i]) {
                proof {
                    assert(self@.contains(self.conds@[i as int]));
                }
                return false;
            }
            i = i + 1;
        }
        proof {
            assert forall|pc: PathCondition| self@.contains(pc) implies other@.contains(pc) by {
                let j = choose|j: int| 0 <= j < self.conds@.len() && self.conds@[j] == pc;
            }
        }
        true
    }
}

/// Whether `path` realises `pc`.
pub fn realizes(path: &Vec<usize>, pc: PathCondition) -> (r: bool)
    ensures
        r == realized(pc, path@),
{
    let mut i: usize = 0;
    while i < path.len()
        invariant
            i <= path@.len(),
            pc.from == pc.to ==> forall|j: int| 0 <= j < i ==> path@[j] != pc.from,
            pc.from != pc.to ==> forall|j: int| 0 <= j < i && j < path@.len() - 1 ==> !(#[trigger] path@[j] == pc.from
                && path@[j + 1] == pc.to),
        decreases path@.len() - i,
    {
        if pc.from == pc.to {
            if path[i] == pc.from {
                return true;
            }
        } else if i + 1 < path.len() && path[i] == pc.from && path[i + 1] == pc.to {
            return true;
        }
        i = i + 1;
    }
    false
}

} // verus!
