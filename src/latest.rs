//! The most recent write observed for each local.
use vstd::prelude::*;
use crate::ir::SnapshotLocation;

verus! {

/// The location recorded for `local` in `m`; before the start of the body
/// when nothing is recorded.
pub open spec fn latest_of(m: Map<u32, SnapshotLocation>, local: u32) -> SnapshotLocation {
    if m.contains_key(local) {
        m[local]
    } else {
        SnapshotLocation::Start
    }
}

/// The join of two tables at block `block`: a local keeps its location where
/// both sides agree, and gets the block's join marker where they differ.
pub open spec fn joined(
    a: Map<u32, SnapshotLocation>,
    b: Map<u32, SnapshotLocation>,
    block: usize,
) -> Map<u32, SnapshotLocation> {
    Map::new(
        |l: u32| a.contains_key(l) || b.contains_key(l),
        |l: u32|
            if latest_of(a, l) == latest_of(b, l) {
                latest_of(a, l)
            } else {
                SnapshotLocation::Join(block)
            },
    )
}

spec fn table_view(e: Seq<Option<SnapshotLocation>>) -> Map<u32, SnapshotLocation> {
    Map::new(|l: u32| (l as int) < e.len() && e[l as int] is Some, |l: u32| e[l as int].unwrap())
}

/// Maps each local, by its index, to the location of the latest write to it.
#[derive(Debug)]
pub struct Latest {
    entries: Vec<Option<SnapshotLocation>>,
}



impl View for Latest {
    type V = Map<u32, SnapshotLocation>;

    closed spec fn view(&self) -> Map<u32, SnapshotLocation> {
        table_view(self.entries@)
    }
}

impl Clone for Latest {
    fn clone(&self) -> (r: Self)
        ensures
            r@ == self@,
    {
        let e = self.entries.clone();
        proof {
            assert(e@ =~= self.entries@);
            assert(table_view(e@) =~= table_view(self.entries@));
        }
        Latest { entries: e }
    }
}

impl Latest {
    pub fn new() -> (r: Latest)
        ensures
            r@ == Map::<u32, SnapshotLocation>::empty(),
    {
        let r = Latest { entries: Vec::new() };
        proof {
            assert(r@ =~= Map::<u32, SnapshotLocation>::empty());
        }
        r
    }

    /// Records `loc` as the latest write to `local`.
    pub fn insert(&mut self, local: u32, loc: SnapshotLocation)
        ensures
            final(self)@ == old(self)@.insert(local, loc),
    {
        let ghost before = self@;
        let idx = local as usize;
        while self.entries.len() <= idx
            invariant
                self@ == before,
                idx == local as usize,
            decreases idx + 1 - self.entries@.len(),
        {
            let ghost prev = self.entries@;
            self.entries.push(None);
            proof {
                assert(self@ =~= before) by {
                    assert forall|l: u32| #[trigger] self@.contains_key(l) == before.contains_key(l) by {
                        if l < prev.len() {
                            assert(self.entries@[l as int] == prev[l as int]);
                        }
                    }
                    assert forall|l: u32| #[trigger] self@.contains_key(l) implies self@[l] == before[l] by {
                        assert(self.entries@[l as int] == prev[l as int]);
                    }
                }
            }
        }
        let ghost prev = self.entries@;
        self.entries.set(idx, Some(loc));
        proof {
            assert(self@ =~= before.insert(local, loc)) by {
                assert forall|l: u32| l != local implies #[trigger] self.entries@[l as int] == prev[l as int]
                    || l >= prev.len() by {}
            }
        }
    }

    /// The latest write recorded for `local`.
    pub fn get(&self, local: u32) -> (r: SnapshotLocation)
        ensures
            r == latest_of(self@, local),
    {
        if (local as usize) < self.entries.len() {
            match self.entries[local as usize] {
                Some(loc) => loc,
                None => SnapshotLocation::Start,
            }
        } else {
            SnapshotLocation::Start
        }
    }

    /// Joins `other` into `self` at `block`; returns whether `self` changed.
    pub fn join(&mut self, other: &Latest, block: usize) -> (changed: bool)
        ensures
            final(self)@ == joined(old(self)@, other@, block),
            changed == (final(self)@ != old(self)@),
    {
        let ghost a_entries = self.entries@;
        let n: usize = if self.entries.len() < other.entries.len() {
            other.entries.len()
        } else {
            self.entries.len()
        };
        let mut changed = false;
        let mut i: usize = 0;
        let last: usize = u32::MAX as usize;
        while i < n && i <= last
            invariant
                i <= n,
                last == u32::MAX as usize,
                i as int <= last as int + 1,
                n >= a_entries.len(),
                n >= other.entries@.len(),
                self.entries@.len() == if i < a_entries.len() { a_entries.len() } else { i as nat },
                forall|j: int| i <= j < a_entries.len() ==> self.entries@[j] == a_entries[j],
                forall|j: int| 0 <= j < i ==> self.entries@[j] == merge_entry(
                    entry_at(a_entries, j), entry_at(other.entries@, j), block),
                changed == exists|j: int| 0 <= j < i && #[trigger] merge_entry(
                    entry_at(a_entries, j), entry_at(other.entries@, j), block) != entry_at(a_entries, j),
            decreases n - i,
        {
            let mine: Option<SnapshotLocation> = if i < self.entries.len() {
                self.entries[i]
            } else {
                None
            };
            let theirs: Option<SnapshotLocation> = if i < other.entries.len() {
                other.entries[i]
            } else {
                None
            };
            let merged: Option<SnapshotLocation> = match (mine, theirs) {
                (None, None) => None,
                _ => {
                    let va = match mine {
                        Some(v) => v,
                        None => SnapshotLocation::Start,
                    };
                    let vb = match theirs {
                        Some(v) => v,
                        None => SnapshotLocation::Start,
                    };
                    if va == vb {
                        Some(va)
                    } else {
                        Some(SnapshotLocation::Join(block))
                    }
                },
            };
            assert(mine == entry_at(a_entries, i as int));
            assert(theirs == entry_at(other.entries@, i as int));
            if merged != mine {
                changed = true;
            }
            if i < self.entries.len() {
                self.entries.set(i, merged);
            } else {
                self.entries.push(merged);
            }
            i = i + 1;
        }
        proof {
            let a = table_view(a_entries);
            let o = table_view(other.entries@);
            let j = joined(a, o, block);
            assert forall|l: u32| #[trigger] j.contains_key(l) == self@.contains_key(l)
                && (j.contains_key(l) ==> j[l] == self@[l]) by {
                assert(entry_at(a_entries, l as int) is Some == a.contains_key(l));
                assert(entry_at(other.entries@, l as int) is Some == o.contains_key(l));
            }
            assert(self@ =~= j);
            if changed {
                let w = choose|w: int| 0 <= w < i && #[trigger] merge_entry(
                    entry_at(a_entries, w), entry_at(other.entries@, w), block) != entry_at(a_entries, w);
                assert(w <= u32::MAX);
                let wl = w as u32;
                assert(wl as int == w);
                assert(self.entries@[w] == merge_entry(entry_at(a_entries, w), entry_at(other.entries@, w), block));
                assert(entry_at(a_entries, wl as int) is Some == a.contains_key(wl));
                assert(self.entries@[w] is Some == self@.contains_key(wl));
                assert(a.contains_key(wl) != self@.contains_key(wl) || a[wl] != self@[wl]);
            } else {
                assert forall|l: u32| #[trigger] a.contains_key(l) == self@.contains_key(l)
                    && (a.contains_key(l) ==> a[l] == self@[l]) by {
                    if (l as int) < i {
                        assert(merge_entry(entry_at(a_entries, l as int), entry_at(other.entries@, l as int), block)
                            == entry_at(a_entries, l as int));
                    }
                }
                assert(a =~= self@);
            }
        }
        changed
    }
}

spec fn entry_at(e: Seq<Option<SnapshotLocation>>, j: int) -> Option<SnapshotLocation> {
    if 0 <= j < e.len() {
        e[j]
    } else {
        None
    }
}

spec fn merge_entry(x: Option<SnapshotLocation>, y: Option<SnapshotLocation>, block: usize) -> Option<
    SnapshotLocation,
> {
    if x is None && y is None {
        None
    } else {
        let va = match x {
            Some(v) => v,
            None => SnapshotLocation::Start,
        };
        let vb = match y {
            Some(v) => v,
            None => SnapshotLocation::Start,
        };
        if va == vb {
            Some(va)
        } else {
            Some(SnapshotLocation::Join(block))
        }
    }
}

} // verus!
