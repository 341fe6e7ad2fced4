//! Deref expansions: the record that the children of a place are tracked
//! one by one.
use vstd::prelude::*;
use crate::ir::{Location, ProjElem, SnapshotLocation};
use crate::latest::Latest;
use crate::place::{region_projection_vids, MaybeOldPlace, MaybeOldPlaceView, Place, PlaceView, PlaceSnapshot, RegionProjection, RegionProjectionView, proj_clone, proj_eq};
use crate::ty::PlaceRepacker;

verus! {

/// The expansion of a place behind a reference into the children listed by
/// their last projection step.
#[derive(Debug)]
pub struct BorrowDerefExpansion {
    pub base: MaybeOldPlace,
    pub expansion: Vec<ProjElem>,
    pub location: Location,
}

#[derive(Debug)]
pub enum DerefExpansion {
    OwnedExpansion { base: MaybeOldPlace },
    BorrowExpansion(BorrowDerefExpansion),
}

pub enum DerefExpansionView {
    Owned { base: MaybeOldPlaceView },
    Borrow { base: MaybeOldPlaceView, expansion: Seq<ProjElem>, location: Location },
}

impl View for DerefExpansion {
    type V = DerefExpansionView;

    open spec fn view(&self) -> DerefExpansionView {
        match self {
            DerefExpansion::OwnedExpansion { base } => DerefExpansionView::Owned { base: base@ },
            DerefExpansion::BorrowExpansion(e) => DerefExpansionView::Borrow {
                base: e.base@,
                expansion: e.expansion@,
                location: e.location,
            },
        }
    }
}

/// `base` extended by the step `e`, with the snapshot tag of `base`.
pub open spec fn child_of(base: MaybeOldPlaceView, e: ProjElem) -> MaybeOldPlaceView {
    base.with_place(base.place().project(e))
}

impl DerefExpansionView {
    pub open spec fn base(self) -> MaybeOldPlaceView {
        match self {
            DerefExpansionView::Owned { base } => base,
            DerefExpansionView::Borrow { base, .. } => base,
        }
    }

    pub open spec fn with_base(self, b: MaybeOldPlaceView) -> DerefExpansionView {
        match self {
            DerefExpansionView::Owned { .. } => DerefExpansionView::Owned { base: b },
            DerefExpansionView::Borrow { expansion, location, .. } => DerefExpansionView::Borrow { base: b, expansion, location },
        }
    }

    /// The last projection step of each child.
    pub open spec fn elems(self) -> Seq<ProjElem> {
        match self {
            DerefExpansionView::Owned { .. } => seq![ProjElem::Deref],
            DerefExpansionView::Borrow { expansion, .. } => expansion,
        }
    }

    /// The children that the expansion materialises.
    pub open spec fn children(self) -> Seq<MaybeOldPlaceView> {
        self.elems().map_values(|e: ProjElem| child_of(self.base(), e))
    }

    pub open spec fn make_old(self, place: PlaceView, latest: Map<u32, SnapshotLocation>) -> DerefExpansionView {
        self.with_base(self.base().make_old(place, latest))
    }

    pub open spec fn substitute(self, from: MaybeOldPlaceView, to: MaybeOldPlaceView) -> DerefExpansionView {
        self.with_base(self.base().substitute(from, to))
    }
}

impl Clone for DerefExpansion {
    fn clone(&self) -> (r: Self)
        ensures
            r@ == self@,
    {
        match self {
            DerefExpansion::OwnedExpansion { base } => DerefExpansion::OwnedExpansion { base: base.clone() },
            DerefExpansion::BorrowExpansion(e) => DerefExpansion::BorrowExpansion(BorrowDerefExpansion {
                base: e.base.clone(),
                expansion: proj_clone(&e.expansion),
                location: e.location,
            }),
        }
    }
}

impl PartialEq for DerefExpansion {
    fn eq(&self, o: &Self) -> (r: bool) {
        match (self, o) {
            (DerefExpansion::OwnedExpansion { base: a }, DerefExpansion::OwnedExpansion { base: b }) => a == b,
            (DerefExpansion::BorrowExpansion(a), DerefExpansion::BorrowExpansion(b)) => {
                a.location == b.location && a.base == b.base && proj_eq(&a.expansion, &b.expansion)
            },
            _ => false,
        }
    }
}

impl vstd::std_specs::cmp::PartialEqSpecImpl for DerefExpansion {
    open spec fn obeys_eq_spec() -> bool {
        true
    }

    open spec fn eq_spec(&self, o: &Self) -> bool {
        self@ == o@
    }
}

impl BorrowDerefExpansion {
    pub fn base(&self) -> (r: MaybeOldPlace)
        ensures
            r@ == self.base@,
    {
        self.base.clone()
    }

    /// The children that the expansion lists.
    pub fn expansion(&self) -> (r: Vec<MaybeOldPlace>)
        ensures
            r@.len() == self.expansion@.len(),
            forall|i: int| 0 <= i < r@.len() ==> (#[trigger] r@[i])@ == child_of(self.base@, self.expansion@[i]),
    {
        let mut out: Vec<MaybeOldPlace> = Vec::new();
        let mut i: usize = 0;
        while i < self.expansion.len()
            invariant
                i <= self.expansion@.len(),
                out@.len() == i,
                forall|j: int| 0 <= j < i ==> (#[trigger] out@[j])@ == child_of(self.base@, self.expansion@[j]),
            decreases self.expansion@.len() - i,
        {
            out.push(self.base.project_deeper(self.expansion[i]));
            i = i + 1;
        }
        out
    }
}

/// The region projection of the base of `d` at position `x`.
pub open spec fn base_projection(r: &PlaceRepacker, d: DerefExpansion, x: int) -> RegionProjectionView {
    RegionProjectionView { place: d@.base(), region: region_projection_vids(r, d@.base())[x] }
}

/// The region projection of child `c` of `d` at position `y`.
pub open spec fn child_projection(r: &PlaceRepacker, d: DerefExpansion, c: int, y: int) -> RegionProjectionView {
    RegionProjectionView { place: d@.children()[c], region: region_projection_vids(r, d@.children()[c])[y] }
}

/// Position `x` of the base and position `y` of child `c` name the same region.
pub open spec fn shared_region(r: &PlaceRepacker, d: DerefExpansion, c: int, x: int, y: int) -> bool {
    0 <= c < d@.children().len() && 0 <= x < region_projection_vids(r, d@.base()).len()
        && 0 <= y < region_projection_vids(r, d@.children()[c]).len()
        && region_projection_vids(r, d@.base())[x] == region_projection_vids(r, d@.children()[c])[y]
}

/// The list holds the pair `(a, b)`.
pub open spec fn pair_listed(s: Seq<(RegionProjection, RegionProjection)>, a: RegionProjectionView, b: RegionProjectionView) -> bool {
    exists|w: int| 0 <= w < s.len() && s[w].0@ == a && s[w].1@ == b
}

impl DerefExpansion {
    /// A borrow expansion of `base` into the places `expansion`, each one
    /// step below `base`.
    pub fn borrowed(base: MaybeOldPlace, expansion: Vec<Place>, location: Location, repacker: &PlaceRepacker) -> (r: DerefExpansion)
        requires
            !base@.place().is_owned(repacker),
            forall|i: int| 0 <= i < expansion@.len() ==> base@.place().is_prefix(#[trigger] expansion@[i]@)
                && expansion@[i]@.projection.len() == base@.place().projection.len() + 1,
        ensures
            r@ is Borrow,
            r@ matches DerefExpansionView::Borrow { location: l, .. } && l == location,
            r@.base() == base@,
            r@.elems().len() == expansion@.len(),
            forall|i: int| 0 <= i < expansion@.len() ==> #[trigger] r@.children()[i] == base@.with_place(expansion@[i]@),
    {
        let mut elems: Vec<ProjElem> = Vec::new();
        let mut i: usize = 0;
        while i < expansion.len()
            invariant
                i <= expansion@.len(),
                elems@.len() == i,
                forall|j: int| 0 <= j < expansion@.len() ==> base@.place().is_prefix(#[trigger] expansion@[j]@)
                    && expansion@[j]@.projection.len() == base@.place().projection.len() + 1,
                forall|j: int| 0 <= j < i ==> base@.place().project(#[trigger] elems@[j]) == expansion@[j]@,
            decreases expansion@.len() - i,
        {
            let p = &expansion[i];
            let n = p.projection.len();
            assert(p@ == expansion@[i as int]@);
            let e = p.projection[n - 1];
            proof {
                let b = base@.place();
                assert(b.projection.is_prefix_of(p@.projection));
                assert(b.projection.push(e) =~= p@.projection);
            }
            elems.push(e);
            i = i + 1;
        }
        let r = DerefExpansion::BorrowExpansion(BorrowDerefExpansion { base, expansion: elems, location });
        proof {
            assert forall|j: int| 0 <= j < expansion@.len() implies #[trigger] r@.children()[j] == base@.with_place(expansion@[j]@) by {
                assert(r@.children()[j] == child_of(base@, elems@[j]));
            }
        }
        r
    }

    pub fn base(&self) -> (r: MaybeOldPlace)
        ensures
            r@ == self@.base(),
    {
        match self {
            DerefExpansion::OwnedExpansion { base } => base.clone(),
            DerefExpansion::BorrowExpansion(e) => e.base.clone(),
        }
    }

    pub fn base_ref(&self) -> (r: &MaybeOldPlace)
        ensures
            r@ == self@.base(),
    {
        match self {
            DerefExpansion::OwnedExpansion { base } => base,
            DerefExpansion::BorrowExpansion(e) => &e.base,
        }
    }

    pub fn set_base(&mut self, base: MaybeOldPlace)
        ensures
            final(self)@ == old(self)@.with_base(base@),
    {
        match self {
            DerefExpansion::OwnedExpansion { base: b } => {
                *b = base;
            },
            DerefExpansion::BorrowExpansion(e) => {
                e.base = base;
            },
        }
    }

    pub fn mut_base(&mut self) -> (r: &mut MaybeOldPlace)
        ensures
            r@ == old(self)@.base(),
            final(self)@ == old(self)@.with_base(final(r)@),
    {
        match self {
            DerefExpansion::OwnedExpansion { base } => base,
            DerefExpansion::BorrowExpansion(e) => &mut e.base,
        }
    }

    pub fn is_owned_expansion(&self) -> (r: bool)
        ensures
            r == self@ is Owned,
    {
        matches!(self, DerefExpansion::OwnedExpansion { .. })
    }

    pub fn borrow_expansion(&self) -> (r: Option<&BorrowDerefExpansion>)
        ensures
            self@ is Borrow <==> r is Some,
            r matches Some(e) ==> self@ == (DerefExpansionView::Borrow { base: e.base@, expansion: e.expansion@, location: e.location }),
    {
        match self {
            DerefExpansion::BorrowExpansion(e) => Some(e),
            _ => None,
        }
    }

    /// Replaces the current base by its snapshot at `place_location`.
    pub fn make_base_old(&mut self, place_location: SnapshotLocation)
        requires
            old(self)@.base() is Current,
        ensures
            final(self)@ == old(self)@.with_base(MaybeOldPlaceView::Old(old(self)@.base().place(), place_location)),
    {
        let p = self.base_ref().place();
        self.set_base(MaybeOldPlace::OldPlace(PlaceSnapshot::new(p, place_location)));
    }

    pub fn make_place_old(&mut self, place: &Place, latest: &Latest)
        ensures
            final(self)@ == old(self)@.make_old(place@, latest@),
    {
        match self {
            DerefExpansion::OwnedExpansion { base } => base.make_place_old(place, latest),
            DerefExpansion::BorrowExpansion(e) => e.base.make_place_old(place, latest),
        }
    }

    pub fn substitute(&mut self, from: &MaybeOldPlace, to: &MaybeOldPlace)
        ensures
            final(self)@ == old(self)@.substitute(from@, to@),
    {
        match self {
            DerefExpansion::OwnedExpansion { base } => crate::domain::substitute_place(base, from, to),
            DerefExpansion::BorrowExpansion(e) => crate::domain::substitute_place(&mut e.base, from, to),
        }
    }

    pub fn expansion_elems(&self) -> (r: Vec<ProjElem>)
        ensures
            r@ == self@.elems(),
    {
        match self {
            DerefExpansion::OwnedExpansion { .. } => vec![ProjElem::Deref],
            DerefExpansion::BorrowExpansion(e) => proj_clone(&e.expansion),
        }
    }

    /// The children that the expansion materialises.
    pub fn expansion(&self) -> (r: Vec<MaybeOldPlace>)
        ensures
            r@.len() == self@.children().len(),
            forall|i: int| 0 <= i < r@.len() ==> (#[trigger] r@[i])@ == self@.children()[i],
    {
        let base = self.base_ref();
        let elems = self.expansion_elems();
        let mut out: Vec<MaybeOldPlace> = Vec::new();
        let mut i: usize = 0;
        while i < elems.len()
            invariant
                i <= elems@.len(),
                elems@ == self@.elems(),
                base@ == self@.base(),
                out@.len() == i,
                forall|j: int| 0 <= j < i ==> (#[trigger] out@[j])@ == self@.children()[j],
            decreases elems@.len() - i,
        {
            out.push(base.project_deeper(elems[i]));
            i = i + 1;
        }
        out
    }

    /// The pairs of region projections that share a region variable, one of
    /// the base and one of a child: all of them.
    pub fn region_projection_edges(&self, repacker: &PlaceRepacker) -> (r: Vec<(RegionProjection, RegionProjection)>)
        ensures
            forall|i: int| 0 <= i < r@.len() ==> (#[trigger] r@[i]).0@.place == self@.base()
                && self@.children().contains(r@[i].1@.place) && r@[i].0@.region == r@[i].1@.region,
            forall|c: int, x: int, y: int| #[trigger] shared_region(repacker, *self, c, x, y)
                ==> pair_listed(r@, base_projection(repacker, *self, x), child_projection(repacker, *self, c, y)),
    {
        let base = self.base_ref();
        let base_rps = base.region_projections(repacker);
        let children = self.expansion();
        let mut out: Vec<(RegionProjection, RegionProjection)> = Vec::new();
        let mut c: usize = 0;
        while c < children.len()
            invariant
                c <= children@.len(),
                base@ == self@.base(),
                children@.len() == self@.children().len(),
                forall|i: int| 0 <= i < children@.len() ==> (#[trigger] children@[i])@ == self@.children()[i],
                base_rps@.len() == region_projection_vids(repacker, self@.base()).len(),
                forall|i: int| 0 <= i < base_rps@.len() ==> (#[trigger] base_rps@[i])@ == base_projection(repacker, *self, i),
                forall|i: int| 0 <= i < out@.len() ==> (#[trigger] out@[i]).0@.place == self@.base()
                    && self@.children().contains(out@[i].1@.place) && out@[i].0@.region == out@[i].1@.region,
                forall|c2: int, x: int, y: int| c2 < c && #[trigger] shared_region(repacker, *self, c2, x, y)
                    ==> pair_listed(out@, base_projection(repacker, *self, x), child_projection(repacker, *self, c2, y)),
            decreases children@.len() - c,
        {
            let child_rps = children[c].region_projections(repacker);
            proof {
                assert(self@.children()[c as int] == children@[c as int]@);
            }
            let mut a: usize = 0;
            while a < base_rps.len()
                invariant
                    a <= base_rps@.len(),
                    c < children@.len(),
                    base@ == self@.base(),
                    children@.len() == self@.children().len(),
                    self@.children()[c as int] == children@[c as int]@,
                    base_rps@.len() == region_projection_vids(repacker, self@.base()).len(),
                    forall|i: int| 0 <= i < base_rps@.len() ==> (#[trigger] base_rps@[i])@ == base_projection(repacker, *self, i),
                    child_rps@.len() == region_projection_vids(repacker, self@.children()[c as int]).len(),
                    forall|i: int| 0 <= i < child_rps@.len() ==> (#[trigger] child_rps@[i])@ == child_projection(repacker, *self, c as int, i),
                    forall|i: int| 0 <= i < out@.len() ==> (#[trigger] out@[i]).0@.place == self@.base()
                        && self@.children().contains(out@[i].1@.place) && out@[i].0@.region == out@[i].1@.region,
                    forall|c2: int, x: int, y: int| (c2 < c || (c2 == c && x < a)) && #[trigger] shared_region(repacker, *self, c2, x, y)
                        ==> pair_listed(out@, base_projection(repacker, *self, x), child_projection(repacker, *self, c2, y)),
                decreases base_rps@.len() - a,
            {
                let mut b: usize = 0;
                while b < child_rps.len()
                    invariant
                        b <= child_rps@.len(),
                        a < base_rps@.len(),
                        c < children@.len(),
                        base@ == self@.base(),
                        children@.len() == self@.children().len(),
                        self@.children()[c as int] == children@[c as int]@,
                        base_rps@.len() == region_projection_vids(repacker, self@.base()).len(),
                        forall|i: int| 0 <= i < base_rps@.len() ==> (#[trigger] base_rps@[i])@ == base_projection(repacker, *self, i),
                        child_rps@.len() == region_projection_vids(repacker, self@.children()[c as int]).len(),
                        forall|i: int| 0 <= i < child_rps@.len() ==> (#[trigger] child_rps@[i])@ == child_projection(repacker, *self, c as int, i),
                        forall|i: int| 0 <= i < out@.len() ==> (#[trigger] out@[i]).0@.place == self@.base()
                            && self@.children().contains(out@[i].1@.place) && out@[i].0@.region == out@[i].1@.region,
                        forall|c2: int, x: int, y: int| (c2 < c || (c2 == c && x < a) || (c2 == c && x == a && y < b))
                            && #[trigger] shared_region(repacker, *self, c2, x, y)
                            ==> pair_listed(out@, base_projection(repacker, *self, x), child_projection(repacker, *self, c2, y)),
                    decreases child_rps@.len() - b,
                {
                    let ghost prev = out@;
                    if base_rps[a].region == child_rps[b].region {
                        proof {
                            assert(self@.children()[c as int] == child_rps@[b as int]@.place);
                        }
                        out.push((base_rps[a].clone(), child_rps[b].clone()));
                        proof {
                            assert(pair_listed(out@, base_projection(repacker, *self, a as int), child_projection(repacker, *self, c as int, b as int))) by {
                                assert(out@[prev.len() as int].0@ == base_projection(repacker, *self, a as int));
                            }
                        }
                    }
                    proof {
                        assert forall|c2: int, x: int, y: int| (c2 < c || (c2 == c && x < a) || (c2 == c && x == a && y < b + 1))
                            && #[trigger] shared_region(repacker, *self, c2, x, y)
                            implies pair_listed(out@, base_projection(repacker, *self, x), child_projection(repacker, *self, c2, y)) by {
                            if !(c2 == c && x == a && y == b) {
                                let w = choose|w: int| 0 <= w < prev.len() && prev[w].0@ == base_projection(repacker, *self, x)
                                    && prev[w].1@ == child_projection(repacker, *self, c2, y);
                                assert(out@[w] == prev[w]);
                            } else {
                                assert(base_rps@[a as int]@.region == child_rps@[b as int]@.region);
                            }
                        }
                    }
                    b = b + 1;
                }
                a = a + 1;
            }
            c = c + 1;
        }
        out
    }
}

} // verus!
