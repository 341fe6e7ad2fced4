//! The four kinds of edge of the borrows graph, and edges with their path
//! conditions.
use vstd::prelude::*;
use crate::ir::{Location, Mutability, SnapshotLocation};
use crate::latest::Latest;
use crate::place::{MaybeOldPlace, MaybeOldPlaceView, MaybeRemotePlace, MaybeRemotePlaceView, Place, PlaceView, RegionProjection, RegionProjectionView};
use crate::domain::{AbstractionEdge, AbstractionTypeView, Reborrow, ReborrowView, rp_make_old, rp_substitute, view_set, substitute_remote, lemma_view_set_push};
use crate::deref_expansion::{DerefExpansion, DerefExpansionView};
use crate::path_condition::{PathCondition, PathConditions, valid_for};
use crate::ty::PlaceRepacker;

verus! {

/// Whether the member's place flows into the projection, or out of it.
#[derive(Clone, Copy, Debug, PartialEq, Eq, Hash, Structural)]
pub enum RegionProjectionMemberDirection {
    PlaceIsRegionInput,
    PlaceIsRegionOutput,
}

/// The contents of `place` flow into (or out of) the region projection `projection`.
#[derive(Debug)]
pub struct RegionProjectionMember {
    pub place: MaybeRemotePlace,
    pub projection: RegionProjection,
    pub location: Location,
    pub direction: RegionProjectionMemberDirection,
}

pub struct RegionProjectionMemberView {
    pub place: MaybeRemotePlaceView,
    pub projection: RegionProjectionView,
    pub location: Location,
    pub direction: RegionProjectionMemberDirection,
}

impl View for RegionProjectionMember {
    type V = RegionProjectionMemberView;

    open spec fn view(&self) -> RegionProjectionMemberView {
        RegionProjectionMemberView {
            place: self.place@,
            projection: self.projection@,
            location: self.location,
            direction: self.direction,
        }
    }
}

impl Clone for RegionProjectionMember {
    fn clone(&self) -> (r: Self)
        ensures
            r@ == self@,
    {
        RegionProjectionMember {
            place: self.place.clone(),
            projection: self.projection.clone(),
            location: self.location,
            direction: self.direction,
        }
    }
}

impl PartialEq for RegionProjectionMember {
    fn eq(&self, o: &Self) -> (r: bool) {
        self.location == o.location && self.direction == o.direction && self.place == o.place
            && self.projection == o.projection
    }
}

impl vstd::std_specs::cmp::PartialEqSpecImpl for RegionProjectionMember {
    open spec fn obeys_eq_spec() -> bool {
        true
    }

    open spec fn eq_spec(&self, o: &Self) -> bool {
        self@ == o@
    }
}

impl RegionProjectionMember {
    pub fn new(
        place: MaybeRemotePlace,
        projection: RegionProjection,
        location: Location,
        direction: RegionProjectionMemberDirection,
    ) -> (r: RegionProjectionMember)
        ensures
            r@ == (RegionProjectionMemberView { place: place@, projection: projection@, location, direction }),
    {
        RegionProjectionMember { place, projection, location, direction }
    }

    pub fn location(&self) -> (r: Location)
        ensures
            r == self.location,
    {
        self.location
    }

    /// The position of the projection among its place's region projections.
    pub fn projection_index(&self, repacker: &PlaceRepacker) -> (r: Option<usize>)
        ensures
            r matches Some(i) ==> i < crate::place::region_projection_vids(repacker, self.projection.place@).len()
                && crate::place::region_projection_vids(repacker, self.projection.place@)[i as int] == self.projection.region,
            r is None ==> !crate::place::region_projection_vids(repacker, self.projection.place@).contains(self.projection.region),
    {
        self.projection.index(repacker)
    }

    /// The local places of the member: the projection's place, then the
    /// member's own place where it is local.
    pub fn maybe_old_places(&self) -> (r: Vec<MaybeOldPlace>)
        ensures
            r@.len() >= 1,
            r@[0]@ == self.projection.place@,
            r@.len() == 2 <==> self.place@ is Local,
            r@.len() <= 2,
            r@.len() == 2 ==> self.place@ == MaybeRemotePlaceView::Local(r@[1]@),
    {
        let mut places = vec![self.projection.place.clone()];
        match &self.place {
            MaybeRemotePlace::Local(p) => places.push(p.clone()),
            MaybeRemotePlace::Remote(_) => {},
        }
        places
    }

    pub fn make_place_old(&mut self, place: &Place, latest: &Latest)
        ensures
            final(self)@ == (RegionProjectionMemberView {
                place: old(self)@.place.make_old(place@, latest@),
                projection: rp_make_old(old(self)@.projection, place@, latest@),
                ..old(self)@
            }),
    {
        self.place.make_place_old(place, latest);
        self.projection.make_place_old(place, latest);
    }
}

#[derive(Debug)]
pub enum BorrowsEdgeKind {
    Reborrow(Reborrow),
    DerefExpansion(DerefExpansion),
    Abstraction(AbstractionEdge),
    RegionProjectionMember(RegionProjectionMember),
}

pub enum BorrowsEdgeKindView {
    Reborrow(ReborrowView),
    DerefExpansion(DerefExpansionView),
    Abstraction(AbstractionTypeView),
    RegionProjectionMember(RegionProjectionMemberView),
}

impl View for BorrowsEdgeKind {
    type V = BorrowsEdgeKindView;

    open spec fn view(&self) -> BorrowsEdgeKindView {
        match self {
            BorrowsEdgeKind::Reborrow(r) => BorrowsEdgeKindView::Reborrow(r@),
            BorrowsEdgeKind::DerefExpansion(d) => BorrowsEdgeKindView::DerefExpansion(d@),
            BorrowsEdgeKind::Abstraction(a) => BorrowsEdgeKindView::Abstraction(a@),
            BorrowsEdgeKind::RegionProjectionMember(m) => BorrowsEdgeKindView::RegionProjectionMember(m@),
        }
    }
}

impl BorrowsEdgeKindView {
    /// The places that the edge makes inaccessible.
    pub open spec fn blocked_places(self) -> Set<MaybeRemotePlaceView> {
        match self {
            BorrowsEdgeKindView::Reborrow(r) => set![r.blocked_place],
            BorrowsEdgeKindView::DerefExpansion(d) => set![MaybeRemotePlaceView::Local(d.base())],
            BorrowsEdgeKindView::Abstraction(a) => a.blocks_places(),
            BorrowsEdgeKindView::RegionProjectionMember(m) => match m.direction {
                RegionProjectionMemberDirection::PlaceIsRegionInput => set![m.place],
                RegionProjectionMemberDirection::PlaceIsRegionOutput => Set::empty(),
            },
        }
    }

    /// The places that hold the blockage.
    pub open spec fn blocked_by_places(self) -> Set<MaybeOldPlaceView> {
        match self {
            BorrowsEdgeKindView::Reborrow(r) => set![r.assigned_place],
            BorrowsEdgeKindView::DerefExpansion(d) => d.children().to_set(),
            BorrowsEdgeKindView::Abstraction(a) => a.blocker_places(),
            BorrowsEdgeKindView::RegionProjectionMember(m) => match m.direction {
                RegionProjectionMemberDirection::PlaceIsRegionInput => set![m.projection.place],
                RegionProjectionMemberDirection::PlaceIsRegionOutput => match m.place {
                    MaybeRemotePlaceView::Local(p) => set![p],
                    MaybeRemotePlaceView::Remote(_) => Set::empty(),
                },
            },
        }
    }

    pub open spec fn is_shared_borrow(self) -> bool {
        match self {
            BorrowsEdgeKindView::Reborrow(r) => r.mutability == Mutability::Not,
            _ => false,
        }
    }

    pub open spec fn make_old(self, place: PlaceView, latest: Map<u32, SnapshotLocation>) -> BorrowsEdgeKindView {
        match self {
            BorrowsEdgeKindView::Reborrow(r) => BorrowsEdgeKindView::Reborrow(r.make_old(place, latest)),
            BorrowsEdgeKindView::DerefExpansion(d) => BorrowsEdgeKindView::DerefExpansion(d.make_old(place, latest)),
            BorrowsEdgeKindView::Abstraction(a) => BorrowsEdgeKindView::Abstraction(a.make_old(place, latest)),
            BorrowsEdgeKindView::RegionProjectionMember(m) => BorrowsEdgeKindView::RegionProjectionMember(RegionProjectionMemberView {
                place: m.place.make_old(place, latest),
                projection: rp_make_old(m.projection, place, latest),
                ..m
            }),
        }
    }

    /// Every occurrence of the place `from` becomes `to`.
    pub open spec fn substitute(self, from: MaybeOldPlaceView, to: MaybeOldPlaceView) -> BorrowsEdgeKindView {
        match self {
            BorrowsEdgeKindView::Reborrow(r) => BorrowsEdgeKindView::Reborrow(r.substitute(from, to)),
            BorrowsEdgeKindView::DerefExpansion(d) => BorrowsEdgeKindView::DerefExpansion(d.substitute(from, to)),
            BorrowsEdgeKindView::Abstraction(a) => BorrowsEdgeKindView::Abstraction(a.substitute(from, to)),
            BorrowsEdgeKindView::RegionProjectionMember(m) => BorrowsEdgeKindView::RegionProjectionMember(RegionProjectionMemberView {
                place: m.place.substitute(from, to),
                projection: rp_substitute(m.projection, from, to),
                ..m
            }),
        }
    }

    /// The region projection `from` becomes `to`, in member edges and in
    /// the inputs and outputs of abstractions.
    pub open spec fn change_projection(self, from: RegionProjectionView, to: RegionProjectionView) -> BorrowsEdgeKindView {
        match self {
            BorrowsEdgeKindView::RegionProjectionMember(m) => {
                if m.projection == from {
                    BorrowsEdgeKindView::RegionProjectionMember(RegionProjectionMemberView { projection: to, ..m })
                } else {
                    self
                }
            },
            BorrowsEdgeKindView::Abstraction(a) => BorrowsEdgeKindView::Abstraction(a.change_projection(from, to)),
            _ => self,
        }
    }

    /// A member edge whose projection lies on `old_place` moves to the
    /// projection of `new_place` at the same position; the positions are
    /// those of `old_vids` and `new_vids`.
    pub open spec fn move_member(self, old_place: MaybeOldPlaceView, new_place: MaybeOldPlaceView, old_vids: Seq<usize>, new_vids: Seq<usize>) -> BorrowsEdgeKindView {
        match self {
            BorrowsEdgeKindView::RegionProjectionMember(m) => {
                let i = index_of(old_vids, m.projection.region);
                if m.projection.place == old_place && i < old_vids.len() && i < new_vids.len() {
                    BorrowsEdgeKindView::RegionProjectionMember(RegionProjectionMemberView {
                        projection: RegionProjectionView { place: new_place, region: new_vids[i as int] },
                        ..m
                    })
                } else {
                    self
                }
            },
            _ => self,
        }
    }

    /// A reborrow assigned to `from` becomes assigned to `to`.
    pub open spec fn move_reborrow(self, from: MaybeOldPlaceView, to: MaybeOldPlaceView) -> BorrowsEdgeKindView {
        match self {
            BorrowsEdgeKindView::Reborrow(r) => {
                if r.assigned_place == from {
                    BorrowsEdgeKindView::Reborrow(ReborrowView { assigned_place: to, ..r })
                } else {
                    self
                }
            },
            _ => self,
        }
    }
}

impl Clone for BorrowsEdgeKind {
    fn clone(&self) -> (r: Self)
        ensures
            r@ == self@,
    {
        match self {
            BorrowsEdgeKind::Reborrow(r) => BorrowsEdgeKind::Reborrow(r.clone()),
            BorrowsEdgeKind::DerefExpansion(d) => BorrowsEdgeKind::DerefExpansion(d.clone()),
            BorrowsEdgeKind::Abstraction(a) => BorrowsEdgeKind::Abstraction(a.clone()),
            BorrowsEdgeKind::RegionProjectionMember(m) => BorrowsEdgeKind::RegionProjectionMember(m.clone()),
        }
    }
}

impl PartialEq for BorrowsEdgeKind {
    fn eq(&self, o: &Self) -> (r: bool) {
        match (self, o) {
            (BorrowsEdgeKind::Reborrow(a), BorrowsEdgeKind::Reborrow(b)) => a == b,
            (BorrowsEdgeKind::DerefExpansion(a), BorrowsEdgeKind::DerefExpansion(b)) => a == b,
            (BorrowsEdgeKind::Abstraction(a), BorrowsEdgeKind::Abstraction(b)) => a == b,
            (BorrowsEdgeKind::RegionProjectionMember(a), BorrowsEdgeKind::RegionProjectionMember(b)) => a == b,
            _ => false,
        }
    }
}

impl vstd::std_specs::cmp::PartialEqSpecImpl for BorrowsEdgeKind {
    open spec fn obeys_eq_spec() -> bool {
        true
    }

    open spec fn eq_spec(&self, o: &Self) -> bool {
        self@ == o@
    }
}

impl BorrowsEdgeKind {
    pub fn is_shared_borrow(&self) -> (r: bool)
        ensures
            r == self@.is_shared_borrow(),
    {
        match self {
            BorrowsEdgeKind::Reborrow(reborrow) => reborrow.mutability == Mutability::Not,
            _ => false,
        }
    }

    /// The places that the edge makes inaccessible.
    pub fn blocked_places(&self) -> (r: Vec<MaybeRemotePlace>)
        ensures
            view_set(r@) == self@.blocked_places(),
    {
        let r = match self {
            BorrowsEdgeKind::Reborrow(reborrow) => vec![reborrow.blocked_place.clone()],
            BorrowsEdgeKind::DerefExpansion(de) => vec![MaybeRemotePlace::Local(de.base())],
            BorrowsEdgeKind::Abstraction(ra) => ra.blocks_places(),
            BorrowsEdgeKind::RegionProjectionMember(member) => match member.direction {
                RegionProjectionMemberDirection::PlaceIsRegionInput => vec![member.place.clone()],
                RegionProjectionMemberDirection::PlaceIsRegionOutput => Vec::new(),
            },
        };
        proof {
            if !(self@ is Abstraction) {
                assert(view_set(r@) =~= self@.blocked_places()) by {
                    if r@.len() == 1 {
                        assert(view_set(r@).contains(r@[0]@));
                    }
                }
            }
        }
        r
    }

    /// The places that hold the blockage.
    pub fn blocked_by_places(&self, _repacker: &PlaceRepacker) -> (r: Vec<MaybeOldPlace>)
        ensures
            view_set(r@) == self@.blocked_by_places(),
    {
        let r = match self {
            BorrowsEdgeKind::Reborrow(reborrow) => vec![reborrow.assigned_place.clone()],
            BorrowsEdgeKind::DerefExpansion(de) => de.expansion(),
            BorrowsEdgeKind::Abstraction(ra) => ra.blocked_by_places(),
            BorrowsEdgeKind::RegionProjectionMember(member) => match member.direction {
                RegionProjectionMemberDirection::PlaceIsRegionInput => vec![member.projection.place.clone()],
                RegionProjectionMemberDirection::PlaceIsRegionOutput => match &member.place {
                    MaybeRemotePlace::Local(p) => vec![p.clone()],
                    MaybeRemotePlace::Remote(_) => Vec::new(),
                },
            },
        };
        proof {
            if let BorrowsEdgeKindView::DerefExpansion(d) = self@ {
                assert forall|x: MaybeOldPlaceView| #[trigger] view_set(r@).contains(x) == d.children().to_set().contains(x) by {
                    if view_set(r@).contains(x) {
                        let w = choose|w: int| 0 <= w < r@.len() && r@[w]@ == x;
                        assert(d.children()[w] == x);
                    }
                    if d.children().contains(x) {
                        let w = choose|w: int| 0 <= w < d.children().len() && d.children()[w] == x;
                        assert(r@[w]@ == x);
                    }
                }
                assert(view_set(r@) =~= self@.blocked_by_places());
            } else if !(self@ is Abstraction) {
                assert(view_set(r@) =~= self@.blocked_by_places()) by {
                    if r@.len() == 1 {
                        assert(view_set(r@).contains(r@[0]@));
                    }
                }
            }
        }
        r
    }

    pub fn blocks_place(&self, place: &MaybeRemotePlace) -> (r: bool)
        ensures
            r == self@.blocked_places().contains(place@),
    {
        contains_remote(&self.blocked_places(), place)
    }

    pub fn blocked_by_place(&self, place: &MaybeOldPlace, repacker: &PlaceRepacker) -> (r: bool)
        ensures
            r == self@.blocked_by_places().contains(place@),
    {
        contains_place(&self.blocked_by_places(repacker), place)
    }

    pub fn make_place_old(&mut self, place: &Place, latest: &Latest)
        ensures
            final(self)@ == old(self)@.make_old(place@, latest@),
    {
        match self {
            BorrowsEdgeKind::Reborrow(r) => r.make_place_old(place, latest),
            BorrowsEdgeKind::DerefExpansion(d) => d.make_place_old(place, latest),
            BorrowsEdgeKind::Abstraction(a) => a.make_place_old(place, latest),
            BorrowsEdgeKind::RegionProjectionMember(m) => m.make_place_old(place, latest),
        }
    }

    pub fn substitute(&mut self, from: &MaybeOldPlace, to: &MaybeOldPlace)
        ensures
            final(self)@ == old(self)@.substitute(from@, to@),
    {
        match self {
            BorrowsEdgeKind::Reborrow(r) => r.substitute(from, to),
            BorrowsEdgeKind::DerefExpansion(d) => d.substitute(from, to),
            BorrowsEdgeKind::Abstraction(a) => a.abstraction_type.substitute(from, to),
            BorrowsEdgeKind::RegionProjectionMember(m) => {
                substitute_remote(&mut m.place, from, to);
                crate::domain::substitute_place(&mut m.projection.place, from, to);
            },
        }
    }

    pub fn change_projection(&mut self, from: &RegionProjection, to: &RegionProjection)
        ensures
            final(self)@ == old(self)@.change_projection(from@, to@),
    {
        match self {
            BorrowsEdgeKind::RegionProjectionMember(m) => {
                if m.projection == *from {
                    m.projection = to.clone();
                }
            },
            BorrowsEdgeKind::Abstraction(a) => a.abstraction_type.change_projection(from, to),
            _ => {},
        }
    }

    pub fn move_member(&mut self, old_place: &MaybeOldPlace, new_place: &MaybeOldPlace, old_vids: &Vec<usize>, new_vids: &Vec<usize>)
        ensures
            final(self)@ == old(self)@.move_member(old_place@, new_place@, old_vids@, new_vids@),
    {
        match self {
            BorrowsEdgeKind::RegionProjectionMember(m) => {
                if m.projection.place == *old_place {
                    let i = position_of(old_vids, m.projection.region);
                    if i < old_vids.len() && i < new_vids.len() {
                        m.projection = RegionProjection { place: new_place.clone(), region: new_vids[i] };
                    }
                }
            },
            _ => {},
        }
    }

    pub fn move_reborrow(&mut self, from: &MaybeOldPlace, to: &MaybeOldPlace)
        ensures
            final(self)@ == old(self)@.move_reborrow(from@, to@),
    {
        match self {
            BorrowsEdgeKind::Reborrow(r) => {
                if r.assigned_place == *from {
                    r.assigned_place = to.clone();
                }
            },
            _ => {},
        }
    }
}

/// The position of the first `v` in `s`; the length of `s` where there is none.
pub open spec fn index_of(s: Seq<usize>, v: usize) -> nat
    decreases s.len(),
{
    if s.len() == 0 {
        0
    } else if s[0] == v {
        0
    } else {
        1 + index_of(s.subrange(1, s.len() as int), v)
    }
}

pub proof fn lemma_index_of(s: Seq<usize>, v: usize, i: int)
    requires
        0 <= i <= s.len(),
        forall|j: int| 0 <= j < i ==> s[j] != v,
        i == s.len() || s[i] == v,
    ensures
        index_of(s, v) == i,
    decreases s.len(),
{
    if s.len() > 0 && i > 0 {
        let t = s.subrange(1, s.len() as int);
        assert forall|j: int| 0 <= j < i - 1 implies t[j] != v by {
            assert(t[j] == s[j + 1]);
        }
        if i < s.len() {
            assert(t[i - 1] == s[i]);
        }
        lemma_index_of(t, v, i - 1);
    }
}

/// The position of the first `v` in `s`.
pub fn position_of(s: &Vec<usize>, v: usize) -> (r: usize)
    ensures
        r == index_of(s@, v),
{
    let mut i: usize = 0;
    while i < s.len()
        invariant
            i <= s@.len(),
            forall|j: int| 0 <= j < i ==> s@[j] != v,
        decreases s@.len() - i,
    {
        if s[i] == v {
            proof {
                lemma_index_of(s@, v, i as int);
            }
            return i;
        }
        i = i + 1;
    }
    proof {
        lemma_index_of(s@, v, i as int);
    }
    i
}

pub fn contains_remote(v: &Vec<MaybeRemotePlace>, p: &MaybeRemotePlace) -> (r: bool)
    ensures
        r == view_set(v@).contains(p@),
{
    let mut i: usize = 0;
    while i < v.len()
        invariant
            i <= v@.len(),
            forall|j: int| 0 <= j < i ==> v@[j]@ != p@,
        decreases v@.len() - i,
    {
        if v[i] == *p {
            proof {
                assert(v@[i as int]@ == p@);
            }
            return true;
        }
        i = i + 1;
    }
    false
}

pub fn contains_place(v: &Vec<MaybeOldPlace>, p: &MaybeOldPlace) -> (r: bool)
    ensures
        r == view_set(v@).contains(p@),
{
    let mut i: usize = 0;
    while i < v.len()
        invariant
            i <= v@.len(),
            forall|j: int| 0 <= j < i ==> v@[j]@ != p@,
        decreases v@.len() - i,
    {
        if v[i] == *p {
            proof {
                assert(v@[i as int]@ == p@);
            }
            return true;
        }
        i = i + 1;
    }
    false
}

/// An edge: a kind with the path conditions under which it applies.
#[derive(Debug)]
pub struct BorrowsEdge {
    pub conditions: PathConditions,
    pub kind: BorrowsEdgeKind,
}

pub struct BorrowsEdgeView {
    pub conditions: Set<PathCondition>,
    pub kind: BorrowsEdgeKindView,
}

impl View for BorrowsEdge {
    type V = BorrowsEdgeView;

    open spec fn view(&self) -> BorrowsEdgeView {
        BorrowsEdgeView { conditions: self.conditions@, kind: self.kind@ }
    }
}

impl Clone for BorrowsEdge {
    fn clone(&self) -> (r: Self)
        ensures
            r@ == self@,
    {
        BorrowsEdge { conditions: self.conditions.clone(), kind: self.kind.clone() }
    }
}

impl PartialEq for BorrowsEdge {
    fn eq(&self, o: &Self) -> (r: bool) {
        self.kind == o.kind && self.conditions.same_as(&o.conditions)
    }
}

impl vstd::std_specs::cmp::PartialEqSpecImpl for BorrowsEdge {
    open spec fn obeys_eq_spec() -> bool {
        true
    }

    open spec fn eq_spec(&self, o: &Self) -> bool {
        self@ == o@
    }
}

impl BorrowsEdge {
    pub fn new(kind: BorrowsEdgeKind, conditions: PathConditions) -> (r: BorrowsEdge)
        ensures
            r@ == (BorrowsEdgeView { conditions: conditions@, kind: kind@ }),
    {
        BorrowsEdge { conditions, kind }
    }

    /// The edge is a shared reborrow.
    pub fn is_shared_borrow(&self) -> (r: bool)
        ensures
            r == self@.kind.is_shared_borrow(),
    {
        self.kind.is_shared_borrow()
    }

    pub fn insert_path_condition(&mut self, pc: PathCondition) -> (grew: bool)
        ensures
            final(self)@ == (BorrowsEdgeView { conditions: old(self)@.conditions.insert(pc), kind: old(self)@.kind }),
            grew == !old(self)@.conditions.contains(pc),
    {
        self.conditions.insert(pc)
    }

    pub fn conditions(&self) -> (r: &PathConditions)
        ensures
            r@ == self@.conditions,
    {
        &self.conditions
    }

    pub fn conditions_mut(&mut self) -> (r: &mut PathConditions)
        ensures
            r@ == old(self)@.conditions,
            final(self)@ == (BorrowsEdgeView { conditions: final(r)@, kind: old(self)@.kind }),
    {
        &mut self.conditions
    }

    pub fn valid_for_path(&self, path: &Vec<usize>) -> (r: bool)
        ensures
            r == valid_for(self@.conditions, path@),
    {
        self.conditions.valid_for_path(path)
    }

    pub fn kind(&self) -> (r: &BorrowsEdgeKind)
        ensures
            r@ == self@.kind,
    {
        &self.kind
    }

    pub fn mut_kind(&mut self) -> (r: &mut BorrowsEdgeKind)
        ensures
            r@ == old(self)@.kind,
            final(self)@ == (BorrowsEdgeView { conditions: old(self)@.conditions, kind: final(r)@ }),
    {
        &mut self.kind
    }

    pub fn blocked_places(&self) -> (r: Vec<MaybeRemotePlace>)
        ensures
            view_set(r@) == self@.kind.blocked_places(),
    {
        self.kind.blocked_places()
    }

    pub fn blocks_place(&self, place: &MaybeOldPlace) -> (r: bool)
        ensures
            r == self@.kind.blocked_places().contains(MaybeRemotePlaceView::Local(place@)),
    {
        self.kind.blocks_place(&MaybeRemotePlace::Local(place.clone()))
    }

    pub fn is_blocked_by_place(&self, place: &MaybeOldPlace, repacker: &PlaceRepacker) -> (r: bool)
        ensures
            r == self@.kind.blocked_by_places().contains(place@),
    {
        self.kind.blocked_by_place(place, repacker)
    }

    /// The places that hold the blockage of this edge.
    pub fn blocked_by_places(&self, repacker: &PlaceRepacker) -> (r: Vec<MaybeOldPlace>)
        ensures
            view_set(r@) == self@.kind.blocked_by_places(),
    {
        self.kind.blocked_by_places(repacker)
    }
}

/// A value with the path conditions under which it applies.
#[derive(Debug)]
pub struct Conditioned<T> {
    pub conditions: PathConditions,
    pub value: T,
}

impl<T: View> View for Conditioned<T> {
    type V = (Set<PathCondition>, T::V);

    open spec fn view(&self) -> (Set<PathCondition>, T::V) {
        (self.conditions@, self.value@)
    }
}

impl Conditioned<Reborrow> {
    pub fn to_borrows_edge(self) -> (r: BorrowsEdge)
        ensures
            r@ == (BorrowsEdgeView { conditions: self.conditions@, kind: BorrowsEdgeKindView::Reborrow(self.value@) }),
    {
        BorrowsEdge::new(BorrowsEdgeKind::Reborrow(self.value), self.conditions)
    }
}

impl Conditioned<DerefExpansion> {
    pub fn to_borrows_edge(self) -> (r: BorrowsEdge)
        ensures
            r@ == (BorrowsEdgeView { conditions: self.conditions@, kind: BorrowsEdgeKindView::DerefExpansion(self.value@) }),
    {
        BorrowsEdge::new(BorrowsEdgeKind::DerefExpansion(self.value), self.conditions)
    }
}

impl Conditioned<AbstractionEdge> {
    pub fn to_borrows_edge(self) -> (r: BorrowsEdge)
        ensures
            r@ == (BorrowsEdgeView { conditions: self.conditions@, kind: BorrowsEdgeKindView::Abstraction(self.value@) }),
    {
        BorrowsEdge::new(BorrowsEdgeKind::Abstraction(self.value), self.conditions)
    }
}


/// Values whose places can be snapshotted when a place is overwritten.
pub trait HasPlaces: View + Sized {
    /// The value after every current place under `place` is snapshotted at
    /// the latest write to its local.
    spec fn made_old(v: Self::V, place: PlaceView, latest: Map<u32, SnapshotLocation>) -> Self::V;

    fn make_place_old(&mut self, place: &Place, latest: &Latest)
        ensures
            final(self)@ == Self::made_old(old(self)@, place@, latest@),
    ;
}

impl HasPlaces for MaybeOldPlace {
    open spec fn made_old(v: MaybeOldPlaceView, place: PlaceView, latest: Map<u32, SnapshotLocation>) -> MaybeOldPlaceView {
        v.make_old(place, latest)
    }

    fn make_place_old(&mut self, place: &Place, latest: &Latest) {
        MaybeOldPlace::make_place_old(self, place, latest)
    }
}

impl HasPlaces for BorrowsEdgeKind {
    open spec fn made_old(v: BorrowsEdgeKindView, place: PlaceView, latest: Map<u32, SnapshotLocation>) -> BorrowsEdgeKindView {
        v.make_old(place, latest)
    }

    fn make_place_old(&mut self, place: &Place, latest: &Latest) {
        BorrowsEdgeKind::make_place_old(self, place, latest)
    }
}

} // verus!
