//! Places: a local with a projection path, current or captured at a
//! snapshot location, and the places that stand for a caller's memory.
use vstd::prelude::*;
use crate::ir::{ProjElem, SnapshotLocation};
use crate::latest::{Latest, latest_of};
use crate::ty::{PlaceRepacker, derefs_ref_at, is_mut_ref_ty, is_ref_ty, lifetimes, region_vars, ty_of};

verus! {

/// A local and the projection path applied to it.
#[derive(Debug)]
pub struct Place {
    pub local: u32,
    pub projection: Vec<ProjElem>,
}

pub struct PlaceView {
    pub local: u32,
    pub projection: Seq<ProjElem>,
}

impl View for Place {
    type V = PlaceView;

    open spec fn view(&self) -> PlaceView {
        PlaceView { local: self.local, projection: self.projection@ }
    }
}

impl PlaceView {
    pub open spec fn project(self, e: ProjElem) -> PlaceView {
        PlaceView { local: self.local, projection: self.projection.push(e) }
    }

    /// `self` is `other` or one of its ancestors.
    pub open spec fn is_prefix(self, other: PlaceView) -> bool {
        self.local == other.local && self.projection.is_prefix_of(other.projection)
    }

    /// No step of the projection goes through a reference.
    pub open spec fn is_owned(self, r: &PlaceRepacker) -> bool {
        forall|i: int| !derefs_ref_at(r, self.local, self.projection, i)
    }

    pub open spec fn ty(self, r: &PlaceRepacker) -> Option<usize> {
        ty_of(r, self.local, self.projection)
    }

    pub open spec fn take(self, n: int) -> PlaceView {
        PlaceView { local: self.local, projection: self.projection.take(n) }
    }
}

pub fn proj_eq(a: &Vec<ProjElem>, b: &Vec<ProjElem>) -> (r: bool)
    ensures
        r == (a@ == b@),
{
    if a.len() != b.len() {
        return false;
    }
    let mut i: usize = 0;
    while i < a.len()
        invariant
            i <= a@.len(),
            a@.len() == b@.len(),
            forall|j: int| 0 <= j < i ==> a@[j] == b@[j],
        decreases a@.len() - i,
    {
        if a[i] != b[i] {
            return false;
        }
        i = i + 1;
    }
    proof {
        assert(a@ =~= b@);
    }
    true
}

pub fn proj_clone(a: &Vec<ProjElem>) -> (r: Vec<ProjElem>)
    ensures
        r@ == a@,
{
    let r = a.clone();
    proof {
        assert(r@ =~= a@);
    }
    r
}

impl Clone for Place {
    fn clone(&self) -> (r: Self)
        ensures
            r@ == self@,
    {
        Place { local: self.local, projection: proj_clone(&self.projection) }
    }
}

impl PartialEq for Place {
    fn eq(&self, o: &Place) -> (r: bool) {
        self.local == o.local && proj_eq(&self.projection, &o.projection)
    }
}

impl vstd::std_specs::cmp::PartialEqSpecImpl for Place {
    open spec fn obeys_eq_spec() -> bool {
        true
    }

    open spec fn eq_spec(&self, o: &Place) -> bool {
        self@ == o@
    }
}

impl Eq for Place {}

impl Place {
    pub fn new(local: u32, projection: Vec<ProjElem>) -> (r: Place)
        ensures
            r@ == (PlaceView { local, projection: projection@ }),
    {
        Place { local, projection }
    }

    /// The bare local.
    pub fn from_local(local: u32) -> (r: Place)
        ensures
            r@ == (PlaceView { local, projection: Seq::<ProjElem>::empty() }),
    {
        Place { local, projection: Vec::new() }
    }

    pub fn is_prefix(&self, other: &Place) -> (r: bool)
        ensures
            r == self@.is_prefix(other@),
    {
        if self.local != other.local || self.projection.len() > other.projection.len() {
            return false;
        }
        let mut i: usize = 0;
        while i < self.projection.len()
            invariant
                i <= self.projection@.len(),
                self.projection@.len() <= other.projection@.len(),
                forall|j: int| 0 <= j < i ==> self.projection@[j] == other.projection@[j],
            decreases self.projection@.len() - i,
        {
            if self.projection[i] != other.projection[i] {
                return false;
            }
            i = i + 1;
        }
        proof {
            assert(self.projection@ =~= other.projection@.subrange(0, self.projection@.len() as int));
        }
        true
    }

    pub fn project_deeper(&self, elem: ProjElem) -> (r: Place)
        ensures
            r@ == self@.project(elem),
    {
        let mut projection = proj_clone(&self.projection);
        projection.push(elem);
        Place { local: self.local, projection }
    }

    pub fn project_deref(&self) -> (r: Place)
        ensures
            r@ == self@.project(ProjElem::Deref),
    {
        self.project_deeper(ProjElem::Deref)
    }

    /// The immediate parent; none for a bare local.
    pub fn prefix_place(&self) -> (r: Option<Place>)
        ensures
            self@.projection.len() == 0 <==> r is None,
            r matches Some(p) ==> p@ == self@.take(self@.projection.len() - 1),
    {
        let n = self.projection.len();
        if n == 0 {
            return None;
        }
        Some(self.prefix_of_len(n - 1))
    }

    /// The ancestor whose projection is the first `n` steps of this one.
    pub fn prefix_of_len(&self, n: usize) -> (r: Place)
        requires
            n <= self@.projection.len(),
        ensures
            r@ == self@.take(n as int),
    {
        let mut projection: Vec<ProjElem> = Vec::new();
        let mut i: usize = 0;
        while i < n
            invariant
                i <= n,
                n <= self.projection@.len(),
                projection@ == self.projection@.take(i as int),
            decreases n - i,
        {
            projection.push(self.projection[i]);
            i = i + 1;
            proof {
                assert(projection@ =~= self.projection@.take(i as int));
            }
        }
        Place { local: self.local, projection }
    }

    pub fn ty(&self, repacker: &PlaceRepacker) -> (r: Option<usize>)
        ensures
            r == self@.ty(repacker),
    {
        let r = repacker.ty_of_prefix(self.local, &self.projection, self.projection.len());
        proof {
            assert(self.projection@.take(self.projection@.len() as int) =~= self.projection@);
        }
        r
    }

    pub fn is_ref(&self, repacker: &PlaceRepacker) -> (r: bool)
        ensures
            r == is_ref_ty(repacker, self@.ty(repacker)),
    {
        let t = self.ty(repacker);
        repacker.is_ref_ty(t)
    }

    pub fn is_mut_ref(&self, repacker: &PlaceRepacker) -> (r: bool)
        ensures
            r == is_mut_ref_ty(repacker, self@.ty(repacker)),
    {
        let t = self.ty(repacker);
        repacker.is_mut_ref_ty(t)
    }

    pub fn is_owned(&self, repacker: &PlaceRepacker) -> (r: bool)
        ensures
            r == self@.is_owned(repacker),
    {
        let n = repacker.owned_prefix_len(self.local, &self.projection);
        proof {
            if n < self.projection@.len() {
                assert(derefs_ref_at(repacker, self@.local, self@.projection, n as int));
            } else {
                assert forall|i: int| !derefs_ref_at(repacker, self.local, self.projection@, i) by {
                    if 0 <= i < n {
                    }
                }
            }
        }
        n == self.projection.len()
    }

    /// The longest ancestor (the place itself included) that is owned.
    pub fn nearest_owned_place(&self, repacker: &PlaceRepacker) -> (r: Place)
        ensures
            r@.is_prefix(self@),
            r@.is_owned(repacker),
            forall|n: int|
                r@.projection.len() < n <= self@.projection.len() ==> !#[trigger] self@.take(n).is_owned(repacker),
    {
        let n = repacker.owned_prefix_len(self.local, &self.projection);
        let r = self.prefix_of_len(n);
        proof {
            assert(r@.projection.is_prefix_of(self@.projection));
            assert(r.local == self.local);
            assert forall|i: int| !derefs_ref_at(repacker, r@.local, r@.projection, i) by {
                if 0 <= i < n {
                    assert(r@.projection.take(i) =~= self@.projection.take(i));
                    assert(r@.projection[i] == self@.projection[i]);
                    assert(!derefs_ref_at(repacker, self.local, self@.projection, i));
                }
            }
            assert forall|m: int| r@.projection.len() < m <= self@.projection.len() implies !#[trigger] self@.take(m).is_owned(repacker) by {
                assert(self@.take(m).projection.take(n as int) =~= self@.projection.take(n as int));
                assert(self@.take(m).projection[n as int] == self@.projection[n as int]);
                assert(derefs_ref_at(repacker, self@.take(m).local, self@.take(m).projection, n as int));
            }
        }
        r
    }
}

/// A place as it was at a snapshot location.
#[derive(Debug)]
pub struct PlaceSnapshot {
    pub place: Place,
    pub at: SnapshotLocation,
}

impl Clone for PlaceSnapshot {
    fn clone(&self) -> (r: Self)
        ensures
            r.place@ == self.place@,
            r.at == self.at,
    {
        PlaceSnapshot { place: self.place.clone(), at: self.at }
    }
}

impl PlaceSnapshot {
    pub fn new(place: Place, at: SnapshotLocation) -> (r: PlaceSnapshot)
        ensures
            r.place@ == place@,
            r.at == at,
    {
        PlaceSnapshot { place, at }
    }
}

/// A place that refers to the present contents, or to the contents as they
/// were at a snapshot location.
#[derive(Debug)]
pub enum MaybeOldPlace {
    Current { place: Place },
    OldPlace(PlaceSnapshot),
}

pub enum MaybeOldPlaceView {
    Current(PlaceView),
    Old(PlaceView, SnapshotLocation),
}

impl View for MaybeOldPlace {
    type V = MaybeOldPlaceView;

    open spec fn view(&self) -> MaybeOldPlaceView {
        match self {
            MaybeOldPlace::Current { place } => MaybeOldPlaceView::Current(place@),
            MaybeOldPlace::OldPlace(s) => MaybeOldPlaceView::Old(s.place@, s.at),
        }
    }
}

impl MaybeOldPlaceView {
    pub open spec fn place(self) -> PlaceView {
        match self {
            MaybeOldPlaceView::Current(p) => p,
            MaybeOldPlaceView::Old(p, _) => p,
        }
    }

    pub open spec fn at(self) -> Option<SnapshotLocation> {
        match self {
            MaybeOldPlaceView::Current(_) => None,
            MaybeOldPlaceView::Old(_, at) => Some(at),
        }
    }

    /// The same place with the snapshot tag of `self`.
    pub open spec fn with_place(self, p: PlaceView) -> MaybeOldPlaceView {
        match self {
            MaybeOldPlaceView::Current(_) => MaybeOldPlaceView::Current(p),
            MaybeOldPlaceView::Old(_, at) => MaybeOldPlaceView::Old(p, at),
        }
    }

    /// A current place under `place` becomes a snapshot at the latest write
    /// to its local; any other place is kept.
    pub open spec fn make_old(self, place: PlaceView, latest: Map<u32, SnapshotLocation>) -> MaybeOldPlaceView {
        match self {
            MaybeOldPlaceView::Current(p) => {
                if place.is_prefix(p) {
                    MaybeOldPlaceView::Old(p, latest_of(latest, p.local))
                } else {
                    self
                }
            },
            _ => self,
        }
    }

    /// Each occurrence of `from` becomes `to`.
    pub open spec fn substitute(self, from: MaybeOldPlaceView, to: MaybeOldPlaceView) -> MaybeOldPlaceView {
        if self == from {
            to
        } else {
            self
        }
    }
}

impl Clone for MaybeOldPlace {
    fn clone(&self) -> (r: Self)
        ensures
            r@ == self@,
    {
        match self {
            MaybeOldPlace::Current { place } => MaybeOldPlace::Current { place: place.clone() },
            MaybeOldPlace::OldPlace(s) => MaybeOldPlace::OldPlace(s.clone()),
        }
    }
}

impl PartialEq for MaybeOldPlace {
    fn eq(&self, o: &MaybeOldPlace) -> (r: bool) {
        match (self, o) {
            (MaybeOldPlace::Current { place: a }, MaybeOldPlace::Current { place: b }) => a == b,
            (MaybeOldPlace::OldPlace(a), MaybeOldPlace::OldPlace(b)) => a.place == b.place && a.at == b.at,
            _ => false,
        }
    }
}

impl vstd::std_specs::cmp::PartialEqSpecImpl for MaybeOldPlace {
    open spec fn obeys_eq_spec() -> bool {
        true
    }

    open spec fn eq_spec(&self, o: &MaybeOldPlace) -> bool {
        self@ == o@
    }
}

impl Eq for MaybeOldPlace {}

impl MaybeOldPlace {
    /// A snapshot at `at` where it is given, else the current place.
    pub fn new(place: Place, at: Option<SnapshotLocation>) -> (r: MaybeOldPlace)
        ensures
            r@ == (match at {
                Some(at) => MaybeOldPlaceView::Old(place@, at),
                None => MaybeOldPlaceView::Current(place@),
            }),
    {
        match at {
            Some(at) => MaybeOldPlace::OldPlace(PlaceSnapshot::new(place, at)),
            None => MaybeOldPlace::Current { place },
        }
    }

    pub fn current(place: Place) -> (r: MaybeOldPlace)
        ensures
            r@ == MaybeOldPlaceView::Current(place@),
    {
        MaybeOldPlace::Current { place }
    }

    pub fn place(&self) -> (r: Place)
        ensures
            r@ == self@.place(),
    {
        match self {
            MaybeOldPlace::Current { place } => place.clone(),
            MaybeOldPlace::OldPlace(s) => s.place.clone(),
        }
    }

    pub fn place_ref(&self) -> (r: &Place)
        ensures
            r@ == self@.place(),
    {
        match self {
            MaybeOldPlace::Current { place } => place,
            MaybeOldPlace::OldPlace(s) => &s.place,
        }
    }

    pub fn location(&self) -> (r: Option<SnapshotLocation>)
        ensures
            r == self@.at(),
    {
        match self {
            MaybeOldPlace::Current { .. } => None,
            MaybeOldPlace::OldPlace(s) => Some(s.at),
        }
    }

    pub fn is_current(&self) -> (r: bool)
        ensures
            r == self@ is Current,
    {
        matches!(self, MaybeOldPlace::Current { .. })
    }

    pub fn is_old(&self) -> (r: bool)
        ensures
            r == self@ is Old,
    {
        matches!(self, MaybeOldPlace::OldPlace(_))
    }

    pub fn as_current(&self) -> (r: Option<Place>)
        ensures
            self@ is Current <==> r is Some,
            r matches Some(p) ==> p@ == self@.place(),
    {
        match self {
            MaybeOldPlace::Current { place } => Some(place.clone()),
            MaybeOldPlace::OldPlace(_) => None,
        }
    }

    pub fn old_place(&self) -> (r: Option<PlaceSnapshot>)
        ensures
            self@ is Old <==> r is Some,
            r matches Some(s) ==> s.place@ == self@.place() && Some(s.at) == self@.at(),
    {
        match self {
            MaybeOldPlace::Current { .. } => None,
            MaybeOldPlace::OldPlace(s) => Some(s.clone()),
        }
    }

    /// The place itself: the type oracle already reports declared regions,
    /// so there is nothing to canonicalise.
    pub fn with_inherent_region(&self, _repacker: &PlaceRepacker) -> (r: MaybeOldPlace)
        ensures
            r@ == self@,
    {
        self.clone()
    }

    pub fn prefix_place(&self) -> (r: Option<MaybeOldPlace>)
        ensures
            self@.place().projection.len() == 0 <==> r is None,
            r matches Some(p) ==> p@ == self@.with_place(
                self@.place().take(self@.place().projection.len() - 1),
            ),
    {
        match self.place_ref().prefix_place() {
            Some(p) => Some(MaybeOldPlace::new(p, self.location())),
            None => None,
        }
    }

    pub fn project_deeper(&self, elem: ProjElem) -> (r: MaybeOldPlace)
        ensures
            r@ == self@.with_place(self@.place().project(elem)),
    {
        MaybeOldPlace::new(self.place_ref().project_deeper(elem), self.location())
    }

    pub fn project_deref(&self) -> (r: MaybeOldPlace)
        ensures
            r@ == self@.with_place(self@.place().project(ProjElem::Deref)),
    {
        self.project_deeper(ProjElem::Deref)
    }

    pub fn ty(&self, repacker: &PlaceRepacker) -> (r: Option<usize>)
        ensures
            r == self@.place().ty(repacker),
    {
        self.place_ref().ty(repacker)
    }

    pub fn is_ref(&self, repacker: &PlaceRepacker) -> (r: bool)
        ensures
            r == is_ref_ty(repacker, self@.place().ty(repacker)),
    {
        self.place_ref().is_ref(repacker)
    }

    pub fn is_mut_ref(&self, repacker: &PlaceRepacker) -> (r: bool)
        ensures
            r == is_mut_ref_ty(repacker, self@.place().ty(repacker)),
    {
        self.place_ref().is_mut_ref(repacker)
    }

    /// The nearest owned ancestor, with the same snapshot tag.
    pub fn nearest_owned_place(&self, repacker: &PlaceRepacker) -> (r: MaybeOldPlace)
        ensures
            r@ == self@.with_place(r@.place()),
            r@.place().is_prefix(self@.place()),
            r@.place().is_owned(repacker),
            forall|n: int|
                r@.place().projection.len() < n <= self@.place().projection.len()
                    ==> !#[trigger] self@.place().take(n).is_owned(repacker),
    {
        MaybeOldPlace::new(self.place_ref().nearest_owned_place(repacker), self.location())
    }

    /// The region projections of this place: one for each region variable of
    /// its type, in the order the type names them.
    pub fn region_projections(&self, repacker: &PlaceRepacker) -> (r: Vec<RegionProjection>)
        ensures
            r@.len() == region_projection_vids(repacker, self@).len(),
            forall|i: int| 0 <= i < r@.len() ==> (#[trigger] r@[i])@ == (RegionProjectionView {
                place: self@,
                region: region_projection_vids(repacker, self@)[i],
            }),
    {
        let mut out: Vec<RegionProjection> = Vec::new();
        match self.ty(repacker) {
            Some(t) => {
                let vids = repacker.region_vars_of(t);
                let mut i: usize = 0;
                while i < vids.len()
                    invariant
                        i <= vids@.len(),
                        vids@ == region_projection_vids(repacker, self@),
                        out@.len() == i,
                        forall|j: int| 0 <= j < i ==> (#[trigger] out@[j])@ == (RegionProjectionView {
                            place: self@,
                            region: vids@[j],
                        }),
                    decreases vids@.len() - i,
                {
                    out.push(RegionProjection { place: self.clone(), region: vids[i] });
                    i = i + 1;
                }
            },
            None => {},
        }
        out
    }

    pub fn has_region_projections(&self, repacker: &PlaceRepacker) -> (r: bool)
        ensures
            r == (region_projection_vids(repacker, self@).len() > 0),
    {
        self.region_projections(repacker).len() > 0
    }

    /// The region projection at position `idx` of this place's type.
    pub fn region_projection(&self, idx: usize, repacker: &PlaceRepacker) -> (r: RegionProjection)
        requires
            idx < region_projection_vids(repacker, self@).len(),
        ensures
            r@ == (RegionProjectionView { place: self@, region: region_projection_vids(repacker, self@)[idx as int] }),
    {
        let mut rps = self.region_projections(repacker);
        rps.swap_remove(idx)
    }

    /// Snapshots this place if it is current and lies under `place`.
    pub fn make_place_old(&mut self, place: &Place, latest: &Latest)
        ensures
            final(self)@ == old(self)@.make_old(place@, latest@),
    {
        let replace = match self {
            MaybeOldPlace::Current { place: p } => place.is_prefix(p),
            MaybeOldPlace::OldPlace(_) => false,
        };
        if replace {
            let p = self.place();
            let at = latest.get(p.local);
            *self = MaybeOldPlace::OldPlace(PlaceSnapshot { place: p, at });
        }
    }
}

/// The region variables of the type of `p`, in order; none when the place is
/// not well typed.
pub open spec fn region_projection_vids(r: &PlaceRepacker, p: MaybeOldPlaceView) -> Seq<usize> {
    match p.place().ty(r) {
        Some(t) => region_vars(lifetimes(r, t)),
        None => Seq::empty(),
    }
}

/// The caller-side memory that a reference parameter borrows from.
#[derive(Clone, Copy, Debug, PartialEq, Eq, Hash, Structural)]
pub struct RemotePlace {
    pub local: u32,
}

impl RemotePlace {
    /// The region projections of the parameter, as it was when the body started.
    pub fn region_projections(&self, repacker: &PlaceRepacker) -> (r: Vec<RegionProjection>)
        ensures
            ({
                let p = MaybeOldPlaceView::Old(
                    PlaceView { local: self.local, projection: Seq::empty() },
                    SnapshotLocation::Join(crate::ir::START_BLOCK),
                );
                &&& r@.len() == region_projection_vids(repacker, p).len()
                &&& forall|i: int| 0 <= i < r@.len() ==> (#[trigger] r@[i])@ == (RegionProjectionView {
                    place: p,
                    region: region_projection_vids(repacker, p)[i],
                })
            }),
    {
        let p = MaybeOldPlace::new(Place::from_local(self.local), Some(SnapshotLocation::Join(crate::ir::START_BLOCK)));
        p.region_projections(repacker)
    }

    pub fn assigned_local(self) -> (r: u32)
        ensures
            r == self.local,
    {
        self.local
    }
}

/// A place of this body, or the caller-side memory behind a parameter.
#[derive(Debug)]
pub enum MaybeRemotePlace {
    Local(MaybeOldPlace),
    Remote(RemotePlace),
}

pub enum MaybeRemotePlaceView {
    Local(MaybeOldPlaceView),
    Remote(RemotePlace),
}

impl View for MaybeRemotePlace {
    type V = MaybeRemotePlaceView;

    open spec fn view(&self) -> MaybeRemotePlaceView {
        match self {
            MaybeRemotePlace::Local(p) => MaybeRemotePlaceView::Local(p@),
            MaybeRemotePlace::Remote(r) => MaybeRemotePlaceView::Remote(*r),
        }
    }
}

impl MaybeRemotePlaceView {
    pub open spec fn make_old(self, place: PlaceView, latest: Map<u32, SnapshotLocation>) -> MaybeRemotePlaceView {
        match self {
            MaybeRemotePlaceView::Local(p) => MaybeRemotePlaceView::Local(p.make_old(place, latest)),
            _ => self,
        }
    }

    pub open spec fn substitute(self, from: MaybeOldPlaceView, to: MaybeOldPlaceView) -> MaybeRemotePlaceView {
        match self {
            MaybeRemotePlaceView::Local(p) => MaybeRemotePlaceView::Local(p.substitute(from, to)),
            _ => self,
        }
    }
}

impl Clone for MaybeRemotePlace {
    fn clone(&self) -> (r: Self)
        ensures
            r@ == self@,
    {
        match self {
            MaybeRemotePlace::Local(p) => MaybeRemotePlace::Local(p.clone()),
            MaybeRemotePlace::Remote(r) => MaybeRemotePlace::Remote(*r),
        }
    }
}

impl PartialEq for MaybeRemotePlace {
    fn eq(&self, o: &MaybeRemotePlace) -> (r: bool) {
        match (self, o) {
            (MaybeRemotePlace::Local(a), MaybeRemotePlace::Local(b)) => a == b,
            (MaybeRemotePlace::Remote(a), MaybeRemotePlace::Remote(b)) => a == b,
            _ => false,
        }
    }
}

impl vstd::std_specs::cmp::PartialEqSpecImpl for MaybeRemotePlace {
    open spec fn obeys_eq_spec() -> bool {
        true
    }

    open spec fn eq_spec(&self, o: &MaybeRemotePlace) -> bool {
        self@ == o@
    }
}

impl Eq for MaybeRemotePlace {}

impl MaybeRemotePlace {
    /// The caller-side place that the parameter `local` borrows from.
    pub fn place_assigned_to_local(local: u32) -> (r: MaybeRemotePlace)
        ensures
            r@ == MaybeRemotePlaceView::Remote(RemotePlace { local }),
    {
        MaybeRemotePlace::Remote(RemotePlace { local })
    }

    pub fn is_old(&self) -> (r: bool)
        ensures
            r == (self@ matches MaybeRemotePlaceView::Local(p) && p is Old),
    {
        match self {
            MaybeRemotePlace::Local(p) => p.is_old(),
            MaybeRemotePlace::Remote(_) => false,
        }
    }

    pub fn as_local_place(&self) -> (r: Option<MaybeOldPlace>)
        ensures
            self@ is Local <==> r is Some,
            r matches Some(p) ==> self@ == MaybeRemotePlaceView::Local(p@),
    {
        match self {
            MaybeRemotePlace::Local(p) => Some(p.clone()),
            MaybeRemotePlace::Remote(_) => None,
        }
    }

    pub fn mir_local(&self) -> (r: u32)
        ensures
            r == match self@ {
                MaybeRemotePlaceView::Local(p) => p.place().local,
                MaybeRemotePlaceView::Remote(rp) => rp.local,
            },
    {
        match self {
            MaybeRemotePlace::Local(p) => p.place_ref().local,
            MaybeRemotePlace::Remote(rp) => rp.local,
        }
    }

    pub fn make_place_old(&mut self, place: &Place, latest: &Latest)
        ensures
            final(self)@ == old(self)@.make_old(place@, latest@),
    {
        match self {
            MaybeRemotePlace::Local(p) => p.make_place_old(place, latest),
            MaybeRemotePlace::Remote(_) => {},
        }
    }
}

/// The part of `place` that lives at the region variable `region` of its type.
#[derive(Debug)]
pub struct RegionProjection {
    pub place: MaybeOldPlace,
    pub region: usize,
}

pub struct RegionProjectionView {
    pub place: MaybeOldPlaceView,
    pub region: usize,
}

impl View for RegionProjection {
    type V = RegionProjectionView;

    open spec fn view(&self) -> RegionProjectionView {
        RegionProjectionView { place: self.place@, region: self.region }
    }
}

impl Clone for RegionProjection {
    fn clone(&self) -> (r: Self)
        ensures
            r@ == self@,
    {
        RegionProjection { place: self.place.clone(), region: self.region }
    }
}

impl PartialEq for RegionProjection {
    fn eq(&self, o: &RegionProjection) -> (r: bool) {
        self.region == o.region && self.place == o.place
    }
}

impl vstd::std_specs::cmp::PartialEqSpecImpl for RegionProjection {
    open spec fn obeys_eq_spec() -> bool {
        true
    }

    open spec fn eq_spec(&self, o: &RegionProjection) -> bool {
        self@ == o@
    }
}

impl Eq for RegionProjection {}

impl RegionProjection {
    pub fn new(region: usize, place: MaybeOldPlace) -> (r: RegionProjection)
        ensures
            r@ == (RegionProjectionView { place: place@, region }),
    {
        RegionProjection { place, region }
    }

    /// The position of this projection among its place's region projections.
    pub fn index(&self, repacker: &PlaceRepacker) -> (r: Option<usize>)
        ensures
            r matches Some(i) ==> i < region_projection_vids(repacker, self.place@).len()
                && region_projection_vids(repacker, self.place@)[i as int] == self.region,
            r is None ==> !region_projection_vids(repacker, self.place@).contains(self.region),
    {
        let rps = self.place.region_projections(repacker);
        let mut i: usize = 0;
        while i < rps.len()
            invariant
                i <= rps@.len(),
                rps@.len() == region_projection_vids(repacker, self.place@).len(),
                forall|j: int| 0 <= j < rps@.len() ==> (#[trigger] rps@[j])@ == (RegionProjectionView {
                    place: self.place@,
                    region: region_projection_vids(repacker, self.place@)[j],
                }),
                forall|j: int| 0 <= j < i ==> region_projection_vids(repacker, self.place@)[j] != self.region,
            decreases rps@.len() - i,
        {
            if rps[i].region == self.region {
                return Some(i);
            }
            i = i + 1;
        }
        None
    }

    pub fn make_place_old(&mut self, place: &Place, latest: &Latest)
        ensures
            final(self)@ == (RegionProjectionView { place: old(self)@.place.make_old(place@, latest@), region: old(self)@.region }),
    {
        self.place.make_place_old(place, latest);
    }
}

} // verus!
