//! Reborrows and the abstraction edges of function calls and loops.
use vstd::prelude::*;
use crate::ir::{DefId, Location, Mutability, RegionKind};
use crate::latest::Latest;
use crate::place::{
    MaybeOldPlace, MaybeOldPlaceView, MaybeRemotePlace, MaybeRemotePlaceView, Place, PlaceView,
    RegionProjection, RegionProjectionView,
};
use crate::ir::SnapshotLocation;

verus! {

/// At `reserve_location` the reference `assigned_place` was created, pointing
/// at `blocked_place` with the given mutability and region.
#[derive(Debug)]
pub struct Reborrow {
    pub blocked_place: MaybeRemotePlace,
    pub assigned_place: MaybeOldPlace,
    pub mutability: Mutability,
    pub reserve_location: Location,
    pub region: RegionKind,
}

pub struct ReborrowView {
    pub blocked_place: MaybeRemotePlaceView,
    pub assigned_place: MaybeOldPlaceView,
    pub mutability: Mutability,
    pub reserve_location: Location,
    pub region: RegionKind,
}

impl View for Reborrow {
    type V = ReborrowView;

    open spec fn view(&self) -> ReborrowView {
        ReborrowView {
            blocked_place: self.blocked_place@,
            assigned_place: self.assigned_place@,
            mutability: self.mutability,
            reserve_location: self.reserve_location,
            region: self.region,
        }
    }
}

impl ReborrowView {
    pub open spec fn make_old(self, place: PlaceView, latest: Map<u32, SnapshotLocation>) -> ReborrowView {
        ReborrowView {
            blocked_place: self.blocked_place.make_old(place, latest),
            assigned_place: self.assigned_place.make_old(place, latest),
            ..self
        }
    }

    pub open spec fn substitute(self, from: MaybeOldPlaceView, to: MaybeOldPlaceView) -> ReborrowView {
        ReborrowView {
            blocked_place: self.blocked_place.substitute(from, to),
            assigned_place: self.assigned_place.substitute(from, to),
            ..self
        }
    }
}

impl Clone for Reborrow {
    fn clone(&self) -> (r: Self)
        ensures
            r@ == self@,
    {
        Reborrow {
            blocked_place: self.blocked_place.clone(),
            assigned_place: self.assigned_place.clone(),
            mutability: self.mutability,
            reserve_location: self.reserve_location,
            region: self.region,
        }
    }
}

impl PartialEq for Reborrow {
    fn eq(&self, o: &Reborrow) -> (r: bool) {
        self.mutability == o.mutability && self.reserve_location == o.reserve_location && self.region
            == o.region && self.blocked_place == o.blocked_place && self.assigned_place
            == o.assigned_place
    }
}

impl vstd::std_specs::cmp::PartialEqSpecImpl for Reborrow {
    open spec fn obeys_eq_spec() -> bool {
        true
    }

    open spec fn eq_spec(&self, o: &Reborrow) -> bool {
        self@ == o@
    }
}

impl Eq for Reborrow {}

impl Reborrow {
    pub fn new(
        blocked_place: MaybeRemotePlace,
        assigned_place: MaybeOldPlace,
        mutability: Mutability,
        reservation_location: Location,
        region: RegionKind,
    ) -> (r: Reborrow)
        ensures
            r@ == (ReborrowView {
                blocked_place: blocked_place@,
                assigned_place: assigned_place@,
                mutability,
                reserve_location: reservation_location,
                region,
            }),
    {
        Reborrow { blocked_place, assigned_place, mutability, reserve_location: reservation_location, region }
    }

    pub fn reserve_location(&self) -> (r: Location)
        ensures
            r == self@.reserve_location,
    {
        self.reserve_location
    }

    /// The region variable of the reborrow, if it has one.
    pub fn region_vid(&self) -> (r: Option<usize>)
        ensures
            r == match self.region {
                RegionKind::Var(v) => Some(v),
                _ => None,
            },
    {
        match self.region {
            RegionKind::Var(v) => Some(v),
            _ => None,
        }
    }

    /// The region variable of the reference that the assigned place is
    /// reached through: the type of its parent, where that is a reference.
    pub fn assiged_place_region_vid(&self, repacker: &crate::ty::PlaceRepacker) -> (r: Option<usize>)
        ensures
            r == assigned_region_vid(repacker, self.assigned_place@.place()),
    {
        match self.assigned_place.place_ref().prefix_place() {
            Some(parent) => {
                match parent.ty(repacker) {
                    Some(t) => {
                        if t < repacker.tys.len() {
                            match repacker.tys[t] {
                                crate::ty::TyKind::Ref { region: RegionKind::Var(v), .. } => Some(v),
                                _ => None,
                            }
                        } else {
                            None
                        }
                    },
                    None => None,
                }
            },
            None => None,
        }
    }

    pub fn make_place_old(&mut self, place: &Place, latest: &Latest)
        ensures
            final(self)@ == old(self)@.make_old(place@, latest@),
    {
        self.blocked_place.make_place_old(place, latest);
        self.assigned_place.make_place_old(place, latest);
    }

    pub fn substitute(&mut self, from: &MaybeOldPlace, to: &MaybeOldPlace)
        ensures
            final(self)@ == old(self)@.substitute(from@, to@),
    {
        substitute_remote(&mut self.blocked_place, from, to);
        substitute_place(&mut self.assigned_place, from, to);
    }
}

pub fn substitute_place(p: &mut MaybeOldPlace, from: &MaybeOldPlace, to: &MaybeOldPlace)
    ensures
        final(p)@ == old(p)@.substitute(from@, to@),
{
    if *p == *from {
        *p = to.clone();
    }
}

pub fn substitute_remote(p: &mut MaybeRemotePlace, from: &MaybeOldPlace, to: &MaybeOldPlace)
    ensures
        final(p)@ == old(p)@.substitute(from@, to@),
{
    match p {
        MaybeRemotePlace::Local(q) => substitute_place(q, from, to),
        MaybeRemotePlace::Remote(_) => {},
    }
}

/// The region variable of the reference type of the parent of `p`.
pub open spec fn assigned_region_vid(r: &crate::ty::PlaceRepacker, p: PlaceView) -> Option<usize> {
    if p.projection.len() == 0 {
        None
    } else {
        match p.take(p.projection.len() - 1).ty(r) {
            Some(t) => {
                if t < r.tys@.len() {
                    match r.tys@[t as int] {
                        crate::ty::TyKind::Ref { region: RegionKind::Var(v), .. } => Some(v),
                        _ => None,
                    }
                } else {
                    None
                }
            },
            None => None,
        }
    }
}

/// An input or output of an abstraction: a place, or a region projection.
#[derive(Debug)]
pub enum AbstractionTarget<T> {
    Place(T),
    RegionProjection(RegionProjection),
}

pub type AbstractionInputTarget = AbstractionTarget<MaybeRemotePlace>;

pub type AbstractionOutputTarget = AbstractionTarget<MaybeOldPlace>;

pub enum AbstractionTargetView<V> {
    Place(V),
    RegionProjection(RegionProjectionView),
}

impl<T: View> View for AbstractionTarget<T> {
    type V = AbstractionTargetView<T::V>;

    open spec fn view(&self) -> AbstractionTargetView<T::V> {
        match self {
            AbstractionTarget::Place(p) => AbstractionTargetView::Place(p@),
            AbstractionTarget::RegionProjection(rp) => AbstractionTargetView::RegionProjection(rp@),
        }
    }
}

pub open spec fn rp_make_old(rp: RegionProjectionView, place: PlaceView, latest: Map<u32, SnapshotLocation>) -> RegionProjectionView {
    RegionProjectionView { place: rp.place.make_old(place, latest), region: rp.region }
}

pub open spec fn rp_substitute(rp: RegionProjectionView, from: MaybeOldPlaceView, to: MaybeOldPlaceView) -> RegionProjectionView {
    RegionProjectionView { place: rp.place.substitute(from, to), region: rp.region }
}

pub open spec fn input_make_old(t: AbstractionTargetView<MaybeRemotePlaceView>, place: PlaceView, latest: Map<u32, SnapshotLocation>) -> AbstractionTargetView<MaybeRemotePlaceView> {
    match t {
        AbstractionTargetView::Place(p) => AbstractionTargetView::Place(p.make_old(place, latest)),
        AbstractionTargetView::RegionProjection(rp) => AbstractionTargetView::RegionProjection(rp_make_old(rp, place, latest)),
    }
}

pub open spec fn output_make_old(t: AbstractionTargetView<MaybeOldPlaceView>, place: PlaceView, latest: Map<u32, SnapshotLocation>) -> AbstractionTargetView<MaybeOldPlaceView> {
    match t {
        AbstractionTargetView::Place(p) => AbstractionTargetView::Place(p.make_old(place, latest)),
        AbstractionTargetView::RegionProjection(rp) => AbstractionTargetView::RegionProjection(rp_make_old(rp, place, latest)),
    }
}

pub open spec fn input_substitute(t: AbstractionTargetView<MaybeRemotePlaceView>, from: MaybeOldPlaceView, to: MaybeOldPlaceView) -> AbstractionTargetView<MaybeRemotePlaceView> {
    match t {
        AbstractionTargetView::Place(p) => AbstractionTargetView::Place(p.substitute(from, to)),
        AbstractionTargetView::RegionProjection(rp) => AbstractionTargetView::RegionProjection(rp_substitute(rp, from, to)),
    }
}

pub open spec fn output_substitute(t: AbstractionTargetView<MaybeOldPlaceView>, from: MaybeOldPlaceView, to: MaybeOldPlaceView) -> AbstractionTargetView<MaybeOldPlaceView> {
    match t {
        AbstractionTargetView::Place(p) => AbstractionTargetView::Place(p.substitute(from, to)),
        AbstractionTargetView::RegionProjection(rp) => AbstractionTargetView::RegionProjection(rp_substitute(rp, from, to)),
    }
}

impl Clone for AbstractionTarget<MaybeRemotePlace> {
    fn clone(&self) -> (r: Self)
        ensures
            r@ == self@,
    {
        match self {
            AbstractionTarget::Place(p) => AbstractionTarget::Place(p.clone()),
            AbstractionTarget::RegionProjection(rp) => AbstractionTarget::RegionProjection(rp.clone()),
        }
    }
}

impl Clone for AbstractionTarget<MaybeOldPlace> {
    fn clone(&self) -> (r: Self)
        ensures
            r@ == self@,
    {
        match self {
            AbstractionTarget::Place(p) => AbstractionTarget::Place(p.clone()),
            AbstractionTarget::RegionProjection(rp) => AbstractionTarget::RegionProjection(rp.clone()),
        }
    }
}

impl PartialEq for AbstractionTarget<MaybeRemotePlace> {
    fn eq(&self, o: &Self) -> (r: bool) {
        match (self, o) {
            (AbstractionTarget::Place(a), AbstractionTarget::Place(b)) => a == b,
            (AbstractionTarget::RegionProjection(a), AbstractionTarget::RegionProjection(b)) => a == b,
            _ => false,
        }
    }
}

impl vstd::std_specs::cmp::PartialEqSpecImpl for AbstractionTarget<MaybeRemotePlace> {
    open spec fn obeys_eq_spec() -> bool {
        true
    }

    open spec fn eq_spec(&self, o: &Self) -> bool {
        self@ == o@
    }
}

impl PartialEq for AbstractionTarget<MaybeOldPlace> {
    fn eq(&self, o: &Self) -> (r: bool) {
        match (self, o) {
            (AbstractionTarget::Place(a), AbstractionTarget::Place(b)) => a == b,
            (AbstractionTarget::RegionProjection(a), AbstractionTarget::RegionProjection(b)) => a == b,
            _ => false,
        }
    }
}

impl vstd::std_specs::cmp::PartialEqSpecImpl for AbstractionTarget<MaybeOldPlace> {
    open spec fn obeys_eq_spec() -> bool {
        true
    }

    open spec fn eq_spec(&self, o: &Self) -> bool {
        self@ == o@
    }
}

impl AbstractionTarget<MaybeRemotePlace> {
    pub fn change_projection(&mut self, from: &RegionProjection, to: &RegionProjection)
        ensures
            final(self)@ == target_change_projection(old(self)@, from@, to@),
    {
        let hit = match self {
            AbstractionTarget::RegionProjection(rp) => *rp == *from,
            _ => false,
        };
        if hit {
            *self = AbstractionTarget::RegionProjection(to.clone());
        }
    }

    /// This input is the local place `place` itself.
    pub fn blocks(&self, place: &MaybeOldPlace) -> (r: bool)
        ensures
            r == (self@ == AbstractionTargetView::Place(MaybeRemotePlaceView::Local(place@))),
    {
        match self {
            AbstractionTarget::Place(MaybeRemotePlace::Local(p)) => p == place,
            _ => false,
        }
    }

    pub fn make_place_old(&mut self, place: &Place, latest: &Latest)
        ensures
            final(self)@ == input_make_old(old(self)@, place@, latest@),
    {
        match self {
            AbstractionTarget::Place(p) => p.make_place_old(place, latest),
            AbstractionTarget::RegionProjection(rp) => rp.make_place_old(place, latest),
        }
    }

    pub fn substitute(&mut self, from: &MaybeOldPlace, to: &MaybeOldPlace)
        ensures
            final(self)@ == input_substitute(old(self)@, from@, to@),
    {
        match self {
            AbstractionTarget::Place(p) => substitute_remote(p, from, to),
            AbstractionTarget::RegionProjection(rp) => substitute_place(&mut rp.place, from, to),
        }
    }
}

impl AbstractionTarget<MaybeOldPlace> {
    pub fn change_projection(&mut self, from: &RegionProjection, to: &RegionProjection)
        ensures
            final(self)@ == target_change_projection(old(self)@, from@, to@),
    {
        let hit = match self {
            AbstractionTarget::RegionProjection(rp) => *rp == *from,
            _ => false,
        };
        if hit {
            *self = AbstractionTarget::RegionProjection(to.clone());
        }
    }

    pub fn make_place_old(&mut self, place: &Place, latest: &Latest)
        ensures
            final(self)@ == output_make_old(old(self)@, place@, latest@),
    {
        match self {
            AbstractionTarget::Place(p) => p.make_place_old(place, latest),
            AbstractionTarget::RegionProjection(rp) => rp.make_place_old(place, latest),
        }
    }

    pub fn substitute(&mut self, from: &MaybeOldPlace, to: &MaybeOldPlace)
        ensures
            final(self)@ == output_substitute(old(self)@, from@, to@),
    {
        match self {
            AbstractionTarget::Place(p) => substitute_place(p, from, to),
            AbstractionTarget::RegionProjection(rp) => substitute_place(&mut rp.place, from, to),
        }
    }

    /// The place that this output makes blocking.
    pub fn blocker_place(&self) -> (r: MaybeOldPlace)
        ensures
            r@ == output_place(self@),
    {
        match self {
            AbstractionTarget::Place(p) => p.clone(),
            AbstractionTarget::RegionProjection(rp) => rp.place.clone(),
        }
    }
}

/// The target, with the region projection `from` replaced by `to`.
pub open spec fn target_change_projection<V>(t: AbstractionTargetView<V>, from: RegionProjectionView, to: RegionProjectionView) -> AbstractionTargetView<V> {
    match t {
        AbstractionTargetView::RegionProjection(rp) => if rp == from { AbstractionTargetView::RegionProjection(to) } else { t },
        _ => t,
    }
}

pub open spec fn output_place(t: AbstractionTargetView<MaybeOldPlaceView>) -> MaybeOldPlaceView {
    match t {
        AbstractionTargetView::Place(p) => p,
        AbstractionTargetView::RegionProjection(rp) => rp.place,
    }
}


/// The views of the elements of `s`, as a set.
pub open spec fn view_set<T: View>(s: Seq<T>) -> Set<T::V> {
    Set::new(|x: T::V| exists|i: int| 0 <= i < s.len() && s[i]@ == x)
}

pub proof fn lemma_view_set_push<T: View>(s: Seq<T>, t: T)
    ensures
        view_set(s.push(t)) == view_set(s).insert(t@),
{
    assert forall|x: T::V| #[trigger] view_set(s.push(t)).contains(x) == view_set(s).insert(t@).contains(x) by {
        if view_set(s.push(t)).contains(x) {
            let w = choose|w: int| 0 <= w < s.push(t).len() && s.push(t)[w]@ == x;
            if w < s.len() {
                assert(s[w]@ == x);
            }
        }
        if view_set(s).contains(x) {
            let w = choose|w: int| 0 <= w < s.len() && s[w]@ == x;
            assert(s.push(t)[w]@ == x);
        }
        if x == t@ {
            assert(s.push(t)[s.len() as int]@ == x);
        }
    }
    assert(view_set(s.push(t)) =~= view_set(s).insert(t@));
}

/// The places among the first `n` inputs.
pub open spec fn input_places(s: Seq<AbstractionTargetView<MaybeRemotePlaceView>>, n: int) -> Set<MaybeRemotePlaceView> {
    Set::new(|p: MaybeRemotePlaceView| exists|k: int| 0 <= k < n && s[k] == AbstractionTargetView::Place(p))
}

/// The places of the first `n` outputs.
pub open spec fn output_places(s: Seq<AbstractionTargetView<MaybeOldPlaceView>>, n: int) -> Set<MaybeOldPlaceView> {
    Set::new(|p: MaybeOldPlaceView| exists|k: int| 0 <= k < n && output_place(s[k]) == p)
}

pub open spec fn views<T: View>(s: Seq<T>) -> Seq<T::V> {
    s.map_values(|t: T| t@)
}

/// A many-to-many dependency: the outputs are blocked by nothing but block the inputs.
#[derive(Debug)]
pub struct AbstractionBlockEdge {
    pub inputs: Vec<AbstractionInputTarget>,
    pub outputs: Vec<AbstractionOutputTarget>,
}

pub struct AbstractionBlockEdgeView {
    pub inputs: Seq<AbstractionTargetView<MaybeRemotePlaceView>>,
    pub outputs: Seq<AbstractionTargetView<MaybeOldPlaceView>>,
}

impl View for AbstractionBlockEdge {
    type V = AbstractionBlockEdgeView;

    open spec fn view(&self) -> AbstractionBlockEdgeView {
        AbstractionBlockEdgeView { inputs: views(self.inputs@), outputs: views(self.outputs@) }
    }
}

impl AbstractionBlockEdgeView {
    /// The input `p` is a place of this edge.
    pub open spec fn blocks(self, p: MaybeRemotePlaceView) -> bool {
        exists|j: int| 0 <= j < self.inputs.len() && self.inputs[j] == AbstractionTargetView::Place(p)
    }

    /// `p` is the place of one of this edge's outputs.
    pub open spec fn blocked_by(self, p: MaybeOldPlaceView) -> bool {
        exists|j: int| 0 <= j < self.outputs.len() && output_place(self.outputs[j]) == p
    }

    pub open spec fn make_old(self, place: PlaceView, latest: Map<u32, SnapshotLocation>) -> AbstractionBlockEdgeView {
        AbstractionBlockEdgeView {
            inputs: self.inputs.map_values(|t| input_make_old(t, place, latest)),
            outputs: self.outputs.map_values(|t| output_make_old(t, place, latest)),
        }
    }

    pub open spec fn change_projection(self, from: RegionProjectionView, to: RegionProjectionView) -> AbstractionBlockEdgeView {
        AbstractionBlockEdgeView {
            inputs: self.inputs.map_values(|t| target_change_projection(t, from, to)),
            outputs: self.outputs.map_values(|t| target_change_projection(t, from, to)),
        }
    }

    pub open spec fn substitute(self, from: MaybeOldPlaceView, to: MaybeOldPlaceView) -> AbstractionBlockEdgeView {
        AbstractionBlockEdgeView {
            inputs: self.inputs.map_values(|t| input_substitute(t, from, to)),
            outputs: self.outputs.map_values(|t| output_substitute(t, from, to)),
        }
    }
}

impl Clone for AbstractionBlockEdge {
    fn clone(&self) -> (r: Self)
        ensures
            r@ == self@,
    {
        let mut inputs: Vec<AbstractionInputTarget> = Vec::new();
        let mut i: usize = 0;
        while i < self.inputs.len()
            invariant
                i <= self.inputs@.len(),
                inputs@.len() == i,
                forall|j: int| 0 <= j < i ==> inputs@[j]@ == self.inputs@[j]@,
            decreases self.inputs@.len() - i,
        {
            inputs.push(self.inputs[i].clone());
            i = i + 1;
        }
        let mut outputs: Vec<AbstractionOutputTarget> = Vec::new();
        let mut k: usize = 0;
        while k < self.outputs.len()
            invariant
                k <= self.outputs@.len(),
                outputs@.len() == k,
                forall|j: int| 0 <= j < k ==> outputs@[j]@ == self.outputs@[j]@,
            decreases self.outputs@.len() - k,
        {
            outputs.push(self.outputs[k].clone());
            k = k + 1;
        }
        proof {
            assert(views(inputs@) =~= views(self.inputs@));
            assert(views(outputs@) =~= views(self.outputs@));
        }
        AbstractionBlockEdge { inputs, outputs }
    }
}

impl PartialEq for AbstractionBlockEdge {
    fn eq(&self, o: &Self) -> (r: bool) {
        if self.inputs.len() != o.inputs.len() || self.outputs.len() != o.outputs.len() {
            proof {
                assert(views(self.inputs@).len() == self.inputs@.len());
                assert(views(o.inputs@).len() == o.inputs@.len());
                assert(views(self.outputs@).len() == self.outputs@.len());
                assert(views(o.outputs@).len() == o.outputs@.len());
            }
            return false;
        }
        let mut i: usize = 0;
        while i < self.inputs.len()
            invariant
                i <= self.inputs@.len(),
                self.inputs@.len() == o.inputs@.len(),
                forall|j: int| 0 <= j < i ==> self.inputs@[j]@ == o.inputs@[j]@,
            decreases self.inputs@.len() - i,
        {
            if self.inputs[i] != o.inputs[i] {
                proof {
                    assert(views(self.inputs@)[i as int] != views(o.inputs@)[i as int]);
                }
                return false;
            }
            i = i + 1;
        }
        let mut k: usize = 0;
        while k < self.outputs.len()
            invariant
                k <= self.outputs@.len(),
                self.outputs@.len() == o.outputs@.len(),
                forall|j: int| 0 <= j < k ==> self.outputs@[j]@ == o.outputs@[j]@,
            decreases self.outputs@.len() - k,
        {
            if self.outputs[k] != o.outputs[k] {
                proof {
                    assert(views(self.outputs@)[k as int] != views(o.outputs@)[k as int]);
                }
                return false;
            }
            k = k + 1;
        }
        proof {
            assert(views(self.inputs@) =~= views(o.inputs@));
            assert(views(self.outputs@) =~= views(o.outputs@));
        }
        true
    }
}

impl vstd::std_specs::cmp::PartialEqSpecImpl for AbstractionBlockEdge {
    open spec fn obeys_eq_spec() -> bool {
        true
    }

    open spec fn eq_spec(&self, o: &Self) -> bool {
        self@ == o@
    }
}

impl AbstractionBlockEdge {
    pub fn new(inputs: Vec<AbstractionInputTarget>, outputs: Vec<AbstractionOutputTarget>) -> (r: AbstractionBlockEdge)
        ensures
            r@ == (AbstractionBlockEdgeView { inputs: views(inputs@), outputs: views(outputs@) }),
    {
        AbstractionBlockEdge { inputs, outputs }
    }

    pub fn inputs(&self) -> (r: Vec<AbstractionInputTarget>)
        ensures
            views(r@) == self@.inputs,
    {
        self.clone().inputs
    }

    pub fn outputs(&self) -> (r: Vec<AbstractionOutputTarget>)
        ensures
            views(r@) == self@.outputs,
    {
        self.clone().outputs
    }

    pub fn blocks(&self, place: &MaybeRemotePlace) -> (r: bool)
        ensures
            r == self@.blocks(place@),
    {
        let mut j: usize = 0;
        while j < self.inputs.len()
            invariant
                j <= self.inputs@.len(),
                forall|k: int| 0 <= k < j ==> self@.inputs[k] != AbstractionTargetView::Place(place@),
            decreases self.inputs@.len() - j,
        {
            let hit = match &self.inputs[j] {
                AbstractionTarget::Place(p) => p == place,
                AbstractionTarget::RegionProjection(_) => false,
            };
            if hit {
                proof {
                    assert(self@.inputs[j as int] == AbstractionTargetView::Place(place@));
                }
                return true;
            }
            j = j + 1;
        }
        false
    }

    /// Appends the places of the inputs to `out`.
    pub fn push_input_places(&self, out: &mut Vec<MaybeRemotePlace>)
        ensures
            view_set(final(out)@) == view_set(old(out)@).union(input_places(self@.inputs, self@.inputs.len() as int)),
    {
        let ghost start = out@;
        let mut j: usize = 0;
        proof {
            assert(input_places(self@.inputs, 0) =~= Set::empty());
            assert(view_set(start).union(Set::empty()) =~= view_set(start));
        }
        while j < self.inputs.len()
            invariant
                j <= self.inputs@.len(),
                self@.inputs.len() == self.inputs@.len(),
                view_set(out@) == view_set(start).union(input_places(self@.inputs, j as int)),
            decreases self.inputs@.len() - j,
        {
            let ghost prev = out@;
            match &self.inputs[j] {
                AbstractionTarget::Place(p) => {
                    out.push(p.clone());
                    proof {
                        lemma_view_set_push(prev, out@.last());
                        assert(prev.push(out@.last()) =~= out@);
                        assert(self@.inputs[j as int] == AbstractionTargetView::Place(out@.last()@));
                        assert(input_places(self@.inputs, j + 1) =~= input_places(self@.inputs, j as int).insert(out@.last()@));
                        assert(view_set(out@) =~= view_set(start).union(input_places(self@.inputs, j + 1)));
                    }
                },
                AbstractionTarget::RegionProjection(_) => {
                    proof {
                        assert(self@.inputs[j as int] is RegionProjection);
                        assert(input_places(self@.inputs, j + 1) =~= input_places(self@.inputs, j as int));
                    }
                },
            }
            j = j + 1;
        }
    }

    /// Appends the places of the outputs to `out`.
    pub fn push_output_places(&self, out: &mut Vec<MaybeOldPlace>)
        ensures
            view_set(final(out)@) == view_set(old(out)@).union(output_places(self@.outputs, self@.outputs.len() as int)),
    {
        let ghost start = out@;
        let mut j: usize = 0;
        proof {
            assert(output_places(self@.outputs, 0) =~= Set::empty());
            assert(view_set(start).union(Set::empty()) =~= view_set(start));
        }
        while j < self.outputs.len()
            invariant
                j <= self.outputs@.len(),
                self@.outputs.len() == self.outputs@.len(),
                view_set(out@) == view_set(start).union(output_places(self@.outputs, j as int)),
            decreases self.outputs@.len() - j,
        {
            let ghost prev = out@;
            out.push(self.outputs[j].blocker_place());
            proof {
                lemma_view_set_push(prev, out@.last());
                assert(prev.push(out@.last()) =~= out@);
                assert(output_place(self@.outputs[j as int]) == out@.last()@);
                assert(output_places(self@.outputs, j + 1) =~= output_places(self@.outputs, j as int).insert(out@.last()@));
                assert(view_set(out@) =~= view_set(start).union(output_places(self@.outputs, j + 1)));
            }
            j = j + 1;
        }
    }

    pub fn make_place_old(&mut self, place: &Place, latest: &Latest)
        ensures
            final(self)@ == old(self)@.make_old(place@, latest@),
    {
        let ghost before = self@;
        let mut i: usize = 0;
        while i < self.inputs.len()
            invariant
                i <= self.inputs@.len(),
                self.inputs@.len() == before.inputs.len(),
                forall|j: int| 0 <= j < i ==> self.inputs@[j]@ == input_make_old(before.inputs[j], place@, latest@),
                forall|j: int| i <= j < self.inputs@.len() ==> self.inputs@[j]@ == before.inputs[j],
                views(self.outputs@) == before.outputs,
            decreases self.inputs@.len() - i,
        {
            let mut t = self.inputs[i].clone();
            t.make_place_old(place, latest);
            self.inputs.set(i, t);
            i = i + 1;
        }
        let mut k: usize = 0;
        while k < self.outputs.len()
            invariant
                k <= self.outputs@.len(),
                self.outputs@.len() == before.outputs.len(),
                forall|j: int| 0 <= j < k ==> self.outputs@[j]@ == output_make_old(before.outputs[j], place@, latest@),
                forall|j: int| k <= j < self.outputs@.len() ==> self.outputs@[j]@ == before.outputs[j],
                self.inputs@.len() == before.inputs.len(),
                forall|j: int| 0 <= j < self.inputs@.len() ==> self.inputs@[j]@ == input_make_old(before.inputs[j], place@, latest@),
            decreases self.outputs@.len() - k,
        {
            let mut t = self.outputs[k].clone();
            t.make_place_old(place, latest);
            self.outputs.set(k, t);
            k = k + 1;
        }
        proof {
            assert(views(self.inputs@) =~= before.make_old(place@, latest@).inputs);
            assert(views(self.outputs@) =~= before.make_old(place@, latest@).outputs);
        }
    }

    pub fn substitute(&mut self, from: &MaybeOldPlace, to: &MaybeOldPlace)
        ensures
            final(self)@ == old(self)@.substitute(from@, to@),
    {
        let ghost before = self@;
        let mut i: usize = 0;
        while i < self.inputs.len()
            invariant
                i <= self.inputs@.len(),
                self.inputs@.len() == before.inputs.len(),
                forall|j: int| 0 <= j < i ==> self.inputs@[j]@ == input_substitute(before.inputs[j], from@, to@),
                forall|j: int| i <= j < self.inputs@.len() ==> self.inputs@[j]@ == before.inputs[j],
                views(self.outputs@) == before.outputs,
            decreases self.inputs@.len() - i,
        {
            let mut t = self.inputs[i].clone();
            t.substitute(from, to);
            self.inputs.set(i, t);
            i = i + 1;
        }
        let mut k: usize = 0;
        while k < self.outputs.len()
            invariant
                k <= self.outputs@.len(),
                self.outputs@.len() == before.outputs.len(),
                forall|j: int| 0 <= j < k ==> self.outputs@[j]@ == output_substitute(before.outputs[j], from@, to@),
                forall|j: int| k <= j < self.outputs@.len() ==> self.outputs@[j]@ == before.outputs[j],
                self.inputs@.len() == before.inputs.len(),
                forall|j: int| 0 <= j < self.inputs@.len() ==> self.inputs@[j]@ == input_substitute(before.inputs[j], from@, to@),
            decreases self.outputs@.len() - k,
        {
            let mut t = self.outputs[k].clone();
            t.substitute(from, to);
            self.outputs.set(k, t);
            k = k + 1;
        }
        proof {
            assert(views(self.inputs@) =~= before.substitute(from@, to@).inputs);
            assert(views(self.outputs@) =~= before.substitute(from@, to@).outputs);
        }
    }

    pub fn change_projection(&mut self, from: &RegionProjection, to: &RegionProjection)
        ensures
            final(self)@ == old(self)@.change_projection(from@, to@),
    {
        let ghost before = self@;
        let mut i: usize = 0;
        while i < self.inputs.len()
            invariant
                i <= self.inputs@.len(),
                self.inputs@.len() == before.inputs.len(),
                forall|j: int| 0 <= j < i ==> self.inputs@[j]@ == target_change_projection(before.inputs[j], from@, to@),
                forall|j: int| i <= j < self.inputs@.len() ==> self.inputs@[j]@ == before.inputs[j],
                views(self.outputs@) == before.outputs,
            decreases self.inputs@.len() - i,
        {
            let mut t = self.inputs[i].clone();
            t.change_projection(from, to);
            self.inputs.set(i, t);
            i = i + 1;
        }
        let mut k: usize = 0;
        while k < self.outputs.len()
            invariant
                k <= self.outputs@.len(),
                self.outputs@.len() == before.outputs.len(),
                forall|j: int| 0 <= j < k ==> self.outputs@[j]@ == target_change_projection(before.outputs[j], from@, to@),
                forall|j: int| k <= j < self.outputs@.len() ==> self.outputs@[j]@ == before.outputs[j],
                self.inputs@.len() == before.inputs.len(),
                forall|j: int| 0 <= j < self.inputs@.len() ==> self.inputs@[j]@ == target_change_projection(before.inputs[j], from@, to@),
            decreases self.outputs@.len() - k,
        {
            let mut t = self.outputs[k].clone();
            t.change_projection(from, to);
            self.outputs.set(k, t);
            k = k + 1;
        }
        proof {
            assert(views(self.inputs@) =~= before.change_projection(from@, to@).inputs);
            assert(views(self.outputs@) =~= before.change_projection(from@, to@).outputs);
        }
    }
}

/// The places that the inputs of `es` name.
pub open spec fn abs_inputs(es: Seq<AbstractionBlockEdgeView>) -> Set<MaybeRemotePlaceView> {
    Set::new(|p: MaybeRemotePlaceView| exists|i: int| 0 <= i < es.len() && #[trigger] input_places(es[i].inputs, es[i].inputs.len() as int).contains(p))
}

/// The places of the outputs of `es`.
pub open spec fn abs_outputs(es: Seq<AbstractionBlockEdgeView>) -> Set<MaybeOldPlaceView> {
    Set::new(|p: MaybeOldPlaceView| exists|i: int| 0 <= i < es.len() && #[trigger] output_places(es[i].outputs, es[i].outputs.len() as int).contains(p))
}

/// The abstraction of a call at `location` of the function `def_id`: one
/// block edge for each argument that carries borrows.
#[derive(Debug)]
pub struct FunctionCallAbstraction {
    pub location: Location,
    pub def_id: DefId,
    pub substs: u64,
    pub edges: Vec<(usize, AbstractionBlockEdge)>,
}

/// The abstraction of a loop with head `block`.
#[derive(Debug)]
pub struct LoopAbstraction {
    pub edge: AbstractionBlockEdge,
    pub block: usize,
}

#[derive(Debug)]
pub enum AbstractionType {
    FunctionCall(FunctionCallAbstraction),
    Loop(LoopAbstraction),
}

pub enum AbstractionTypeView {
    FunctionCall { location: Location, def_id: DefId, substs: u64, edges: Seq<(usize, AbstractionBlockEdgeView)> },
    Loop { edge: AbstractionBlockEdgeView, block: usize },
}

pub open spec fn arg_edge_views(s: Seq<(usize, AbstractionBlockEdge)>) -> Seq<(usize, AbstractionBlockEdgeView)> {
    s.map_values(|e: (usize, AbstractionBlockEdge)| (e.0, e.1@))
}

impl View for AbstractionType {
    type V = AbstractionTypeView;

    open spec fn view(&self) -> AbstractionTypeView {
        match self {
            AbstractionType::FunctionCall(c) => AbstractionTypeView::FunctionCall {
                location: c.location,
                def_id: c.def_id,
                substs: c.substs,
                edges: arg_edge_views(c.edges@),
            },
            AbstractionType::Loop(l) => AbstractionTypeView::Loop { edge: l.edge@, block: l.block },
        }
    }
}

impl AbstractionTypeView {
    pub open spec fn location(self) -> Location {
        match self {
            AbstractionTypeView::FunctionCall { location, .. } => location,
            AbstractionTypeView::Loop { block, .. } => Location { block, statement_index: 0 },
        }
    }

    pub open spec fn edges(self) -> Seq<AbstractionBlockEdgeView> {
        match self {
            AbstractionTypeView::FunctionCall { edges, .. } => edges.map_values(|e: (usize, AbstractionBlockEdgeView)| e.1),
            AbstractionTypeView::Loop { edge, .. } => seq![edge],
        }
    }

    pub open spec fn blocks_places(self) -> Set<MaybeRemotePlaceView> {
        abs_inputs(self.edges())
    }

    pub open spec fn blocker_places(self) -> Set<MaybeOldPlaceView> {
        abs_outputs(self.edges())
    }

    pub open spec fn make_old(self, place: PlaceView, latest: Map<u32, SnapshotLocation>) -> AbstractionTypeView {
        match self {
            AbstractionTypeView::FunctionCall { location, def_id, substs, edges } => AbstractionTypeView::FunctionCall {
                location,
                def_id,
                substs,
                edges: edges.map_values(|e: (usize, AbstractionBlockEdgeView)| (e.0, e.1.make_old(place, latest))),
            },
            AbstractionTypeView::Loop { edge, block } => AbstractionTypeView::Loop { edge: edge.make_old(place, latest), block },
        }
    }

    pub open spec fn change_projection(self, from: RegionProjectionView, to: RegionProjectionView) -> AbstractionTypeView {
        match self {
            AbstractionTypeView::FunctionCall { location, def_id, substs, edges } => AbstractionTypeView::FunctionCall {
                location,
                def_id,
                substs,
                edges: edges.map_values(|e: (usize, AbstractionBlockEdgeView)| (e.0, e.1.change_projection(from, to))),
            },
            AbstractionTypeView::Loop { edge, block } => AbstractionTypeView::Loop { edge: edge.change_projection(from, to), block },
        }
    }

    pub open spec fn substitute(self, from: MaybeOldPlaceView, to: MaybeOldPlaceView) -> AbstractionTypeView {
        match self {
            AbstractionTypeView::FunctionCall { location, def_id, substs, edges } => AbstractionTypeView::FunctionCall {
                location,
                def_id,
                substs,
                edges: edges.map_values(|e: (usize, AbstractionBlockEdgeView)| (e.0, e.1.substitute(from, to))),
            },
            AbstractionTypeView::Loop { edge, block } => AbstractionTypeView::Loop { edge: edge.substitute(from, to), block },
        }
    }
}

fn clone_arg_edges(v: &Vec<(usize, AbstractionBlockEdge)>) -> (r: Vec<(usize, AbstractionBlockEdge)>)
    ensures
        arg_edge_views(r@) == arg_edge_views(v@),
{
    let mut out: Vec<(usize, AbstractionBlockEdge)> = Vec::new();
    let mut i: usize = 0;
    while i < v.len()
        invariant
            i <= v@.len(),
            out@.len() == i,
            forall|j: int| 0 <= j < i ==> out@[j].0 == v@[j].0 && out@[j].1@ == v@[j].1@,
        decreases v@.len() - i,
    {
        out.push((v[i].0, v[i].1.clone()));
        i = i + 1;
    }
    proof {
        assert(arg_edge_views(out@) =~= arg_edge_views(v@));
    }
    out
}

fn arg_edges_eq(a: &Vec<(usize, AbstractionBlockEdge)>, b: &Vec<(usize, AbstractionBlockEdge)>) -> (r: bool)
    ensures
        r == (arg_edge_views(a@) == arg_edge_views(b@)),
{
    if a.len() != b.len() {
        proof {
            assert(arg_edge_views(a@).len() != arg_edge_views(b@).len());
        }
        return false;
    }
    let mut i: usize = 0;
    while i < a.len()
        invariant
            i <= a@.len(),
            a@.len() == b@.len(),
            forall|j: int| 0 <= j < i ==> a@[j].0 == b@[j].0 && a@[j].1@ == b@[j].1@,
        decreases a@.len() - i,
    {
        if a[i].0 != b[i].0 || a[i].1 != b[i].1 {
            proof {
                assert(arg_edge_views(a@)[i as int] != arg_edge_views(b@)[i as int]);
            }
            return false;
        }
        i = i + 1;
    }
    proof {
        assert(arg_edge_views(a@) =~= arg_edge_views(b@));
    }
    true
}

impl FunctionCallAbstraction {
    /// A call abstraction has at least one block edge.
    pub fn new(location: Location, def_id: DefId, substs: u64, edges: Vec<(usize, AbstractionBlockEdge)>) -> (r: FunctionCallAbstraction)
        requires
            edges@.len() > 0,
        ensures
            AbstractionType::FunctionCall(r)@ == (AbstractionTypeView::FunctionCall {
                location,
                def_id,
                substs,
                edges: arg_edge_views(edges@),
            }),
    {
        FunctionCallAbstraction { location, def_id, substs, edges }
    }

    pub fn def_id(&self) -> (r: DefId)
        ensures
            r == self.def_id,
    {
        self.def_id
    }

    /// The interned generic arguments of the call.
    pub fn substs(&self) -> (r: u64)
        ensures
            r == self.substs,
    {
        self.substs
    }

    pub fn location(&self) -> (r: Location)
        ensures
            r == self.location,
    {
        self.location
    }

    pub fn edges(&self) -> (r: &Vec<(usize, AbstractionBlockEdge)>)
        ensures
            r@ == self.edges@,
    {
        &self.edges
    }
}

impl LoopAbstraction {
    pub fn new(edge: AbstractionBlockEdge, block: usize) -> (r: LoopAbstraction)
        ensures
            AbstractionType::Loop(r)@ == (AbstractionTypeView::Loop { edge: edge@, block }),
    {
        LoopAbstraction { edge, block }
    }

    pub fn inputs(&self) -> (r: Vec<AbstractionInputTarget>)
        ensures
            views(r@) == self.edge@.inputs,
    {
        self.edge.inputs()
    }

    pub fn edges(&self) -> (r: Vec<AbstractionBlockEdge>)
        ensures
            r@.len() == 1,
            r@[0]@ == self.edge@,
    {
        vec![self.edge.clone()]
    }

    /// The head of the loop, at its first statement.
    pub fn location(&self) -> (r: Location)
        ensures
            r == (Location { block: self.block, statement_index: 0 }),
    {
        Location { block: self.block, statement_index: 0 }
    }
}

impl Clone for AbstractionType {
    fn clone(&self) -> (r: Self)
        ensures
            r@ == self@,
    {
        match self {
            AbstractionType::FunctionCall(c) => AbstractionType::FunctionCall(FunctionCallAbstraction {
                location: c.location,
                def_id: c.def_id,
                substs: c.substs,
                edges: clone_arg_edges(&c.edges),
            }),
            AbstractionType::Loop(l) => AbstractionType::Loop(LoopAbstraction { edge: l.edge.clone(), block: l.block }),
        }
    }
}

impl PartialEq for AbstractionType {
    fn eq(&self, o: &Self) -> (r: bool) {
        match (self, o) {
            (AbstractionType::FunctionCall(a), AbstractionType::FunctionCall(b)) => {
                a.location == b.location && a.def_id == b.def_id && a.substs == b.substs && arg_edges_eq(&a.edges, &b.edges)
            },
            (AbstractionType::Loop(a), AbstractionType::Loop(b)) => a.block == b.block && a.edge == b.edge,
            _ => false,
        }
    }
}

impl vstd::std_specs::cmp::PartialEqSpecImpl for AbstractionType {
    open spec fn obeys_eq_spec() -> bool {
        true
    }

    open spec fn eq_spec(&self, o: &Self) -> bool {
        self@ == o@
    }
}

impl AbstractionType {
    pub fn location(&self) -> (r: Location)
        ensures
            r == self@.location(),
    {
        match self {
            AbstractionType::FunctionCall(c) => c.location,
            AbstractionType::Loop(l) => l.location(),
        }
    }

    pub fn edges(&self) -> (r: Vec<AbstractionBlockEdge>)
        ensures
            views(r@) == self@.edges(),
    {
        match self {
            AbstractionType::FunctionCall(c) => {
                let mut out: Vec<AbstractionBlockEdge> = Vec::new();
                let mut i: usize = 0;
                while i < c.edges.len()
                    invariant
                        i <= c.edges@.len(),
                        out@.len() == i,
                        forall|j: int| 0 <= j < i ==> out@[j]@ == c.edges@[j].1@,
                    decreases c.edges@.len() - i,
                {
                    out.push(c.edges[i].1.clone());
                    i = i + 1;
                }
                proof {
                    assert(views(out@) =~= self@.edges());
                }
                out
            },
            AbstractionType::Loop(l) => {
                let out = vec![l.edge.clone()];
                proof {
                    assert(views(out@) =~= self@.edges());
                }
                out
            },
        }
    }

    /// The places that the inputs name.
    pub fn blocks_places(&self) -> (r: Vec<MaybeRemotePlace>)
        ensures
            view_set(r@) == self@.blocks_places(),
    {
        let edges = self.edges();
        let mut out: Vec<MaybeRemotePlace> = Vec::new();
        let mut i: usize = 0;
        proof {
            assert(view_set(out@) =~= abs_inputs(views(edges@).take(0)));
        }
        while i < edges.len()
            invariant
                i <= edges@.len(),
                views(edges@) == self@.edges(),
                view_set(out@) == abs_inputs(views(edges@).take(i as int)),
            decreases edges@.len() - i,
        {
            edges[i].push_input_places(&mut out);
            proof {
                let es = views(edges@);
                assert(es[i as int] == edges@[i as int]@);
                assert(abs_inputs(es.take(i + 1)) =~= abs_inputs(es.take(i as int)).union(
                    input_places(es[i as int].inputs, es[i as int].inputs.len() as int))) by {
                    assert forall|p: MaybeRemotePlaceView| #[trigger] abs_inputs(es.take(i + 1)).contains(p) implies
                        abs_inputs(es.take(i as int)).contains(p) || input_places(es[i as int].inputs, es[i as int].inputs.len() as int).contains(p) by {
                        let k = choose|k: int| 0 <= k < es.take(i + 1).len() && #[trigger] input_places(es.take(i + 1)[k].inputs, es.take(i + 1)[k].inputs.len() as int).contains(p);
                        if k < i {
                            assert(es.take(i as int)[k] == es.take(i + 1)[k]);
                        }
                    }
                    assert forall|p: MaybeRemotePlaceView| #[trigger] abs_inputs(es.take(i as int)).contains(p) implies
                        abs_inputs(es.take(i + 1)).contains(p) by {
                        let k = choose|k: int| 0 <= k < es.take(i as int).len() && #[trigger] input_places(es.take(i as int)[k].inputs, es.take(i as int)[k].inputs.len() as int).contains(p);
                        assert(es.take(i as int)[k] == es.take(i + 1)[k]);
                    }
                    assert forall|p: MaybeRemotePlaceView| #[trigger] input_places(es[i as int].inputs, es[i as int].inputs.len() as int).contains(p) implies
                        abs_inputs(es.take(i + 1)).contains(p) by {
                        assert(es.take(i + 1)[i as int] == es[i as int]);
                    }
                }
            }
            i = i + 1;
        }
        proof {
            assert(views(edges@).take(i as int) =~= views(edges@));
        }
        out
    }

    /// The places of the outputs.
    pub fn blocker_places(&self) -> (r: Vec<MaybeOldPlace>)
        ensures
            view_set(r@) == self@.blocker_places(),
    {
        let edges = self.edges();
        let mut out: Vec<MaybeOldPlace> = Vec::new();
        let mut i: usize = 0;
        proof {
            assert(view_set(out@) =~= abs_outputs(views(edges@).take(0)));
        }
        while i < edges.len()
            invariant
                i <= edges@.len(),
                views(edges@) == self@.edges(),
                view_set(out@) == abs_outputs(views(edges@).take(i as int)),
            decreases edges@.len() - i,
        {
            edges[i].push_output_places(&mut out);
            proof {
                let es = views(edges@);
                assert(es[i as int] == edges@[i as int]@);
                assert(abs_outputs(es.take(i + 1)) =~= abs_outputs(es.take(i as int)).union(
                    output_places(es[i as int].outputs, es[i as int].outputs.len() as int))) by {
                    assert forall|p: MaybeOldPlaceView| #[trigger] abs_outputs(es.take(i + 1)).contains(p) implies
                        abs_outputs(es.take(i as int)).contains(p) || output_places(es[i as int].outputs, es[i as int].outputs.len() as int).contains(p) by {
                        let k = choose|k: int| 0 <= k < es.take(i + 1).len() && #[trigger] output_places(es.take(i + 1)[k].outputs, es.take(i + 1)[k].outputs.len() as int).contains(p);
                        if k < i {
                            assert(es.take(i as int)[k] == es.take(i + 1)[k]);
                        }
                    }
                    assert forall|p: MaybeOldPlaceView| #[trigger] abs_outputs(es.take(i as int)).contains(p) implies
                        abs_outputs(es.take(i + 1)).contains(p) by {
                        let k = choose|k: int| 0 <= k < es.take(i as int).len() && #[trigger] output_places(es.take(i as int)[k].outputs, es.take(i as int)[k].outputs.len() as int).contains(p);
                        assert(es.take(i as int)[k] == es.take(i + 1)[k]);
                    }
                    assert forall|p: MaybeOldPlaceView| #[trigger] output_places(es[i as int].outputs, es[i as int].outputs.len() as int).contains(p) implies
                        abs_outputs(es.take(i + 1)).contains(p) by {
                        assert(es.take(i + 1)[i as int] == es[i as int]);
                    }
                }
            }
            i = i + 1;
        }
        proof {
            assert(views(edges@).take(i as int) =~= views(edges@));
        }
        out
    }

    /// All inputs of all block edges, in order.
    pub fn inputs(&self) -> (r: Vec<AbstractionInputTarget>)
        ensures
            forall|t| views(r@).contains(t) <==> exists|i: int| 0 <= i < self@.edges().len() && #[trigger] self@.edges()[i].inputs.contains(t),
    {
        let edges = self.edges();
        let mut out: Vec<AbstractionInputTarget> = Vec::new();
        let mut i: usize = 0;
        while i < edges.len()
            invariant
                i <= edges@.len(),
                views(edges@) == self@.edges(),
                forall|t| views(out@).contains(t) <==> exists|k: int| 0 <= k < i && #[trigger] self@.edges()[k].inputs.contains(t),
            decreases edges@.len() - i,
        {
            let mut more = edges[i].inputs();
            let ghost before = views(out@);
            let ghost added = views(more@);
            out.append(&mut more);
            proof {
                assert(views(out@) =~= before + added);
                assert(self@.edges()[i as int] == edges@[i as int]@);
                assert forall|t| views(out@).contains(t) <==> exists|k: int| 0 <= k < i + 1 && #[trigger] self@.edges()[k].inputs.contains(t) by {
                    if views(out@).contains(t) {
                        let w = choose|w: int| 0 <= w < views(out@).len() && views(out@)[w] == t;
                        if w < before.len() {
                            assert(before.contains(t));
                        } else {
                            assert(added[w - before.len()] == t);
                            assert(self@.edges()[i as int].inputs.contains(t));
                        }
                    }
                    if exists|k: int| 0 <= k < i + 1 && #[trigger] self@.edges()[k].inputs.contains(t) {
                        let k = choose|k: int| 0 <= k < i + 1 && #[trigger] self@.edges()[k].inputs.contains(t);
                        if k < i {
                            assert(before.contains(t));
                            let w = choose|w: int| 0 <= w < before.len() && before[w] == t;
                            assert(views(out@)[w] == t);
                        } else {
                            let w = choose|w: int| 0 <= w < added.len() && added[w] == t;
                            assert(views(out@)[before.len() + w] == t);
                        }
                    }
                }
            }
            i = i + 1;
        }
        out
    }

    /// All outputs of all block edges, in order.
    pub fn outputs(&self) -> (r: Vec<AbstractionOutputTarget>)
        ensures
            forall|t| views(r@).contains(t) <==> exists|i: int| 0 <= i < self@.edges().len() && #[trigger] self@.edges()[i].outputs.contains(t),
    {
        let edges = self.edges();
        let mut out: Vec<AbstractionOutputTarget> = Vec::new();
        let mut i: usize = 0;
        while i < edges.len()
            invariant
                i <= edges@.len(),
                views(edges@) == self@.edges(),
                forall|t| views(out@).contains(t) <==> exists|k: int| 0 <= k < i && #[trigger] self@.edges()[k].outputs.contains(t),
            decreases edges@.len() - i,
        {
            let mut more = edges[i].outputs();
            let ghost before = views(out@);
            let ghost added = views(more@);
            out.append(&mut more);
            proof {
                assert(views(out@) =~= before + added);
                assert(self@.edges()[i as int] == edges@[i as int]@);
                assert forall|t| views(out@).contains(t) <==> exists|k: int| 0 <= k < i + 1 && #[trigger] self@.edges()[k].outputs.contains(t) by {
                    if views(out@).contains(t) {
                        let w = choose|w: int| 0 <= w < views(out@).len() && views(out@)[w] == t;
                        if w < before.len() {
                            assert(before.contains(t));
                        } else {
                            assert(added[w - before.len()] == t);
                            assert(self@.edges()[i as int].outputs.contains(t));
                        }
                    }
                    if exists|k: int| 0 <= k < i + 1 && #[trigger] self@.edges()[k].outputs.contains(t) {
                        let k = choose|k: int| 0 <= k < i + 1 && #[trigger] self@.edges()[k].outputs.contains(t);
                        if k < i {
                            assert(before.contains(t));
                            let w = choose|w: int| 0 <= w < before.len() && before[w] == t;
                            assert(views(out@)[w] == t);
                        } else {
                            let w = choose|w: int| 0 <= w < added.len() && added[w] == t;
                            assert(views(out@)[before.len() + w] == t);
                        }
                    }
                }
            }
            i = i + 1;
        }
        out
    }

    /// Some input names `place`.
    pub fn blocks(&self, place: &MaybeRemotePlace) -> (r: bool)
        ensures
            r == self@.blocks_places().contains(place@),
    {
        let ps = self.blocks_places();
        let mut i: usize = 0;
        while i < ps.len()
            invariant
                i <= ps@.len(),
                view_set(ps@) == self@.blocks_places(),
                forall|j: int| 0 <= j < i ==> ps@[j]@ != place@,
            decreases ps@.len() - i,
        {
            if ps[i] == *place {
                proof {
                    assert(ps@[i as int]@ == place@);
                    assert(view_set(ps@).contains(place@));
                }
                return true;
            }
            i = i + 1;
        }
        false
    }

    pub fn make_place_old(&mut self, place: &Place, latest: &Latest)
        ensures
            final(self)@ == old(self)@.make_old(place@, latest@),
    {
        let ghost orig = self@;
        match self {
            AbstractionType::FunctionCall(c) => {
                let ghost before = arg_edge_views(c.edges@);
                let ghost (loc0, def0, subst0) = (c.location, c.def_id, c.substs);
                let mut i: usize = 0;
                while i < c.edges.len()
                    invariant
                        c.location == loc0,
                        c.def_id == def0,
                        c.substs == subst0,
                        i <= c.edges@.len(),
                        c.edges@.len() == before.len(),
                        forall|j: int| 0 <= j < i ==> c.edges@[j].0 == before[j].0 && c.edges@[j].1@ == before[j].1.make_old(place@, latest@),
                        forall|j: int| i <= j < c.edges@.len() ==> c.edges@[j].0 == before[j].0 && c.edges@[j].1@ == before[j].1,
                    decreases c.edges@.len() - i,
                {
                    let mut e = c.edges[i].1.clone();
                    e.make_place_old(place, latest);
                    let n = c.edges[i].0;
                    c.edges.set(i, (n, e));
                    i = i + 1;
                }
                proof {
                    assert(arg_edge_views(c.edges@) =~= before.map_values(|e: (usize, AbstractionBlockEdgeView)| (e.0, e.1.make_old(place@, latest@))));
                    if let AbstractionTypeView::FunctionCall { edges, .. } = orig.make_old(place@, latest@) {
                        assert(arg_edge_views(c.edges@) =~= edges);
                    }
                }
            },
            AbstractionType::Loop(l) => l.edge.make_place_old(place, latest),
        }
    }

    pub fn substitute(&mut self, from: &MaybeOldPlace, to: &MaybeOldPlace)
        ensures
            final(self)@ == old(self)@.substitute(from@, to@),
    {
        let ghost orig = self@;
        match self {
            AbstractionType::FunctionCall(c) => {
                let ghost before = arg_edge_views(c.edges@);
                let ghost (loc0, def0, subst0) = (c.location, c.def_id, c.substs);
                let mut i: usize = 0;
                while i < c.edges.len()
                    invariant
                        c.location == loc0,
                        c.def_id == def0,
                        c.substs == subst0,
                        i <= c.edges@.len(),
                        c.edges@.len() == before.len(),
                        forall|j: int| 0 <= j < i ==> c.edges@[j].0 == before[j].0 && c.edges@[j].1@ == before[j].1.substitute(from@, to@),
                        forall|j: int| i <= j < c.edges@.len() ==> c.edges@[j].0 == before[j].0 && c.edges@[j].1@ == before[j].1,
                    decreases c.edges@.len() - i,
                {
                    let mut e = c.edges[i].1.clone();
                    e.substitute(from, to);
                    let n = c.edges[i].0;
                    c.edges.set(i, (n, e));
                    i = i + 1;
                }
                proof {
                    assert(arg_edge_views(c.edges@) =~= before.map_values(|e: (usize, AbstractionBlockEdgeView)| (e.0, e.1.substitute(from@, to@))));
                    if let AbstractionTypeView::FunctionCall { edges, .. } = orig.substitute(from@, to@) {
                        assert(arg_edge_views(c.edges@) =~= edges);
                    }
                }
            },
            AbstractionType::Loop(l) => l.edge.substitute(from, to),
        }
    }

    pub fn change_projection(&mut self, from: &RegionProjection, to: &RegionProjection)
        ensures
            final(self)@ == old(self)@.change_projection(from@, to@),
    {
        let ghost orig = self@;
        match self {
            AbstractionType::FunctionCall(c) => {
                let ghost before = arg_edge_views(c.edges@);
                let ghost (loc0, def0, subst0) = (c.location, c.def_id, c.substs);
                let mut i: usize = 0;
                while i < c.edges.len()
                    invariant
                        c.location == loc0,
                        c.def_id == def0,
                        c.substs == subst0,
                        i <= c.edges@.len(),
                        c.edges@.len() == before.len(),
                        forall|j: int| 0 <= j < i ==> c.edges@[j].0 == before[j].0 && c.edges@[j].1@ == before[j].1.change_projection(from@, to@),
                        forall|j: int| i <= j < c.edges@.len() ==> c.edges@[j].0 == before[j].0 && c.edges@[j].1@ == before[j].1,
                    decreases c.edges@.len() - i,
                {
                    let mut e = c.edges[i].1.clone();
                    e.change_projection(from, to);
                    let n = c.edges[i].0;
                    c.edges.set(i, (n, e));
                    i = i + 1;
                }
                proof {
                    assert(arg_edge_views(c.edges@) =~= before.map_values(|e: (usize, AbstractionBlockEdgeView)| (e.0, e.1.change_projection(from@, to@))));
                    if let AbstractionTypeView::FunctionCall { edges, .. } = orig.change_projection(from@, to@) {
                        assert(arg_edge_views(c.edges@) =~= edges);
                    }
                }
            },
            AbstractionType::Loop(l) => l.edge.change_projection(from, to),
        }
    }
}

/// An opaque summary of a function call or a loop.
#[derive(Debug)]
pub struct AbstractionEdge {
    pub abstraction_type: AbstractionType,
}

impl View for AbstractionEdge {
    type V = AbstractionTypeView;

    open spec fn view(&self) -> AbstractionTypeView {
        self.abstraction_type@
    }
}

impl Clone for AbstractionEdge {
    fn clone(&self) -> (r: Self)
        ensures
            r@ == self@,
    {
        AbstractionEdge { abstraction_type: self.abstraction_type.clone() }
    }
}

impl PartialEq for AbstractionEdge {
    fn eq(&self, o: &Self) -> (r: bool) {
        self.abstraction_type == o.abstraction_type
    }
}

impl vstd::std_specs::cmp::PartialEqSpecImpl for AbstractionEdge {
    open spec fn obeys_eq_spec() -> bool {
        true
    }

    open spec fn eq_spec(&self, o: &Self) -> bool {
        self@ == o@
    }
}

impl AbstractionEdge {
    pub fn new(abstraction_type: AbstractionType) -> (r: AbstractionEdge)
        ensures
            r@ == abstraction_type@,
    {
        AbstractionEdge { abstraction_type }
    }

    pub fn location(&self) -> (r: Location)
        ensures
            r == self@.location(),
    {
        self.abstraction_type.location()
    }

    pub fn inputs(&self) -> (r: Vec<AbstractionInputTarget>)
        ensures
            forall|t| views(r@).contains(t) <==> exists|i: int| 0 <= i < self@.edges().len() && #[trigger] self@.edges()[i].inputs.contains(t),
    {
        proof {
            assert(self@ == self.abstraction_type@);
        }
        self.abstraction_type.inputs()
    }

    pub fn outputs(&self) -> (r: Vec<AbstractionOutputTarget>)
        ensures
            forall|t| views(r@).contains(t) <==> exists|i: int| 0 <= i < self@.edges().len() && #[trigger] self@.edges()[i].outputs.contains(t),
    {
        proof {
            assert(self@ == self.abstraction_type@);
        }
        self.abstraction_type.outputs()
    }

    pub fn blocks(&self, place: &MaybeRemotePlace) -> (r: bool)
        ensures
            r == self@.blocks_places().contains(place@),
    {
        self.abstraction_type.blocks(place)
    }

    pub fn blocks_places(&self) -> (r: Vec<MaybeRemotePlace>)
        ensures
            view_set(r@) == self@.blocks_places(),
    {
        self.abstraction_type.blocks_places()
    }

    pub fn blocked_by_places(&self) -> (r: Vec<MaybeOldPlace>)
        ensures
            view_set(r@) == self@.blocker_places(),
    {
        self.abstraction_type.blocker_places()
    }

    pub fn edges(&self) -> (r: Vec<AbstractionBlockEdge>)
        ensures
            views(r@) == self@.edges(),
    {
        self.abstraction_type.edges()
    }

    pub fn make_place_old(&mut self, place: &Place, latest: &Latest)
        ensures
            final(self)@ == old(self)@.make_old(place@, latest@),
    {
        self.abstraction_type.make_place_old(place, latest);
    }
}

} // verus!
