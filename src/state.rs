//! The analysis state of one program point: the borrows graph and the
//! latest-write table.
use vstd::prelude::*;
use crate::ir::{Location, Mutability, RegionKind, SnapshotLocation};
use crate::latest::{Latest, joined, latest_of};
use crate::place::{region_projection_vids, MaybeOldPlace, MaybeOldPlaceView, MaybeRemotePlace, MaybeRemotePlaceView, Place, PlaceView, RegionProjection, RegionProjectionView};
use crate::domain::{AbstractionEdge, Reborrow, ReborrowView, view_set};
use crate::deref_expansion::{DerefExpansion, DerefExpansionView};
use crate::edge::{RegionProjectionMemberView, BorrowsEdge, BorrowsEdgeKind, BorrowsEdgeKindView, BorrowsEdgeView, Conditioned, RegionProjectionMember, RegionProjectionMemberDirection};
use crate::graph::{BorrowsGraph, expansions_cover, lemma_cover_kept, lemma_map_kinds_ext, distinct_kinds, insert_edge, map_kinds, reborrow_at, roots_of, graph_blocks, graph_blocked_by, joined_graph, abstraction_at, has_expansion_of, needs_expansion};
use crate::path_condition::{PathCondition, PathConditions, valid_for};
use crate::ty::PlaceRepacker;
use crate::capability::{CapabilityKind, CapabilityLocal, CapabilitySummary, allocated};
use crate::unblock_graph::{UnblockGraph, deps_scheduled, well_ordered};

verus! {

pub struct BorrowsStateView {
    pub latest: Map<u32, SnapshotLocation>,
    pub graph: Map<BorrowsEdgeKindView, Set<PathCondition>>,
}

/// The state after the place `place` is made old at `location`.
pub open spec fn state_make_old(s: BorrowsStateView, place: PlaceView, location: Location) -> BorrowsStateView {
    BorrowsStateView {
        latest: s.latest.insert(place.local, SnapshotLocation::Location(location)),
        graph: map_kinds(s.graph, |k: BorrowsEdgeKindView| k.make_old(place, s.latest)),
    }
}

/// The region variables of the type of `p`, in order.
pub fn vids_of(p: &MaybeOldPlace, repacker: &PlaceRepacker) -> (r: Vec<usize>)
    ensures
        r@ == region_projection_vids(repacker, p@),
{
    let rps = p.region_projections(repacker);
    let mut out: Vec<usize> = Vec::new();
    let mut i: usize = 0;
    while i < rps.len()
        invariant
            i <= rps@.len(),
            rps@.len() == region_projection_vids(repacker, p@).len(),
            forall|j: int| 0 <= j < rps@.len() ==> (#[trigger] rps@[j])@.region == region_projection_vids(repacker, p@)[j],
            out@ == region_projection_vids(repacker, p@).take(i as int),
        decreases rps@.len() - i,
    {
        out.push(rps[i].region);
        i = i + 1;
        proof {
            assert(out@ =~= region_projection_vids(repacker, p@).take(i as int));
        }
    }
    proof {
        assert(out@ =~= region_projection_vids(repacker, p@));
    }
    out
}

/// `a` and `b` hold the same edges other than member edges.
pub open spec fn same_non_members(a: Map<BorrowsEdgeKindView, Set<PathCondition>>, b: Map<BorrowsEdgeKindView, Set<PathCondition>>) -> bool {
    forall|k: BorrowsEdgeKindView| !(k is RegionProjectionMember) ==> #[trigger] a.contains_key(k) == b.contains_key(k)
        && (a.contains_key(k) ==> a[k] == b[k])
}

/// The locals whose current places the edge `k` blocks.
pub open spec fn written_locals(k: BorrowsEdgeKindView) -> Set<u32> {
    Set::new(|l: u32| exists|p: PlaceView| #[trigger] k.blocked_places().contains(MaybeRemotePlaceView::Local(MaybeOldPlaceView::Current(p))) && p.local == l)
}

/// The latest table after removing the edge `k` at `location`: removing a
/// non-shared edge commits a write to each current place it blocks.
pub open spec fn latest_after_removal(m: Map<u32, SnapshotLocation>, k: BorrowsEdgeKindView, location: Location) -> Map<u32, SnapshotLocation> {
    if k.is_shared_borrow() {
        m
    } else {
        Map::new(
            |l: u32| m.contains_key(l) || written_locals(k).contains(l),
            |l: u32| if written_locals(k).contains(l) { SnapshotLocation::Location(location) } else { m[l] },
        )
    }
}

/// Some non-shared edge of `removed` blocks a current place of local `l`.
pub open spec fn written_by(removed: Set<BorrowsEdgeKindView>, l: u32) -> bool {
    exists|k: BorrowsEdgeKindView| #[trigger] removed.contains(k) && !k.is_shared_borrow() && written_locals(k).contains(l)
}

/// The latest table after the edges `removed` are removed at `location`.
pub open spec fn latest_after_removals(m: Map<u32, SnapshotLocation>, removed: Set<BorrowsEdgeKindView>, location: Location) -> Map<u32, SnapshotLocation> {
    Map::new(
        |l: u32| m.contains_key(l) || written_by(removed, l),
        |l: u32| if written_by(removed, l) { SnapshotLocation::Location(location) } else { m[l] },
    )
}

/// The state after the edges of `removed` are removed at `location`.
pub open spec fn removal_state(s: BorrowsStateView, removed: Set<BorrowsEdgeKindView>, location: Location) -> BorrowsStateView {
    BorrowsStateView {
        latest: latest_after_removals(s.latest, removed, location),
        graph: s.graph.restrict(Set::new(|k: BorrowsEdgeKindView| s.graph.contains_key(k) && !removed.contains(k))),
    }
}

pub proof fn lemma_removals_step(m: Map<u32, SnapshotLocation>, removed: Set<BorrowsEdgeKindView>, k: BorrowsEdgeKindView, location: Location)
    ensures
        latest_after_removal(latest_after_removals(m, removed, location), k, location) == latest_after_removals(m, removed.insert(k), location),
{
    let a = latest_after_removal(latest_after_removals(m, removed, location), k, location);
    let b = latest_after_removals(m, removed.insert(k), location);
    assert forall|l: u32| #[trigger] written_by(removed.insert(k), l) == (written_by(removed, l) || (!k.is_shared_borrow() && written_locals(k).contains(l))) by {
        if written_by(removed.insert(k), l) {
            let k2 = choose|k2: BorrowsEdgeKindView| #[trigger] removed.insert(k).contains(k2) && !k2.is_shared_borrow() && written_locals(k2).contains(l);
            if k2 != k {
                assert(removed.contains(k2));
            }
        }
        if written_by(removed, l) {
            let k2 = choose|k2: BorrowsEdgeKindView| #[trigger] removed.contains(k2) && !k2.is_shared_borrow() && written_locals(k2).contains(l);
            assert(removed.insert(k).contains(k2));
        }
        if !k.is_shared_borrow() && written_locals(k).contains(l) {
            assert(removed.insert(k).contains(k));
        }
    }
    assert(a =~= b);
}

pub proof fn lemma_removals_only_writes(m: Map<u32, SnapshotLocation>, removed: Set<BorrowsEdgeKindView>, location: Location)
    ensures
        only_writes_at(m, latest_after_removals(m, removed, location), location),
{
}

pub proof fn lemma_removals_empty(m: Map<u32, SnapshotLocation>, location: Location)
    ensures
        latest_after_removals(m, Set::empty(), location) == m,
{
    assert(latest_after_removals(m, Set::empty(), location) =~= m);
}

/// The edges of `g` that block `p`.
pub open spec fn blocking_kinds(g: Map<BorrowsEdgeKindView, Set<PathCondition>>, p: MaybeRemotePlaceView) -> Set<BorrowsEdgeKindView> {
    Set::new(|k: BorrowsEdgeKindView| g.contains_key(k) && k.blocked_places().contains(p))
}

/// The reborrows of `g` reserved at `location`.
pub open spec fn reborrows_at(g: Map<BorrowsEdgeKindView, Set<PathCondition>>, location: Location) -> Set<BorrowsEdgeKindView> {
    Set::new(|k: BorrowsEdgeKindView| g.contains_key(k) && reborrow_at(k, location))
}

/// The state after the action `a` is applied at `location`.
pub open spec fn apply_action(s: BorrowsStateView, a: crate::unblock_graph::UnblockActionView, location: Location) -> BorrowsStateView {
    match a {
        crate::unblock_graph::UnblockActionView::TerminateReborrow { reserve_location, .. } =>
            removal_state(s, reborrows_at(s.graph, reserve_location), location),
        crate::unblock_graph::UnblockActionView::Collapse(p, _) =>
            removal_state(s, blocking_kinds(s.graph, MaybeRemotePlaceView::Local(p)), location),
        crate::unblock_graph::UnblockActionView::TerminateAbstraction(loc, _) => BorrowsStateView {
            latest: s.latest,
            graph: s.graph.restrict(Set::new(|k: BorrowsEdgeKindView| s.graph.contains_key(k) && !abstraction_at(k, loc))),
        },
    }
}

/// The state after the actions `acts` are applied in order at `location`.
pub open spec fn apply_actions(s: BorrowsStateView, acts: Seq<crate::unblock_graph::UnblockActionView>, location: Location) -> BorrowsStateView
    decreases acts.len(),
{
    if acts.len() == 0 {
        s
    } else {
        apply_action(apply_actions(s, acts.drop_last(), location), acts.last(), location)
    }
}

/// The edges of `a` that `b` no longer holds.
pub open spec fn removed_kinds(a: Map<BorrowsEdgeKindView, Set<PathCondition>>, b: Map<BorrowsEdgeKindView, Set<PathCondition>>) -> Set<BorrowsEdgeKindView> {
    Set::new(|k: BorrowsEdgeKindView| a.contains_key(k) && !b.contains_key(k))
}

/// The reborrow is assigned to a current place under `place`.
pub open spec fn assigned_under(rb: ReborrowView, place: PlaceView) -> bool {
    match rb.assigned_place {
        MaybeOldPlaceView::Current(ap) => place.is_prefix(ap),
        _ => false,
    }
}

/// The member edge recording `blocked` as an input of the region projection
/// `vid` of the current `place`.
pub open spec fn member_for(blocked: MaybeRemotePlaceView, place: PlaceView, vid: usize, location: Location) -> BorrowsEdgeKindView {
    BorrowsEdgeKindView::RegionProjectionMember(RegionProjectionMemberView {
        place: blocked,
        projection: RegionProjectionView { place: MaybeOldPlaceView::Current(place), region: vid },
        location,
        direction: RegionProjectionMemberDirection::PlaceIsRegionInput,
    })
}

/// `k` is a reborrow assigned under `place` that does not block `place`.
pub open spec fn qualifies(k: BorrowsEdgeKindView, place: PlaceView) -> bool {
    match k {
        BorrowsEdgeKindView::Reborrow(rb) => assigned_under(rb, place)
            && rb.blocked_place != MaybeRemotePlaceView::Local(MaybeOldPlaceView::Current(place)),
        _ => false,
    }
}

/// The blocked place of a reborrow.
pub open spec fn blocked_of(k: BorrowsEdgeKindView) -> MaybeRemotePlaceView {
    match k {
        BorrowsEdgeKindView::Reborrow(rb) => rb.blocked_place,
        _ => MaybeRemotePlaceView::Remote(crate::place::RemotePlace { local: 0 }),
    }
}

/// An edge that blocks a place of the body has an action that removes it.
pub proof fn lemma_blocking_has_action(k: BorrowsEdgeKindView, p: PlaceView)
    requires
        k.blocked_places().contains(MaybeRemotePlaceView::Local(MaybeOldPlaceView::Current(p))),
    ensures
        crate::unblock_graph::action_for(k) is Some,
{
}

/// Once the action of `k` has taken effect, `k` is gone.
pub proof fn lemma_done_removes(g: Map<BorrowsEdgeKindView, Set<PathCondition>>, k: BorrowsEdgeKindView, a: crate::unblock_graph::UnblockActionView)
    requires
        crate::unblock_graph::action_for(k) == Some(a),
        action_done(g, a),
        !(k matches BorrowsEdgeKindView::RegionProjectionMember(m) && m.direction == RegionProjectionMemberDirection::PlaceIsRegionOutput),
    ensures
        !g.contains_key(k),
{
    match k {
        BorrowsEdgeKindView::DerefExpansion(d) => {
            assert(k.blocked_places().contains(MaybeRemotePlaceView::Local(d.base())));
        },
        BorrowsEdgeKindView::RegionProjectionMember(m) => {
            assert(k.blocked_places().contains(m.place));
        },
        _ => {},
    }
}

/// Every entry of `after` is that of `before` or a write at `location`.
pub open spec fn only_writes_at(before: Map<u32, SnapshotLocation>, after: Map<u32, SnapshotLocation>, location: Location) -> bool {
    forall|l: u32| #[trigger] after.contains_key(l) ==> (before.contains_key(l) && after[l] == before[l]) || after[l] == SnapshotLocation::Location(location)
}

/// `b` holds a subset of the edges of `a`, with the same conditions.
pub open spec fn subgraph(b: Map<BorrowsEdgeKindView, Set<PathCondition>>, a: Map<BorrowsEdgeKindView, Set<PathCondition>>) -> bool {
    forall|k: BorrowsEdgeKindView| #[trigger] b.contains_key(k) ==> a.contains_key(k) && b[k] == a[k]
}

/// The state of one program point.
pub struct BorrowsState {
    pub latest: Latest,
    graph: BorrowsGraph,
}

impl View for BorrowsState {
    type V = BorrowsStateView;

    closed spec fn view(&self) -> BorrowsStateView {
        BorrowsStateView { latest: self.latest@, graph: self.graph@ }
    }
}

impl Clone for BorrowsState {
    fn clone(&self) -> (r: Self)
        ensures
            r@ == self@,
            self.wf() ==> r.wf(),
    {
        BorrowsState { latest: self.latest.clone(), graph: self.graph.clone() }
    }
}

impl BorrowsState {
    pub closed spec fn wf(&self) -> bool {
        self.graph.wf()
    }

    pub closed spec fn size(&self) -> nat {
        self.graph.size()
    }

    pub fn new() -> (r: BorrowsState)
        ensures
            r.wf(),
            r@.latest == Map::<u32, SnapshotLocation>::empty(),
            r@.graph == Map::<BorrowsEdgeKindView, Set<PathCondition>>::empty(),
    {
        BorrowsState { latest: Latest::new(), graph: BorrowsGraph::new() }
    }

    pub fn graph(&self) -> (r: &BorrowsGraph)
        ensures
            r@ == self@.graph,
            self.wf() ==> r.wf(),
    {
        &self.graph
    }

    pub fn set_latest(&mut self, place: &Place, location: SnapshotLocation)
        ensures
            final(self).wf() == old(self).wf(),
            final(self)@.latest == old(self)@.latest.insert(place@.local, location),
            final(self)@.graph == old(self)@.graph,
    {
        self.latest.insert(place.local, location);
    }

    pub fn get_latest(&self, place: &Place) -> (r: SnapshotLocation)
        ensures
            r == latest_of(self@.latest, place@.local),
    {
        self.latest.get(place.local)
    }

    /// Inserts the reborrow of `blocked_place` into `assigned_place`.
    pub fn add_reborrow(&mut self, blocked_place: MaybeRemotePlace, assigned_place: Place, mutability: Mutability, location: Location, region: RegionKind)
        requires
            old(self).wf(),
        ensures
            final(self).wf(),
            final(self)@.latest == old(self)@.latest,
            final(self)@.graph == insert_edge(old(self)@.graph, BorrowsEdgeKindView::Reborrow(ReborrowView {
                blocked_place: blocked_place@,
                assigned_place: MaybeOldPlaceView::Current(assigned_place@),
                mutability,
                reserve_location: location,
                region,
            }), set![PathCondition { from: location.block, to: location.block }]),
    {
        let rb = Reborrow::new(blocked_place, MaybeOldPlace::Current { place: assigned_place }, mutability, location, region);
        self.graph.insert(BorrowsEdge::new(BorrowsEdgeKind::Reborrow(rb), PathConditions::at_block(location.block)));
    }

    pub fn add_region_projection_member(&mut self, member: RegionProjectionMember)
        requires
            old(self).wf(),
        ensures
            final(self).wf(),
            final(self)@.latest == old(self)@.latest,
            final(self)@.graph == insert_edge(old(self)@.graph, BorrowsEdgeKindView::RegionProjectionMember(member@),
                set![PathCondition { from: member@.location.block, to: member@.location.block }]),
    {
        let block = member.location.block;
        self.graph.insert(BorrowsEdge::new(BorrowsEdgeKind::RegionProjectionMember(member), PathConditions::at_block(block)));
    }

    pub fn add_region_abstraction(&mut self, abstraction: AbstractionEdge, block: usize)
        requires
            old(self).wf(),
        ensures
            final(self).wf(),
            final(self)@.latest == old(self)@.latest,
            final(self)@.graph == insert_edge(old(self)@.graph, BorrowsEdgeKindView::Abstraction(abstraction@),
                set![PathCondition { from: block, to: block }]),
    {
        self.graph.insert(BorrowsEdge::new(BorrowsEdgeKind::Abstraction(abstraction), PathConditions::at_block(block)));
    }

    pub fn has_reborrow_at_location(&self, location: Location) -> (r: bool)
        requires
            self.wf(),
        ensures
            r == exists|k: BorrowsEdgeKindView| #[trigger] self@.graph.contains_key(k) && reborrow_at(k, location),
    {
        proof {
            assert(self@.graph == self.graph@);
        }
        self.graph.has_reborrow_at_location(location)
    }

    pub fn edges_blocking(&self, place: &MaybeRemotePlace) -> (r: Vec<BorrowsEdge>)
        requires
            self.wf(),
        ensures
            forall|i: int| 0 <= i < r@.len() ==> self@.graph.contains_key((#[trigger] r@[i])@.kind)
                && self@.graph[r@[i]@.kind] == r@[i]@.conditions && r@[i]@.kind.blocked_places().contains(place@),
            forall|k: BorrowsEdgeKindView| #[trigger] self@.graph.contains_key(k) && k.blocked_places().contains(place@)
                ==> exists|i: int| 0 <= i < r@.len() && (#[trigger] r@[i])@.kind == k,
            distinct_kinds(r@),
    {
        self.graph.edges_blocking(place)
    }

    /// The edges of the graph, each kind once.
    pub fn graph_edges(&self) -> (r: Vec<BorrowsEdge>)
        requires
            self.wf(),
        ensures
            forall|i: int| 0 <= i < r@.len() ==> self@.graph.contains_key((#[trigger] r@[i])@.kind)
                && self@.graph[r@[i]@.kind] == r@[i]@.conditions,
            forall|k: BorrowsEdgeKindView| #[trigger] self@.graph.contains_key(k) ==> exists|i: int| 0 <= i < r@.len() && (#[trigger] r@[i])@.kind == k,
            distinct_kinds(r@),
    {
        let edges = self.graph.edges();
        let mut out: Vec<BorrowsEdge> = Vec::new();
        let mut i: usize = 0;
        while i < edges.len()
            invariant
                i <= edges@.len(),
                out@.len() == i,
                forall|j: int| 0 <= j < i ==> (#[trigger] out@[j])@ == edges@[j]@,
            decreases edges@.len() - i,
        {
            out.push(edges[i].clone());
            i = i + 1;
        }
        proof {
            assert forall|k: BorrowsEdgeKindView| #[trigger] self@.graph.contains_key(k) implies exists|j: int| 0 <= j < out@.len() && (#[trigger] out@[j])@.kind == k by {
                let j = choose|j: int| 0 <= j < edges@.len() && (#[trigger] edges@[j])@.kind == k;
                assert(out@[j]@.kind == k);
            }
            assert forall|a: int, b: int| 0 <= a < out@.len() && 0 <= b < out@.len() && a != b implies (#[trigger] out@[a])@.kind != (#[trigger] out@[b])@.kind by {
                assert(edges@[a]@.kind != edges@[b]@.kind);
            }
        }
        out
    }

    pub fn reborrows(&self) -> (r: Vec<Conditioned<Reborrow>>)
        requires
            self.wf(),
        ensures
            forall|i: int| 0 <= i < r@.len() ==> self@.graph.contains_key(BorrowsEdgeKindView::Reborrow((#[trigger] r@[i]).value@))
                && self@.graph[BorrowsEdgeKindView::Reborrow(r@[i].value@)] == r@[i].conditions@,
            forall|k: BorrowsEdgeKindView| #[trigger] self@.graph.contains_key(k) && k is Reborrow
                ==> exists|i: int| 0 <= i < r@.len() && BorrowsEdgeKindView::Reborrow((#[trigger] r@[i]).value@) == k,
            forall|i: int, j: int| 0 <= i < j < r@.len() ==> (#[trigger] r@[i]).value@ != (#[trigger] r@[j]).value@,
    {
        self.graph.reborrows()
    }

    pub fn deref_expansions(&self) -> (r: Vec<Conditioned<DerefExpansion>>)
        requires
            self.wf(),
        ensures
            forall|i: int| 0 <= i < r@.len() ==> self@.graph.contains_key(BorrowsEdgeKindView::DerefExpansion((#[trigger] r@[i]).value@))
                && self@.graph[BorrowsEdgeKindView::DerefExpansion(r@[i].value@)] == r@[i].conditions@,
            forall|k: BorrowsEdgeKindView| #[trigger] self@.graph.contains_key(k) && k is DerefExpansion
                ==> exists|i: int| 0 <= i < r@.len() && BorrowsEdgeKindView::DerefExpansion((#[trigger] r@[i]).value@) == k,
            forall|i: int, j: int| 0 <= i < j < r@.len() ==> (#[trigger] r@[i]).value@ != (#[trigger] r@[j]).value@,
    {
        self.graph.deref_expansions()
    }

    pub fn region_abstractions(&self) -> (r: Vec<Conditioned<AbstractionEdge>>)
        requires
            self.wf(),
        ensures
            forall|i: int| 0 <= i < r@.len() ==> self@.graph.contains_key(BorrowsEdgeKindView::Abstraction((#[trigger] r@[i]).value@))
                && self@.graph[BorrowsEdgeKindView::Abstraction(r@[i].value@)] == r@[i].conditions@,
            forall|k: BorrowsEdgeKindView| #[trigger] self@.graph.contains_key(k) && k is Abstraction
                ==> exists|i: int| 0 <= i < r@.len() && BorrowsEdgeKindView::Abstraction((#[trigger] r@[i]).value@) == k,
            forall|i: int, j: int| 0 <= i < j < r@.len() ==> (#[trigger] r@[i]).value@ != (#[trigger] r@[j]).value@,
    {
        self.graph.abstraction_edges()
    }

    /// The places that some edge blocks and that block nothing themselves.
    pub fn roots(&self, repacker: &PlaceRepacker) -> (r: Vec<MaybeRemotePlace>)
        requires
            self.wf(),
        ensures
            view_set(r@) == roots_of(self@.graph),
    {
        self.graph.roots(repacker)
    }

    pub fn add_path_condition(&mut self, pc: PathCondition) -> (changed: bool)
        requires
            old(self).wf(),
        ensures
            final(self).wf(),
            final(self)@.latest == old(self)@.latest,
            final(self)@.graph == old(self)@.graph.map_values(|c: Set<PathCondition>| c.insert(pc)),
            changed == exists|k: BorrowsEdgeKindView| old(self)@.graph.contains_key(k) && !(#[trigger] old(self)@.graph[k]).contains(pc),
    {
        self.graph.add_path_condition(pc)
    }

    pub fn filter_for_path(&mut self, path: &Vec<usize>)
        requires
            old(self).wf(),
        ensures
            final(self).wf(),
            final(self)@.latest == old(self)@.latest,
            final(self)@.graph == old(self)@.graph.restrict(Set::new(|k: BorrowsEdgeKindView| old(self)@.graph.contains_key(k) && valid_for(old(self)@.graph[k], path@))),
    {
        self.graph.filter_for_path(path)
    }

    /// Replaces every occurrence of `old_place` by `new_place`; returns
    /// whether some edge held it.
    pub fn change_maybe_old_place(&mut self, old_place: &MaybeOldPlace, new_place: &MaybeOldPlace) -> (changed: bool)
        requires
            old(self).wf(),
        ensures
            final(self).wf(),
            final(self)@.latest == old(self)@.latest,
            final(self)@.graph == map_kinds(old(self)@.graph, |k: BorrowsEdgeKindView| k.substitute(old_place@, new_place@)),
            changed == exists|k: BorrowsEdgeKindView| old(self)@.graph.contains_key(k) && #[trigger] k.substitute(old_place@, new_place@) != k,
    {
        let op = crate::graph::KindRewrite::Substitute { old_place: old_place.clone(), new_place: new_place.clone() };
        let r = self.graph.rewrite(&op);
        proof {
            lemma_map_kinds_ext(old(self)@.graph, |k: BorrowsEdgeKindView| op@.apply(k), |k: BorrowsEdgeKindView| k.substitute(old_place@, new_place@));
            if r {
                let k = choose|k: BorrowsEdgeKindView| old(self)@.graph.contains_key(k) && #[trigger] op@.apply(k) != k;
                assert(k.substitute(old_place@, new_place@) != k);
            } else {
                assert forall|k: BorrowsEdgeKindView| old(self)@.graph.contains_key(k) implies #[trigger] k.substitute(old_place@, new_place@) == k by {
                    assert(op@.apply(k) == k);
                }
            }
        }
        r
    }

    pub fn change_region_projection(&mut self, old_projection: &RegionProjection, new_projection: &RegionProjection)
        requires
            old(self).wf(),
        ensures
            final(self).wf(),
            final(self)@.latest == old(self)@.latest,
            final(self)@.graph == map_kinds(old(self)@.graph, |k: BorrowsEdgeKindView| k.change_projection(old_projection@, new_projection@)),
    {
        let op = crate::graph::KindRewrite::ChangeProjection { old_projection: old_projection.clone(), new_projection: new_projection.clone() };
        self.graph.rewrite(&op);
        proof {
            lemma_map_kinds_ext(old(self)@.graph, |k: BorrowsEdgeKindView| op@.apply(k), |k: BorrowsEdgeKindView| k.change_projection(old_projection@, new_projection@));
        }
    }

    pub fn move_reborrows(&mut self, orig_assigned_place: &MaybeOldPlace, new_assigned_place: &MaybeOldPlace)
        requires
            old(self).wf(),
        ensures
            final(self).wf(),
            final(self)@.latest == old(self)@.latest,
            final(self)@.graph == map_kinds(old(self)@.graph, |k: BorrowsEdgeKindView| k.move_reborrow(orig_assigned_place@, new_assigned_place@)),
    {
        let op = crate::graph::KindRewrite::MoveReborrow { from: orig_assigned_place.clone(), to: new_assigned_place.clone() };
        self.graph.rewrite(&op);
        proof {
            lemma_map_kinds_ext(old(self)@.graph, |k: BorrowsEdgeKindView| op@.apply(k), |k: BorrowsEdgeKindView| k.move_reborrow(orig_assigned_place@, new_assigned_place@));
        }
    }

    /// Snapshots every current place under `place` at the latest write to its
    /// local, then records `location` as the latest write to `place`'s local.
    pub fn make_place_old(&mut self, place: &Place, _repacker: &PlaceRepacker, location: Location)
        requires
            old(self).wf(),
        ensures
            final(self).wf(),
            final(self)@ == state_make_old(old(self)@, place@, location),
    {
        let op = crate::graph::KindRewrite::MakeOld { place: place.clone(), latest: self.latest.clone() };
        self.graph.rewrite(&op);
        proof {
            lemma_map_kinds_ext(old(self)@.graph, |k: BorrowsEdgeKindView| op@.apply(k), |k: BorrowsEdgeKindView| k.make_old(place@, old(self)@.latest));
        }
        self.latest.insert(place.local, SnapshotLocation::Location(location));
        proof {
            assert(self@ == state_make_old(old(self)@, place@, location));
        }
    }
}

/// `p` is the current place of a projection of local `l`.
pub open spec fn current_of(p: MaybeRemotePlaceView, l: u32) -> bool {
    match p {
        MaybeRemotePlaceView::Local(MaybeOldPlaceView::Current(q)) => q.local == l,
        _ => false,
    }
}

/// `k` is the reborrow of one of the first `i` entries of `e`.
pub open spec fn listed_upto(e: Seq<Conditioned<Reborrow>>, i: int, k: BorrowsEdgeKindView) -> bool {
    exists|j: int| 0 <= j < i && BorrowsEdgeKindView::Reborrow((#[trigger] e[j]).value@) == k
}

/// Some of the first `b` places is the current place of local `l`.
pub open spec fn written_upto(places: Seq<MaybeRemotePlace>, b: int, l: u32) -> bool {
    exists|y: int| 0 <= y < b && #[trigger] current_of(places[y]@, l)
}

pub open spec fn latest_with_writes(m: Map<u32, SnapshotLocation>, places: Seq<MaybeRemotePlace>, b: int, location: Location) -> Map<u32, SnapshotLocation> {
    Map::new(
        |l: u32| m.contains_key(l) || written_upto(places, b, l),
        |l: u32| if written_upto(places, b, l) { SnapshotLocation::Location(location) } else { m[l] },
    )
}

impl BorrowsState {
    /// Removes `edge`, where the graph holds exactly it; unless the edge is a
    /// shared reborrow, each current place it blocks gets `location` as its
    /// latest write first. Returns whether the edge was removed.
    pub fn remove_edge_and_set_latest(&mut self, edge: &BorrowsEdge, _repacker: &PlaceRepacker, location: Location) -> (removed: bool)
        requires
            old(self).wf(),
        ensures
            final(self).wf(),
            final(self)@.latest == latest_after_removal(old(self)@.latest, edge@.kind, location),
            removed == (old(self)@.graph.contains_key(edge@.kind) && old(self)@.graph[edge@.kind] == edge@.conditions),
            removed ==> final(self)@.graph == old(self)@.graph.remove(edge@.kind),
            !removed ==> final(self)@.graph == old(self)@.graph,
            removed ==> final(self).size() + 1 == old(self).size(),
            !removed ==> final(self).size() == old(self).size(),
    {
        let ghost m = self.latest@;
        let ghost g0 = self@.graph;
        if !edge.is_shared_borrow() {
            let places = edge.blocked_places();
            let mut b: usize = 0;
            proof {
                assert(latest_with_writes(m, places@, 0, location) =~= m);
            }
            while b < places.len()
                invariant
                    b <= places@.len(),
                    self.wf() == old(self).wf(),
                    self@.graph == g0,
                    self.size() == old(self).size(),
                    self.latest@ == latest_with_writes(m, places@, b as int, location),
                decreases places@.len() - b,
            {
                let ghost prev = self.latest@;
                match &places[b] {
                    MaybeRemotePlace::Local(MaybeOldPlace::Current { place }) => {
                        self.latest.insert(place.local, SnapshotLocation::Location(location));
                        proof {
                            assert(current_of(places@[b as int]@, place.local));
                            assert(self.latest@ =~= latest_with_writes(m, places@, b + 1, location)) by {
                                assert forall|l: u32| #[trigger] written_upto(places@, b + 1, l) == (written_upto(places@, b as int, l) || l == place.local) by {
                                    if written_upto(places@, b + 1, l) {
                                        let y = choose|y: int| 0 <= y < b + 1 && #[trigger] current_of(places@[y]@, l);
                                        if y < b {
                                            assert(written_upto(places@, b as int, l));
                                        }
                                    }
                                    if written_upto(places@, b as int, l) {
                                        let y = choose|y: int| 0 <= y < b && #[trigger] current_of(places@[y]@, l);
                                        assert(0 <= y < b + 1);
                                    }
                                }
                            }
                        }
                    },
                    _ => {
                        proof {
                            assert(forall|l: u32| !current_of(places@[b as int]@, l));
                            assert(self.latest@ =~= latest_with_writes(m, places@, b + 1, location)) by {
                                assert forall|l: u32| #[trigger] written_upto(places@, b + 1, l) == written_upto(places@, b as int, l) by {
                                    if written_upto(places@, b + 1, l) {
                                        let y = choose|y: int| 0 <= y < b + 1 && #[trigger] current_of(places@[y]@, l);
                                        if y < b {
                                            assert(written_upto(places@, b as int, l));
                                        }
                                    }
                                    if written_upto(places@, b as int, l) {
                                        let y = choose|y: int| 0 <= y < b && #[trigger] current_of(places@[y]@, l);
                                        assert(0 <= y < b + 1);
                                    }
                                }
                            }
                        }
                    },
                }
                b = b + 1;
            }
            proof {
                let k = edge@.kind;
                assert forall|l: u32| #[trigger] written_upto(places@, places@.len() as int, l) == written_locals(k).contains(l) by {
                    if written_upto(places@, places@.len() as int, l) {
                        let y = choose|y: int| 0 <= y < places@.len() && #[trigger] current_of(places@[y]@, l);
                        assert(view_set(places@).contains(places@[y]@));
                        if let MaybeRemotePlaceView::Local(MaybeOldPlaceView::Current(p)) = places@[y]@ {
                            assert(k.blocked_places().contains(MaybeRemotePlaceView::Local(MaybeOldPlaceView::Current(p))));
                        }
                    }
                    if written_locals(k).contains(l) {
                        let p = choose|p: PlaceView| #[trigger] k.blocked_places().contains(MaybeRemotePlaceView::Local(MaybeOldPlaceView::Current(p))) && p.local == l;
                        assert(view_set(places@).contains(MaybeRemotePlaceView::Local(MaybeOldPlaceView::Current(p))));
                        let y = choose|y: int| 0 <= y < places@.len() && places@[y]@ == MaybeRemotePlaceView::Local(MaybeOldPlaceView::Current(p));
                        assert(current_of(places@[y]@, l));
                    }
                }
                assert(self.latest@ =~= latest_after_removal(m, k, location));
            }
        }
        self.graph.remove(edge)
    }

    /// The reborrows reserved at `location`, with their conditions.
    pub fn reborrow_edges_reserved_at(&self, location: Location) -> (r: Vec<Conditioned<Reborrow>>)
        requires
            self.wf(),
        ensures
            forall|i: int| 0 <= i < r@.len() ==> self@.graph.contains_key(BorrowsEdgeKindView::Reborrow((#[trigger] r@[i]).value@))
                && self@.graph[BorrowsEdgeKindView::Reborrow(r@[i].value@)] == r@[i].conditions@
                && r@[i].value@.reserve_location == location,
            forall|k: BorrowsEdgeKindView| #[trigger] self@.graph.contains_key(k) && reborrow_at(k, location)
                ==> exists|i: int| 0 <= i < r@.len() && BorrowsEdgeKindView::Reborrow((#[trigger] r@[i]).value@) == k,
    {
        let all = self.reborrows();
        let mut out: Vec<Conditioned<Reborrow>> = Vec::new();
        let mut i: usize = 0;
        let ghost all0 = all@;
        while i < all.len()
            invariant
                i <= all@.len(),
                all@ == all0,
                forall|j: int| 0 <= j < all0.len() ==> self@.graph.contains_key(BorrowsEdgeKindView::Reborrow((#[trigger] all0[j]).value@))
                    && self@.graph[BorrowsEdgeKindView::Reborrow(all0[j].value@)] == all0[j].conditions@,
                forall|j: int| 0 <= j < out@.len() ==> self@.graph.contains_key(BorrowsEdgeKindView::Reborrow((#[trigger] out@[j]).value@))
                    && self@.graph[BorrowsEdgeKindView::Reborrow(out@[j].value@)] == out@[j].conditions@
                    && out@[j].value@.reserve_location == location,
                forall|j: int| 0 <= j < i && (#[trigger] all0[j]).value@.reserve_location == location
                    ==> exists|a: int| 0 <= a < out@.len() && (#[trigger] out@[a]).value@ == all0[j].value@,
            decreases all@.len() - i,
        {
            let ghost prev = out@;
            if all[i].value.reserve_location() == location {
                let c = Conditioned { conditions: all[i].conditions.clone(), value: all[i].value.clone() };
                out.push(c);
            }
            proof {
                assert forall|j: int| 0 <= j < i + 1 && (#[trigger] all0[j]).value@.reserve_location == location
                    implies exists|a: int| 0 <= a < out@.len() && (#[trigger] out@[a]).value@ == all0[j].value@ by {
                    if j < i {
                        let a = choose|a: int| 0 <= a < prev.len() && (#[trigger] prev[a]).value@ == all0[j].value@;
                        assert(out@[a] == prev[a]);
                    } else {
                        assert(out@[out@.len() - 1].value@ == all0[j].value@);
                    }
                }
            }
            i = i + 1;
        }
        proof {
            assert forall|k: BorrowsEdgeKindView| #[trigger] self@.graph.contains_key(k) && reborrow_at(k, location)
                implies exists|a: int| 0 <= a < out@.len() && BorrowsEdgeKindView::Reborrow((#[trigger] out@[a]).value@) == k by {
                let j = choose|j: int| 0 <= j < all0.len() && BorrowsEdgeKindView::Reborrow((#[trigger] all0[j]).value@) == k;
                let a = choose|a: int| 0 <= a < out@.len() && (#[trigger] out@[a]).value@ == all0[j].value@;
            }
        }
        out
    }

    /// Removes every reborrow reserved at `reserve_location`, recording
    /// `kill_location` as the latest write of what they blocked. Returns
    /// whether there was one.
    pub fn kill_reborrows(&mut self, reserve_location: Location, kill_location: Location, repacker: &PlaceRepacker) -> (killed: bool)
        requires
            old(self).wf(),
        ensures
            final(self).wf(),
            killed == exists|k: BorrowsEdgeKindView| #[trigger] old(self)@.graph.contains_key(k) && reborrow_at(k, reserve_location),
            final(self)@.graph == old(self)@.graph.restrict(Set::new(|k: BorrowsEdgeKindView| old(self)@.graph.contains_key(k) && !reborrow_at(k, reserve_location))),
            only_writes_at(old(self)@.latest, final(self)@.latest, kill_location),
            final(self)@ == removal_state(old(self)@, reborrows_at(old(self)@.graph, reserve_location), kill_location),
    {
        let ghost g0 = self@.graph;
        let ghost m0 = self@.latest;
        let edges = self.reborrow_edges_reserved_at(reserve_location);
        if edges.len() == 0 {
            proof {
                assert forall|k: BorrowsEdgeKindView| #[trigger] g0.contains_key(k) implies !reborrow_at(k, reserve_location) by {
                    if reborrow_at(k, reserve_location) {
                        let i = choose|i: int| 0 <= i < edges@.len() && BorrowsEdgeKindView::Reborrow((#[trigger] edges@[i]).value@) == k;
                    }
                }
                assert(self@.graph =~= g0.restrict(Set::new(|k: BorrowsEdgeKindView| g0.contains_key(k) && !reborrow_at(k, reserve_location))));
                assert(reborrows_at(g0, reserve_location) =~= Set::empty());
                lemma_removals_empty(m0, kill_location);
                assert(self@.graph =~= removal_state(old(self)@, reborrows_at(g0, reserve_location), kill_location).graph);
            }
            return false;
        }
        proof {
            assert(g0.contains_key(BorrowsEdgeKindView::Reborrow(edges@[0].value@)));
            assert(reborrow_at(BorrowsEdgeKindView::Reborrow(edges@[0].value@), reserve_location));
        }
        let ghost e0 = edges@;
        let mut i: usize = 0;
        proof {
            assert(Set::new(|k: BorrowsEdgeKindView| listed_upto(e0, 0, k)) =~= Set::empty());
            lemma_removals_empty(m0, kill_location);
        }
        while i < edges.len()
            invariant
                i <= edges@.len(),
                self.wf(),
                edges@ == e0,
                forall|j: int| 0 <= j < e0.len() ==> g0.contains_key(BorrowsEdgeKindView::Reborrow((#[trigger] e0[j]).value@))
                    && g0[BorrowsEdgeKindView::Reborrow(e0[j].value@)] == e0[j].conditions@
                    && e0[j].value@.reserve_location == reserve_location,
                forall|k: BorrowsEdgeKindView| #[trigger] g0.contains_key(k) && reborrow_at(k, reserve_location)
                    ==> exists|j: int| 0 <= j < e0.len() && BorrowsEdgeKindView::Reborrow((#[trigger] e0[j]).value@) == k,
                self@.graph == g0.restrict(Set::new(|k: BorrowsEdgeKindView| g0.contains_key(k)
                    && !listed_upto(e0, i as int, k))),
                only_writes_at(m0, self@.latest, kill_location),
                self@.latest == latest_after_removals(m0, Set::new(|k: BorrowsEdgeKindView| listed_upto(e0, i as int, k)), kill_location),
            decreases edges@.len() - i,
        {
            let c = Conditioned { conditions: edges[i].conditions.clone(), value: edges[i].value.clone() };
            let edge = c.to_borrows_edge();
            let ghost k = edge@.kind;
            let ghost before = self@;
            proof {
                assert(k == BorrowsEdgeKindView::Reborrow(e0[i as int].value@));
                if !listed_upto(e0, i as int, k) {
                    assert(before.graph.contains_key(k));
                }
            }
            self.remove_edge_and_set_latest(&edge, repacker, kill_location);
            proof {
                assert(self@.graph =~= g0.restrict(Set::new(|k2: BorrowsEdgeKindView| g0.contains_key(k2)
                    && !listed_upto(e0, i + 1, k2)))) by {
                    assert forall|k2: BorrowsEdgeKindView| #[trigger] listed_upto(e0, i + 1, k2)
                        == (listed_upto(e0, i as int, k2) || k2 == k) by {
                        if exists|j: int| 0 <= j < i + 1 && BorrowsEdgeKindView::Reborrow((#[trigger] e0[j]).value@) == k2 {
                            let j = choose|j: int| 0 <= j < i + 1 && BorrowsEdgeKindView::Reborrow((#[trigger] e0[j]).value@) == k2;
                            if j < i {
                                assert(exists|j: int| 0 <= j < i && BorrowsEdgeKindView::Reborrow((#[trigger] e0[j]).value@) == k2);
                            }
                        }
                        if exists|j: int| 0 <= j < i && BorrowsEdgeKindView::Reborrow((#[trigger] e0[j]).value@) == k2 {
                            let j = choose|j: int| 0 <= j < i && BorrowsEdgeKindView::Reborrow((#[trigger] e0[j]).value@) == k2;
                            assert(0 <= j < i + 1);
                        }
                        if k2 == k {
                            assert(BorrowsEdgeKindView::Reborrow(e0[i as int].value@) == k2);
                        }
                    }
                }
                assert(Set::new(|k2: BorrowsEdgeKindView| listed_upto(e0, i + 1, k2)) =~= Set::new(|k2: BorrowsEdgeKindView| listed_upto(e0, i as int, k2)).insert(k));
                lemma_removals_step(m0, Set::new(|k2: BorrowsEdgeKindView| listed_upto(e0, i as int, k2)), k, kill_location);
                assert forall|l: u32| #[trigger] self@.latest.contains_key(l) implies (m0.contains_key(l) && self@.latest[l] == m0[l]) || self@.latest[l] == SnapshotLocation::Location(kill_location) by {
                    if !k.is_shared_borrow() && written_locals(k).contains(l) {
                    } else {
                        assert(before.latest.contains_key(l));
                    }
                }
            }
            i = i + 1;
        }
        proof {
            assert(self@.graph =~= g0.restrict(Set::new(|k: BorrowsEdgeKindView| g0.contains_key(k) && !reborrow_at(k, reserve_location)))) by {
                assert forall|k: BorrowsEdgeKindView| g0.contains_key(k) implies
                    #[trigger] listed_upto(e0, i as int, k) == reborrow_at(k, reserve_location) by {
                    if exists|j: int| 0 <= j < i && BorrowsEdgeKindView::Reborrow((#[trigger] e0[j]).value@) == k {
                        let j = choose|j: int| 0 <= j < i && BorrowsEdgeKindView::Reborrow((#[trigger] e0[j]).value@) == k;
                    }
                }
            }
            assert(Set::new(|k: BorrowsEdgeKindView| listed_upto(e0, i as int, k)) =~= reborrows_at(g0, reserve_location)) by {
                assert forall|k: BorrowsEdgeKindView| listed_upto(e0, i as int, k) implies #[trigger] g0.contains_key(k) && reborrow_at(k, reserve_location) by {
                    let j = choose|j: int| 0 <= j < i && BorrowsEdgeKindView::Reborrow((#[trigger] e0[j]).value@) == k;
                }
            }
            assert(self@.graph =~= removal_state(old(self)@, reborrows_at(g0, reserve_location), kill_location).graph);
        }
        true
    }
}

/// Every place that `k` is blocked by is a snapshot that nothing blocks.
pub open spec fn old_unblocked(g: Map<BorrowsEdgeKindView, Set<PathCondition>>, k: BorrowsEdgeKindView) -> bool {
    forall|p: MaybeOldPlaceView| #[trigger] k.blocked_by_places().contains(p) ==> p is Old && !graph_blocks(g, MaybeRemotePlaceView::Local(p))
}

/// `k` is a borrow expansion none of whose children is blocked.
pub open spec fn collapsible(g: Map<BorrowsEdgeKindView, Set<PathCondition>>, k: BorrowsEdgeKindView) -> bool {
    match k {
        BorrowsEdgeKindView::DerefExpansion(d) => d is Borrow && forall|c: MaybeOldPlaceView| #[trigger] d.children().contains(c) ==> !graph_blocks(g, MaybeRemotePlaceView::Local(c)),
        _ => false,
    }
}

/// What `minimize` removes: edges held only by free snapshots, and
/// borrow expansions whose children are free.
pub open spec fn removable(g: Map<BorrowsEdgeKindView, Set<PathCondition>>, k: BorrowsEdgeKindView) -> bool {
    old_unblocked(g, k) || collapsible(g, k)
}

pub proof fn lemma_removable_sub(a: Map<BorrowsEdgeKindView, Set<PathCondition>>, b: Map<BorrowsEdgeKindView, Set<PathCondition>>, k: BorrowsEdgeKindView)
    requires
        forall|k2: BorrowsEdgeKindView| #[trigger] b.contains_key(k2) ==> a.contains_key(k2),
    ensures
        old_unblocked(a, k) ==> old_unblocked(b, k),
        removable(a, k) ==> removable(b, k),
{
    assert forall|p: MaybeRemotePlaceView| graph_blocks(b, p) implies graph_blocks(a, p) by {
        let k2 = choose|k2: BorrowsEdgeKindView| b.contains_key(k2) && #[trigger] k2.blocked_places().contains(p);
        assert(a.contains_key(k2));
    }
}

/// The blocked and blocking places of `k` are disjoint.
pub open spec fn edge_disjoint(k: BorrowsEdgeKindView) -> bool {
    forall|p: MaybeOldPlaceView| #[trigger] k.blocked_by_places().contains(p) ==> !k.blocked_places().contains(MaybeRemotePlaceView::Local(p))
}

impl BorrowsState {
    /// Whether every place of `places` is free of edges (and, where
    /// `need_old`, a snapshot).
    fn all_free(&self, places: &Vec<MaybeOldPlace>, need_old: bool) -> (r: bool)
        requires
            self.wf(),
        ensures
            r == forall|i: int| 0 <= i < places@.len() ==> (need_old ==> (#[trigger] places@[i])@ is Old) && !graph_blocks(self@.graph, MaybeRemotePlaceView::Local(places@[i]@)),
    {
        let mut i: usize = 0;
        while i < places.len()
            invariant
                i <= places@.len(),
                self.wf(),
                forall|j: int| 0 <= j < i ==> (need_old ==> (#[trigger] places@[j])@ is Old) && !graph_blocks(self@.graph, MaybeRemotePlaceView::Local(places@[j]@)),
            decreases places@.len() - i,
        {
            if need_old && !places[i].is_old() {
                return false;
            }
            proof {
                assert(self@.graph == self.graph@);
            }
            if self.graph.has_edge_blocking(&MaybeRemotePlace::Local(places[i].clone())) {
                return false;
            }
            i = i + 1;
        }
        true
    }

    /// An edge that is removable (or, without `collapse`, held only by free
    /// snapshots), if there is one.
    fn find_removable(&self, repacker: &PlaceRepacker, collapse: bool) -> (r: Option<BorrowsEdge>)
        requires
            self.wf(),
        ensures
            r matches Some(e) ==> self@.graph.contains_key(e@.kind) && self@.graph[e@.kind] == e@.conditions
                && (old_unblocked(self@.graph, e@.kind) || (collapse && collapsible(self@.graph, e@.kind))),
            r is None ==> forall|k: BorrowsEdgeKindView| #[trigger] self@.graph.contains_key(k)
                ==> !old_unblocked(self@.graph, k) && !(collapse && collapsible(self@.graph, k)),
    {
        let edges = self.graph.edges();
        let mut i: usize = 0;
        while i < edges.len()
            invariant
                i <= edges@.len(),
                self.wf(),
                forall|j: int| 0 <= j < edges@.len() ==> self@.graph.contains_key((#[trigger] edges@[j])@.kind)
                    && self@.graph[edges@[j]@.kind] == edges@[j]@.conditions,
                forall|k: BorrowsEdgeKindView| #[trigger] self@.graph.contains_key(k) ==> exists|j: int| 0 <= j < edges@.len() && (#[trigger] edges@[j])@.kind == k,
                forall|j: int| 0 <= j < i ==> !old_unblocked(self@.graph, (#[trigger] edges@[j])@.kind) && !(collapse && collapsible(self@.graph, edges@[j]@.kind)),
            decreases edges@.len() - i,
        {
            let k = &edges[i].kind;
            let by = k.blocked_by_places(repacker);
            let free_old = self.all_free(&by, true);
            proof {
                if free_old {
                    assert forall|p: MaybeOldPlaceView| #[trigger] k@.blocked_by_places().contains(p) implies p is Old && !graph_blocks(self@.graph, MaybeRemotePlaceView::Local(p)) by {
                        assert(view_set(by@).contains(p));
                        let x = choose|x: int| 0 <= x < by@.len() && by@[x]@ == p;
                    }
                } else {
                    let x = choose|x: int| 0 <= x < by@.len() && !((true ==> (#[trigger] by@[x])@ is Old) && !graph_blocks(self@.graph, MaybeRemotePlaceView::Local(by@[x]@)));
                    assert(k@.blocked_by_places().contains(by@[x]@));
                }
            }
            if free_old {
                return Some(edges[i].clone());
            }
            if collapse {
                if let BorrowsEdgeKind::DerefExpansion(d) = k {
                    if !d.is_owned_expansion() {
                        let children = d.expansion();
                        let free = self.all_free(&children, false);
                        proof {
                            let dv = d@;
                            if free {
                                assert forall|c: MaybeOldPlaceView| #[trigger] dv.children().contains(c) implies !graph_blocks(self@.graph, MaybeRemotePlaceView::Local(c)) by {
                                    let x = choose|x: int| 0 <= x < dv.children().len() && dv.children()[x] == c;
                                    assert(children@[x]@ == c);
                                }
                            } else {
                                let x = choose|x: int| 0 <= x < children@.len() && !((false ==> (#[trigger] children@[x])@ is Old) && !graph_blocks(self@.graph, MaybeRemotePlaceView::Local(children@[x]@)));
                                assert(dv.children()[x] == children@[x]@);
                                assert(dv.children().contains(children@[x]@));
                            }
                        }
                        if free {
                            return Some(edges[i].clone());
                        }
                    }
                }
            }
            i = i + 1;
        }
        proof {
            assert forall|k: BorrowsEdgeKindView| #[trigger] self@.graph.contains_key(k) implies !old_unblocked(self@.graph, k) && !(collapse && collapsible(self@.graph, k)) by {
                let j = choose|j: int| 0 <= j < edges@.len() && (#[trigger] edges@[j])@.kind == k;
            }
        }
        None
    }

    /// Removes edges held only by snapshots that nothing blocks, and borrow
    /// expansions whose children nothing blocks, until none is left.
    pub fn minimize(&mut self, repacker: &PlaceRepacker, location: Location)
        requires
            old(self).wf(),
        ensures
            final(self).wf(),
            subgraph(final(self)@.graph, old(self)@.graph),
            only_writes_at(old(self)@.latest, final(self)@.latest, location),
            final(self)@.latest == latest_after_removals(old(self)@.latest, removed_kinds(old(self)@.graph, final(self)@.graph), location),
            forall|k: BorrowsEdgeKindView| #[trigger] removed_kinds(old(self)@.graph, final(self)@.graph).contains(k) ==> removable(final(self)@.graph, k),
            forall|k: BorrowsEdgeKindView| #[trigger] final(self)@.graph.contains_key(k) ==> !removable(final(self)@.graph, k),
    {
        let ghost g0 = self@.graph;
        let ghost m0 = self@.latest;
        proof {
            assert(removed_kinds(g0, g0) =~= Set::empty());
            lemma_removals_empty(m0, location);
        }
        loop
            invariant
                self.wf(),
                subgraph(self@.graph, g0),
                only_writes_at(m0, self@.latest, location),
                self@.latest == latest_after_removals(m0, removed_kinds(g0, self@.graph), location),
                forall|k: BorrowsEdgeKindView| #[trigger] removed_kinds(g0, self@.graph).contains(k) ==> removable(self@.graph, k),
                forall|k: BorrowsEdgeKindView| #[trigger] removed_kinds(g0, self@.graph).contains(k) ==> removable(self@.graph, k),
            ensures
                self.wf(),
                subgraph(self@.graph, g0),
                only_writes_at(m0, self@.latest, location),
                self@.latest == latest_after_removals(m0, removed_kinds(g0, self@.graph), location),
                forall|k: BorrowsEdgeKindView| #[trigger] removed_kinds(g0, self@.graph).contains(k) ==> removable(self@.graph, k),
                forall|k: BorrowsEdgeKindView| #[trigger] self@.graph.contains_key(k) ==> !removable(self@.graph, k),
            decreases self.size(),
        {
            match self.find_removable(repacker, true) {
                Some(edge) => {
                    let ghost before = self@;
                    let removed = self.remove_edge_and_set_latest(&edge, repacker, location);
                    proof {
                        assert(removed);
                        assert(removed_kinds(g0, self@.graph) =~= removed_kinds(g0, before.graph).insert(edge@.kind));
                        lemma_removals_step(m0, removed_kinds(g0, before.graph), edge@.kind, location);
                        assert forall|k: BorrowsEdgeKindView| #[trigger] removed_kinds(g0, self@.graph).contains(k) implies removable(self@.graph, k) by {
                            lemma_removable_sub(before.graph, self@.graph, k);
                        }
                        assert forall|k: BorrowsEdgeKindView| #[trigger] self@.graph.contains_key(k) implies g0.contains_key(k) && self@.graph[k] == g0[k] by {
                            assert(before.graph.contains_key(k));
                        }
                        assert forall|l: u32| #[trigger] self@.latest.contains_key(l) implies (m0.contains_key(l) && self@.latest[l] == m0[l]) || self@.latest[l] == SnapshotLocation::Location(location) by {
                            if !edge@.kind.is_shared_borrow() && written_locals(edge@.kind).contains(l) {
                            } else {
                                assert(before.latest.contains_key(l));
                            }
                        }
                    }
                },
                None => {
                    break;
                },
            }
        }
    }

    /// Removes leaf edges held only by snapshots, until none is left.
    pub fn trim_old_leaves(&mut self, repacker: &PlaceRepacker, location: Location)
        requires
            old(self).wf(),
        ensures
            final(self).wf(),
            subgraph(final(self)@.graph, old(self)@.graph),
            only_writes_at(old(self)@.latest, final(self)@.latest, location),
            final(self)@.latest == latest_after_removals(old(self)@.latest, removed_kinds(old(self)@.graph, final(self)@.graph), location),
            forall|k: BorrowsEdgeKindView| #[trigger] removed_kinds(old(self)@.graph, final(self)@.graph).contains(k) ==> old_unblocked(final(self)@.graph, k),
            forall|k: BorrowsEdgeKindView| #[trigger] final(self)@.graph.contains_key(k) ==> !old_unblocked(final(self)@.graph, k),
    {
        let ghost g0 = self@.graph;
        let ghost m0 = self@.latest;
        proof {
            assert(removed_kinds(g0, g0) =~= Set::empty());
            lemma_removals_empty(m0, location);
        }
        loop
            invariant
                self.wf(),
                subgraph(self@.graph, g0),
                only_writes_at(m0, self@.latest, location),
                self@.latest == latest_after_removals(m0, removed_kinds(g0, self@.graph), location),
                forall|k: BorrowsEdgeKindView| #[trigger] removed_kinds(g0, self@.graph).contains(k) ==> old_unblocked(self@.graph, k),
                forall|k: BorrowsEdgeKindView| #[trigger] removed_kinds(g0, self@.graph).contains(k) ==> old_unblocked(self@.graph, k),
            ensures
                self.wf(),
                subgraph(self@.graph, g0),
                only_writes_at(m0, self@.latest, location),
                self@.latest == latest_after_removals(m0, removed_kinds(g0, self@.graph), location),
                forall|k: BorrowsEdgeKindView| #[trigger] removed_kinds(g0, self@.graph).contains(k) ==> old_unblocked(self@.graph, k),
                forall|k: BorrowsEdgeKindView| #[trigger] self@.graph.contains_key(k) ==> !old_unblocked(self@.graph, k),
            decreases self.size(),
        {
            match self.find_removable(repacker, false) {
                Some(edge) => {
                    let ghost before = self@;
                    let removed = self.remove_edge_and_set_latest(&edge, repacker, location);
                    proof {
                        assert(removed);
                        assert(removed_kinds(g0, self@.graph) =~= removed_kinds(g0, before.graph).insert(edge@.kind));
                        lemma_removals_step(m0, removed_kinds(g0, before.graph), edge@.kind, location);
                        assert forall|k: BorrowsEdgeKindView| #[trigger] removed_kinds(g0, self@.graph).contains(k) implies old_unblocked(self@.graph, k) by {
                            lemma_removable_sub(before.graph, self@.graph, k);
                        }
                        assert forall|k: BorrowsEdgeKindView| #[trigger] self@.graph.contains_key(k) implies g0.contains_key(k) && self@.graph[k] == g0[k] by {
                            assert(before.graph.contains_key(k));
                        }
                        assert forall|l: u32| #[trigger] self@.latest.contains_key(l) implies (m0.contains_key(l) && self@.latest[l] == m0[l]) || self@.latest[l] == SnapshotLocation::Location(location) by {
                            if !edge@.kind.is_shared_borrow() && written_locals(edge@.kind).contains(l) {
                            } else {
                                assert(before.latest.contains_key(l));
                            }
                        }
                    }
                },
                None => {
                    break;
                },
            }
        }
    }

    /// Checks that no edge blocks a place it is blocked by.
    pub fn assert_invariants_satisfied(&self, repacker: &PlaceRepacker) -> (r: bool)
        requires
            self.wf(),
        ensures
            r == forall|k: BorrowsEdgeKindView| #[trigger] self@.graph.contains_key(k) ==> edge_disjoint(k),
    {
        let edges = self.graph.edges();
        let mut i: usize = 0;
        while i < edges.len()
            invariant
                i <= edges@.len(),
                forall|j: int| 0 <= j < edges@.len() ==> self@.graph.contains_key((#[trigger] edges@[j])@.kind),
                forall|k: BorrowsEdgeKindView| #[trigger] self@.graph.contains_key(k) ==> exists|j: int| 0 <= j < edges@.len() && (#[trigger] edges@[j])@.kind == k,
                forall|j: int| 0 <= j < i ==> edge_disjoint((#[trigger] edges@[j])@.kind),
            decreases edges@.len() - i,
        {
            let by = edges[i].blocked_by_places(repacker);
            let blocked = edges[i].blocked_places();
            let mut b: usize = 0;
            while b < by.len()
                invariant
                    b <= by@.len(),
                    i < edges@.len(),
                    self@.graph.contains_key(edges@[i as int]@.kind),
                    view_set(by@) == edges@[i as int]@.kind.blocked_by_places(),
                    view_set(blocked@) == edges@[i as int]@.kind.blocked_places(),
                    forall|x: int| 0 <= x < b ==> !edges@[i as int]@.kind.blocked_places().contains(MaybeRemotePlaceView::Local((#[trigger] by@[x])@)),
                decreases by@.len() - b,
            {
                if crate::edge::contains_remote(&blocked, &MaybeRemotePlace::Local(by[b].clone())) {
                    proof {
                        assert(edges@[i as int]@.kind.blocked_by_places().contains(by@[b as int]@));
                        assert(self@.graph.contains_key(edges@[i as int]@.kind));
                    }
                    return false;
                }
                b = b + 1;
            }
            proof {
                assert forall|p: MaybeOldPlaceView| #[trigger] edges@[i as int]@.kind.blocked_by_places().contains(p) implies !edges@[i as int]@.kind.blocked_places().contains(MaybeRemotePlaceView::Local(p)) by {
                    assert(view_set(by@).contains(p));
                    let x = choose|x: int| 0 <= x < by@.len() && by@[x]@ == p;
                }
            }
            i = i + 1;
        }
        proof {
            assert forall|k: BorrowsEdgeKindView| #[trigger] self@.graph.contains_key(k) implies edge_disjoint(k) by {
                let j = choose|j: int| 0 <= j < edges@.len() && (#[trigger] edges@[j])@.kind == k;
            }
        }
        true
    }

    /// Joins the state of the predecessor `other_block` into this state of
    /// `self_block`. Returns whether the graph changed: a change of the
    /// latest table alone is no progress, so that loops converge.
    pub fn join(&mut self, other: &BorrowsState, self_block: usize, other_block: usize, _repacker: &PlaceRepacker) -> (changed: bool)
        requires
            old(self).wf(),
            other.wf(),
        ensures
            final(self).wf(),
            final(self)@.graph == joined_graph(old(self)@.graph, other@.graph, self_block, other_block),
            final(self)@.latest == joined(old(self)@.latest, other@.latest, self_block),
            changed == (final(self)@.graph != old(self)@.graph),
    {
        let changed = self.graph.join(&other.graph, self_block, other_block);
        self.latest.join(&other.latest, self_block);
        changed
    }
}

/// `k` is the kind of one of the first `i` edges of `e`.
pub open spec fn edge_listed(e: Seq<BorrowsEdge>, i: int, k: BorrowsEdgeKindView) -> bool {
    exists|j: int| 0 <= j < i && (#[trigger] e[j])@.kind == k
}

/// The action `a` has taken effect in `g`.
pub open spec fn action_done(g: Map<BorrowsEdgeKindView, Set<PathCondition>>, a: crate::unblock_graph::UnblockActionView) -> bool {
    match a {
        crate::unblock_graph::UnblockActionView::TerminateReborrow { reserve_location, .. } =>
            forall|k: BorrowsEdgeKindView| #[trigger] g.contains_key(k) ==> !reborrow_at(k, reserve_location),
        crate::unblock_graph::UnblockActionView::Collapse(p, _) => !graph_blocks(g, MaybeRemotePlaceView::Local(p)),
        crate::unblock_graph::UnblockActionView::TerminateAbstraction(loc, _) =>
            forall|k: BorrowsEdgeKindView| #[trigger] g.contains_key(k) ==> !abstraction_at(k, loc),
    }
}

proof fn lemma_action_done_sub(a: Map<BorrowsEdgeKindView, Set<PathCondition>>, b: Map<BorrowsEdgeKindView, Set<PathCondition>>, x: crate::unblock_graph::UnblockActionView)
    requires
        subgraph(b, a),
        action_done(a, x),
    ensures
        action_done(b, x),
{
    match x {
        crate::unblock_graph::UnblockActionView::TerminateReborrow { reserve_location, .. } => {
            assert forall|k: BorrowsEdgeKindView| #[trigger] b.contains_key(k) implies !reborrow_at(k, reserve_location) by {
                assert(a.contains_key(k));
            }
        },
        crate::unblock_graph::UnblockActionView::Collapse(p, _) => {
            if graph_blocks(b, MaybeRemotePlaceView::Local(p)) {
                let k = choose|k: BorrowsEdgeKindView| b.contains_key(k) && #[trigger] k.blocked_places().contains(MaybeRemotePlaceView::Local(p));
                assert(a.contains_key(k));
            }
        },
        crate::unblock_graph::UnblockActionView::TerminateAbstraction(loc, _) => {
            assert forall|k: BorrowsEdgeKindView| #[trigger] b.contains_key(k) implies !abstraction_at(k, loc) by {
                assert(a.contains_key(k));
            }
        },
    }
}

impl BorrowsState {
    /// Removes each of `edges`, which the graph holds exactly.
    fn remove_all(&mut self, edges: &Vec<BorrowsEdge>, repacker: &PlaceRepacker, location: Location)
        requires
            old(self).wf(),
            forall|j: int| 0 <= j < edges@.len() ==> old(self)@.graph.contains_key((#[trigger] edges@[j])@.kind)
                && old(self)@.graph[edges@[j]@.kind] == edges@[j]@.conditions,
        ensures
            final(self).wf(),
            final(self)@.graph == old(self)@.graph.restrict(Set::new(|k: BorrowsEdgeKindView| old(self)@.graph.contains_key(k) && !edge_listed(edges@, edges@.len() as int, k))),
            final(self)@.latest == latest_after_removals(old(self)@.latest, Set::new(|k: BorrowsEdgeKindView| edge_listed(edges@, edges@.len() as int, k)), location),
    {
        let ghost g0 = self@.graph;
        let ghost m0 = self@.latest;
        let ghost e0 = edges@;
        let mut i: usize = 0;
        proof {
            assert(self@.graph =~= g0.restrict(Set::new(|k: BorrowsEdgeKindView| g0.contains_key(k) && !edge_listed(e0, 0, k))));
            assert(Set::new(|k: BorrowsEdgeKindView| edge_listed(e0, 0, k)) =~= Set::empty());
            lemma_removals_empty(m0, location);
        }
        while i < edges.len()
            invariant
                i <= e0.len(),
                edges@ == e0,
                self.wf(),
                forall|j: int| 0 <= j < e0.len() ==> g0.contains_key((#[trigger] e0[j])@.kind) && g0[e0[j]@.kind] == e0[j]@.conditions,
                self@.graph == g0.restrict(Set::new(|k: BorrowsEdgeKindView| g0.contains_key(k) && !edge_listed(e0, i as int, k))),
                self@.latest == latest_after_removals(m0, Set::new(|k: BorrowsEdgeKindView| edge_listed(e0, i as int, k)), location),
            decreases e0.len() - i,
        {
            let ghost k = e0[i as int]@.kind;
            let ghost before = self@;
            proof {
                if !edge_listed(e0, i as int, k) {
                    assert(before.graph.contains_key(k));
                }
            }
            self.remove_edge_and_set_latest(&edges[i], repacker, location);
            proof {
                assert forall|k2: BorrowsEdgeKindView| #[trigger] edge_listed(e0, i + 1, k2) == (edge_listed(e0, i as int, k2) || k2 == k) by {
                    if edge_listed(e0, i + 1, k2) {
                        let j = choose|j: int| 0 <= j < i + 1 && (#[trigger] e0[j])@.kind == k2;
                        if j < i {
                            assert(edge_listed(e0, i as int, k2));
                        }
                    }
                    if edge_listed(e0, i as int, k2) {
                        let j = choose|j: int| 0 <= j < i && (#[trigger] e0[j])@.kind == k2;
                        assert(0 <= j < i + 1);
                    }
                    if k2 == k {
                        assert(e0[i as int]@.kind == k2);
                    }
                }
                assert(self@.graph =~= g0.restrict(Set::new(|k2: BorrowsEdgeKindView| g0.contains_key(k2) && !edge_listed(e0, i + 1, k2))));
                assert(Set::new(|k2: BorrowsEdgeKindView| edge_listed(e0, i + 1, k2)) =~= Set::new(|k2: BorrowsEdgeKindView| edge_listed(e0, i as int, k2)).insert(k));
                lemma_removals_step(m0, Set::new(|k2: BorrowsEdgeKindView| edge_listed(e0, i as int, k2)), k, location);
            }
            i = i + 1;
        }
    }

    /// Removes every edge that blocks `place`; returns whether there was one.
    pub fn delete_descendants_of(&mut self, place: &MaybeOldPlace, repacker: &PlaceRepacker, location: Location) -> (deleted: bool)
        requires
            old(self).wf(),
        ensures
            final(self).wf(),
            deleted == graph_blocks(old(self)@.graph, MaybeRemotePlaceView::Local(place@)),
            final(self)@ == removal_state(old(self)@, blocking_kinds(old(self)@.graph, MaybeRemotePlaceView::Local(place@)), location),
            final(self)@.graph == old(self)@.graph.restrict(Set::new(|k: BorrowsEdgeKindView| old(self)@.graph.contains_key(k)
                && !k.blocked_places().contains(MaybeRemotePlaceView::Local(place@)))),
            only_writes_at(old(self)@.latest, final(self)@.latest, location),
    {
        let ghost g0 = self@.graph;
        let ghost m0 = self@.latest;
        let ghost target = MaybeRemotePlaceView::Local(place@);
        let edges = self.edges_blocking(&MaybeRemotePlace::Local(place.clone()));
        let ghost kept = Set::new(|k: BorrowsEdgeKindView| g0.contains_key(k) && !k.blocked_places().contains(target));
        let ghost kept2 = Set::new(|k: BorrowsEdgeKindView| g0.contains_key(k) && !blocking_kinds(g0, target).contains(k));
        proof {
            assert(kept =~= kept2);
        }
        if edges.len() == 0 {
            proof {
                if graph_blocks(g0, target) {
                    let k = choose|k: BorrowsEdgeKindView| g0.contains_key(k) && #[trigger] k.blocked_places().contains(target);
                    let i = choose|i: int| 0 <= i < edges@.len() && (#[trigger] edges@[i])@.kind == k;
                }
                assert(blocking_kinds(g0, target) =~= Set::empty());
                lemma_removals_empty(m0, location);
                assert(self@.graph =~= g0.restrict(kept));
                assert(self@ == removal_state(old(self)@, blocking_kinds(g0, target), location));
            }
            return false;
        }
        self.remove_all(&edges, repacker, location);
        proof {
            assert(g0.contains_key(edges@[0]@.kind));
            assert forall|k: BorrowsEdgeKindView| g0.contains_key(k) implies #[trigger] edge_listed(edges@, edges@.len() as int, k) == k.blocked_places().contains(target) by {
                if k.blocked_places().contains(target) {
                    let i = choose|i: int| 0 <= i < edges@.len() && (#[trigger] edges@[i])@.kind == k;
                }
            }
            assert(Set::new(|k: BorrowsEdgeKindView| edge_listed(edges@, edges@.len() as int, k)) =~= blocking_kinds(g0, target)) by {
                assert forall|k: BorrowsEdgeKindView| edge_listed(edges@, edges@.len() as int, k) implies #[trigger] g0.contains_key(k) by {
                    let j = choose|j: int| 0 <= j < edges@.len() && (#[trigger] edges@[j])@.kind == k;
                }
            }
            assert(self@.graph =~= g0.restrict(kept));
            lemma_removals_only_writes(m0, blocking_kinds(g0, target), location);
            assert(self@ == removal_state(old(self)@, blocking_kinds(g0, target), location));
        }
        true
    }

    /// Applies the actions of `ug` in order; returns whether the graph shrank.
    pub fn apply_unblock_graph(&mut self, ug: UnblockGraph, repacker: &PlaceRepacker, location: Location) -> (changed: bool)
        requires
            old(self).wf(),
        ensures
            final(self).wf(),
            subgraph(final(self)@.graph, old(self)@.graph),
            only_writes_at(old(self)@.latest, final(self)@.latest, location),
            forall|i: int| 0 <= i < ug@.len() ==> action_done(final(self)@.graph, #[trigger] ug@[i]),
            changed == (final(self).size() != old(self).size()),
            final(self)@ == apply_actions(old(self)@, ug@, location),
    {
        let ghost g0 = self@.graph;
        let ghost m0 = self@.latest;
        let n0 = self.graph.len();
        let actions = ug.actions(repacker);
        let mut i: usize = 0;
        proof {
            assert(ug@.take(0) =~= Seq::<crate::unblock_graph::UnblockActionView>::empty());
        }
        while i < actions.len()
            invariant
                i <= actions@.len(),
                actions@.map_values(|a: crate::unblock_graph::UnblockAction| a@) == ug@,
                self.wf(),
                subgraph(self@.graph, g0),
                only_writes_at(m0, self@.latest, location),
                forall|j: int| 0 <= j < i ==> action_done(self@.graph, #[trigger] ug@[j]),
                self@ == apply_actions(old(self)@, ug@.take(i as int), location),
            decreases actions@.len() - i,
        {
            let ghost before = self@;
            proof {
                assert(ug@[i as int] == actions@[i as int]@);
            }
            match &actions[i] {
                crate::unblock_graph::UnblockAction::TerminateReborrow { reserve_location, .. } => {
                    self.kill_reborrows(*reserve_location, location, repacker);
                },
                crate::unblock_graph::UnblockAction::Collapse(place, _) => {
                    self.delete_descendants_of(place, repacker, location);
                },
                crate::unblock_graph::UnblockAction::TerminateAbstraction(loc, _) => {
                    self.graph.remove_abstraction_at(*loc);
                },
            }
            proof {
                assert(ug@.take(i + 1).drop_last() =~= ug@.take(i as int));
                assert(ug@.take(i + 1).last() == ug@[i as int]);
                match ug@[i as int] {
                    crate::unblock_graph::UnblockActionView::TerminateAbstraction(loc, _) => {
                        assert(self@.graph =~= apply_action(before, ug@[i as int], location).graph);
                    },
                    _ => {},
                }
                assert(self@ == apply_actions(old(self)@, ug@.take(i + 1), location));
                assert(subgraph(self@.graph, before.graph));
                assert forall|k: BorrowsEdgeKindView| #[trigger] self@.graph.contains_key(k) implies g0.contains_key(k) && self@.graph[k] == g0[k] by {
                    assert(before.graph.contains_key(k));
                }
                assert forall|l: u32| #[trigger] self@.latest.contains_key(l) implies (m0.contains_key(l) && self@.latest[l] == m0[l]) || self@.latest[l] == SnapshotLocation::Location(location) by {
                    if !(before.latest.contains_key(l) && self@.latest[l] == before.latest[l]) {
                    }
                }
                assert forall|j: int| 0 <= j < i + 1 implies action_done(self@.graph, #[trigger] ug@[j]) by {
                    if j < i {
                        lemma_action_done_sub(before.graph, self@.graph, ug@[j]);
                    } else {
                        if let crate::unblock_graph::UnblockActionView::Collapse(p, _) = ug@[j] {
                            if graph_blocks(self@.graph, MaybeRemotePlaceView::Local(p)) {
                                let k = choose|k: BorrowsEdgeKindView| self@.graph.contains_key(k) && #[trigger] k.blocked_places().contains(MaybeRemotePlaceView::Local(p));
                            }
                        }
                    }
                }
            }
            i = i + 1;
        }
        proof {
            assert(ug@.take(i as int) =~= ug@);
        }
        let n1 = self.graph.len();
        n1 != n0
    }
}

/// The edges that a bridge brings in, and the plan that tears down the rest.
pub struct ReborrowBridge {
    pub added_reborrows: Vec<Conditioned<Reborrow>>,
    pub expands: Vec<Conditioned<DerefExpansion>>,
    pub ug: UnblockGraph,
}

impl UnblockGraph {
    /// Schedules the removal of every edge of `state` that blocks `target`,
    /// bottom-up.
    pub fn unblock_place(&mut self, target: &MaybeRemotePlace, state: &BorrowsState, repacker: &PlaceRepacker)
        requires
            state.wf(),
            old(self).planned_from(state@.graph),
            old(self).settled(),
            !old(self).has_error_spec() ==> well_ordered(state@.graph, old(self)@),
        ensures
            final(self).planned_from(state@.graph),
            final(self).settled(),
            !final(self).has_error_spec() ==> well_ordered(state@.graph, final(self)@),
            old(self).has_error_spec() ==> final(self).has_error_spec(),
            old(self)@.is_prefix_of(final(self)@),
            forall|k: BorrowsEdgeKindView| #[trigger] state@.graph.contains_key(k) && k.blocked_places().contains(target@)
                ==> (crate::unblock_graph::action_for(k) matches Some(a) ==> final(self)@.contains(a)),
    {
        let depth = state.graph.len();
        proof {
            assert(state@.graph == state.graph@);
        }
        self.unblock_place_within(target, &state.graph, repacker, depth);
        proof {
            assert forall|k: BorrowsEdgeKindView| #[trigger] state@.graph.contains_key(k) && k.blocked_places().contains(target@)
                implies (crate::unblock_graph::action_for(k) matches Some(a) ==> self@.contains(a)) by {
                if let Some(a) = crate::unblock_graph::action_for(k) {
                    assert(self.visited_spec().contains(a));
                    self.lemma_settled_contains(a);
                }
            }
        }
    }

    /// Schedules the removal of what blocks the reborrow's assigned place,
    /// then the reborrow itself.
    pub fn kill_reborrow(&mut self, reborrow: &Conditioned<Reborrow>, state: &BorrowsState, repacker: &PlaceRepacker)
        requires
            state.wf(),
            state@.graph.contains_key(BorrowsEdgeKindView::Reborrow(reborrow.value@)),
            old(self).planned_from(state@.graph),
            old(self).settled(),
            !old(self).has_error_spec() ==> well_ordered(state@.graph, old(self)@),
        ensures
            final(self).planned_from(state@.graph),
            final(self).settled(),
            !final(self).has_error_spec() ==> well_ordered(state@.graph, final(self)@),
            old(self).has_error_spec() ==> final(self).has_error_spec(),
            old(self)@.is_prefix_of(final(self)@),
            crate::unblock_graph::action_for(BorrowsEdgeKindView::Reborrow(reborrow.value@)) matches Some(a) && final(self)@.contains(a),
    {
        let ghost start = self@;
        self.unblock_place(&MaybeRemotePlace::Local(reborrow.value.assigned_place.clone()), state, repacker);
        let action = crate::unblock_graph::action_of_kind(&BorrowsEdgeKind::Reborrow(reborrow.value.clone()));
        match action {
            Some(a) => {
                let ghost before = self@;
                proof {
                    assert(crate::unblock_graph::action_of_graph(state@.graph, a@));
                }
                self.add(a);
                proof {
                    if !before.contains(a@) {
                        assert(self@[self@.len() - 1] == a@);
                        if !self.has_error_spec() {
                            let e = BorrowsEdgeKindView::Reborrow(reborrow.value@);
                            assert(before.push(a@) =~= self@);
                            assert(self@.take(before.len() as int) =~= before);
                            assert(deps_scheduled(state@.graph, self@, before.len() as int, e));
                            crate::unblock_graph::lemma_well_ordered_push(state@.graph, before, a@, e);
                        }
                    }
                    assert(start.is_prefix_of(self@)) by {
                        assert forall|w: int| 0 <= w < start.len() implies start[w] == self@[w] by {
                            assert(before[w] == start[w]);
                        }
                    }
                }
            },
            None => {},
        }
    }

    /// Schedules the removal of what blocks each output of the abstraction,
    /// then the abstraction itself.
    pub fn kill_abstraction(&mut self, state: &BorrowsState, abstraction: &AbstractionEdge, repacker: &PlaceRepacker)
        requires
            state.wf(),
            state@.graph.contains_key(BorrowsEdgeKindView::Abstraction(abstraction@)),
            old(self).planned_from(state@.graph),
            old(self).settled(),
            !old(self).has_error_spec() ==> well_ordered(state@.graph, old(self)@),
        ensures
            final(self).planned_from(state@.graph),
            final(self).settled(),
            !final(self).has_error_spec() ==> well_ordered(state@.graph, final(self)@),
            old(self).has_error_spec() ==> final(self).has_error_spec(),
            old(self)@.is_prefix_of(final(self)@),
            final(self)@.contains(crate::unblock_graph::UnblockActionView::TerminateAbstraction(abstraction@.location(), abstraction@)),
    {
        let ghost start = self@;
        let outputs = abstraction.blocked_by_places();
        let mut i: usize = 0;
        while i < outputs.len()
            invariant
                i <= outputs@.len(),
                state.wf(),
                self.planned_from(state@.graph),
                self.settled(),
                !self.has_error_spec() ==> well_ordered(state@.graph, self@),
                old(self).has_error_spec() ==> self.has_error_spec(),
                start == old(self)@,
                start.is_prefix_of(self@),
                forall|x: int, k2: BorrowsEdgeKindView| 0 <= x < i && state@.graph.contains_key(k2)
                    && #[trigger] k2.blocked_places().contains(MaybeRemotePlaceView::Local((#[trigger] outputs@[x])@))
                    ==> (crate::unblock_graph::action_for(k2) matches Some(y) ==> self@.contains(y)),
            decreases outputs@.len() - i,
        {
            let ghost mid = self@;
            self.unblock_place(&MaybeRemotePlace::Local(outputs[i].clone()), state, repacker);
            proof {
                assert forall|x: int, k2: BorrowsEdgeKindView| 0 <= x < i + 1 && state@.graph.contains_key(k2)
                    && #[trigger] k2.blocked_places().contains(MaybeRemotePlaceView::Local((#[trigger] outputs@[x])@))
                    implies (crate::unblock_graph::action_for(k2) matches Some(y) ==> self@.contains(y)) by {
                    if let Some(y) = crate::unblock_graph::action_for(k2) {
                        if x < i {
                            assert(mid.contains(y));
                            let w = choose|w: int| 0 <= w < mid.len() && mid[w] == y;
                            assert(self@[w] == y);
                        }
                    }
                }
                assert(start.is_prefix_of(self@)) by {
                    assert forall|w: int| 0 <= w < start.len() implies start[w] == self@[w] by {
                        assert(mid[w] == start[w]);
                    }
                }
            }
            i = i + 1;
        }
        let a = crate::unblock_graph::UnblockAction::TerminateAbstraction(abstraction.location(), abstraction.abstraction_type.clone());
        let ghost before = self@;
        proof {
            assert(crate::unblock_graph::action_for(BorrowsEdgeKindView::Abstraction(abstraction@)) == Some(a@));
            assert(crate::unblock_graph::action_of_graph(state@.graph, a@));
        }
        self.add(a);
        proof {
            assert(start.is_prefix_of(self@)) by {
                assert forall|w: int| 0 <= w < start.len() implies start[w] == self@[w] by {
                    assert(before[w] == start[w]);
                }
            }
            if !before.contains(a@) {
                assert(self@[self@.len() - 1] == a@);
                if !self.has_error_spec() {
                    let e = BorrowsEdgeKindView::Abstraction(abstraction@);
                    assert(before.push(a@) =~= self@);
                    assert(self@.take(before.len() as int) =~= before);
                    assert(deps_scheduled(state@.graph, self@, before.len() as int, e)) by {
                        assert forall|p: MaybeOldPlaceView, k2: BorrowsEdgeKindView|
                            #![trigger e.blocked_by_places().contains(p), k2.blocked_places().contains(MaybeRemotePlaceView::Local(p))]
                            e.blocked_by_places().contains(p) && state@.graph.contains_key(k2) && k2.blocked_places().contains(MaybeRemotePlaceView::Local(p))
                            implies (crate::unblock_graph::action_for(k2) matches Some(x) ==> self@.take(before.len() as int).contains(x)) by {
                            assert(view_set(outputs@).contains(p));
                            let x = choose|x: int| 0 <= x < outputs@.len() && outputs@[x]@ == p;
                            assert(k2.blocked_places().contains(MaybeRemotePlaceView::Local(outputs@[x]@)));
                        }
                    }
                    crate::unblock_graph::lemma_well_ordered_push(state@.graph, before, a@, e);
                }
            }
        }
    }
}

impl BorrowsState {
    /// The place assigned by the one reborrow that blocks `place`; none
    /// where no edge, or more than one, blocks it, or where the one edge is
    /// not a reborrow.
    pub fn get_place_blocking(&self, place: &MaybeRemotePlace) -> (r: Option<MaybeOldPlace>)
        requires
            self.wf(),
        ensures
            r matches Some(a) ==> exists|rb: ReborrowView| #[trigger] self@.graph.contains_key(BorrowsEdgeKindView::Reborrow(rb))
                && rb.blocked_place == place@ && rb.assigned_place == a@
                && forall|k: BorrowsEdgeKindView| #[trigger] self@.graph.contains_key(k) && k.blocked_places().contains(place@) ==> k == BorrowsEdgeKindView::Reborrow(rb),
            r is None ==> !exists|rb: ReborrowView| #[trigger] self@.graph.contains_key(BorrowsEdgeKindView::Reborrow(rb))
                && rb.blocked_place == place@
                && forall|k: BorrowsEdgeKindView| #[trigger] self@.graph.contains_key(k) && k.blocked_places().contains(place@) ==> k == BorrowsEdgeKindView::Reborrow(rb),
    {
        let edges = self.edges_blocking(place);
        if edges.len() != 1 {
            proof {
                if exists|rb: ReborrowView| #[trigger] self@.graph.contains_key(BorrowsEdgeKindView::Reborrow(rb))
                    && rb.blocked_place == place@
                    && forall|k: BorrowsEdgeKindView| #[trigger] self@.graph.contains_key(k) && k.blocked_places().contains(place@) ==> k == BorrowsEdgeKindView::Reborrow(rb) {
                    let rb = choose|rb: ReborrowView| #[trigger] self@.graph.contains_key(BorrowsEdgeKindView::Reborrow(rb))
                        && rb.blocked_place == place@
                        && forall|k: BorrowsEdgeKindView| #[trigger] self@.graph.contains_key(k) && k.blocked_places().contains(place@) ==> k == BorrowsEdgeKindView::Reborrow(rb);
                    let kk = BorrowsEdgeKindView::Reborrow(rb);
                    assert(kk.blocked_places().contains(place@));
                    let i = choose|i: int| 0 <= i < edges@.len() && (#[trigger] edges@[i])@.kind == kk;
                    if edges@.len() > 1 {
                        let other = if i == 0 { 1int } else { 0int };
                        assert(edges@[other]@.kind == kk);
                        assert(edges@[other]@.kind != edges@[i]@.kind);
                    }
                }
            }
            return None;
        }
        proof {
            assert forall|k: BorrowsEdgeKindView| #[trigger] self@.graph.contains_key(k) && k.blocked_places().contains(place@) implies k == edges@[0]@.kind by {
                let i = choose|i: int| 0 <= i < edges@.len() && (#[trigger] edges@[i])@.kind == k;
            }
        }
        match &edges[0].kind {
            BorrowsEdgeKind::Reborrow(rb) => {
                proof {
                    assert(rb@.blocked_place == place@);
                }
                Some(rb.assigned_place.clone())
            },
            _ => {
                proof {
                    if exists|rb: ReborrowView| #[trigger] self@.graph.contains_key(BorrowsEdgeKindView::Reborrow(rb))
                        && rb.blocked_place == place@
                        && forall|k: BorrowsEdgeKindView| #[trigger] self@.graph.contains_key(k) && k.blocked_places().contains(place@) ==> k == BorrowsEdgeKindView::Reborrow(rb) {
                        let rb = choose|rb: ReborrowView| #[trigger] self@.graph.contains_key(BorrowsEdgeKindView::Reborrow(rb))
                            && rb.blocked_place == place@
                            && forall|k: BorrowsEdgeKindView| #[trigger] self@.graph.contains_key(k) && k.blocked_places().contains(place@) ==> k == BorrowsEdgeKindView::Reborrow(rb);
                        assert(edges@[0]@.kind == BorrowsEdgeKindView::Reborrow(rb));
                    }
                }
                None
            },
        }
    }
}

impl BorrowsState {
    /// The edges that `to` has and this state has not: reborrows reserved
    /// at a location where this state has none, and deref expansions; and
    /// the plan that tears down what this state has and `to` has not.
    pub fn bridge(&self, to: &BorrowsState, repacker: &PlaceRepacker) -> (r: ReborrowBridge)
        requires
            self.wf(),
            to.wf(),
        ensures
            forall|i: int| 0 <= i < r.added_reborrows@.len() ==> to@.graph.contains_key(BorrowsEdgeKindView::Reborrow((#[trigger] r.added_reborrows@[i]).value@))
                && to@.graph[BorrowsEdgeKindView::Reborrow(r.added_reborrows@[i].value@)] == r.added_reborrows@[i].conditions@
                && !exists|k: BorrowsEdgeKindView| #[trigger] self@.graph.contains_key(k) && reborrow_at(k, r.added_reborrows@[i].value@.reserve_location),
            forall|rb: ReborrowView| #[trigger] to@.graph.contains_key(BorrowsEdgeKindView::Reborrow(rb))
                && !(exists|k: BorrowsEdgeKindView| #[trigger] self@.graph.contains_key(k) && reborrow_at(k, rb.reserve_location))
                ==> exists|i: int| 0 <= i < r.added_reborrows@.len() && (#[trigger] r.added_reborrows@[i]).value@ == rb,
            forall|i: int| 0 <= i < r.expands@.len() ==> to@.graph.contains_key(BorrowsEdgeKindView::DerefExpansion((#[trigger] r.expands@[i]).value@))
                && to@.graph[BorrowsEdgeKindView::DerefExpansion(r.expands@[i].value@)] == r.expands@[i].conditions@
                && !(self@.graph.contains_key(BorrowsEdgeKindView::DerefExpansion(r.expands@[i].value@))
                    && self@.graph[BorrowsEdgeKindView::DerefExpansion(r.expands@[i].value@)] == r.expands@[i].conditions@),
            forall|k: BorrowsEdgeKindView| #[trigger] to@.graph.contains_key(k) && k is DerefExpansion
                && !(self@.graph.contains_key(k) && self@.graph[k] == to@.graph[k])
                ==> exists|i: int| 0 <= i < r.expands@.len() && BorrowsEdgeKindView::DerefExpansion((#[trigger] r.expands@[i]).value@) == k,
            forall|i: int| 0 <= i < r.ug@.len() ==> crate::unblock_graph::action_of_graph(self@.graph, #[trigger] r.ug@[i]),
            !r.ug.has_error_spec() ==> well_ordered(self@.graph, r.ug@),
            r.ug.planned_from(self@.graph),
            r.ug.settled(),
            forall|rb: ReborrowView| #[trigger] self@.graph.contains_key(BorrowsEdgeKindView::Reborrow(rb))
                && !(exists|k: BorrowsEdgeKindView| #[trigger] to@.graph.contains_key(k) && reborrow_at(k, rb.reserve_location))
                ==> (crate::unblock_graph::action_for(BorrowsEdgeKindView::Reborrow(rb)) matches Some(x) && r.ug@.contains(x)),
            forall|d: DerefExpansionView| #[trigger] self@.graph.contains_key(BorrowsEdgeKindView::DerefExpansion(d))
                && !(to@.graph.contains_key(BorrowsEdgeKindView::DerefExpansion(d)) && to@.graph[BorrowsEdgeKindView::DerefExpansion(d)] == self@.graph[BorrowsEdgeKindView::DerefExpansion(d)])
                ==> r.ug@.contains(crate::unblock_graph::UnblockActionView::Collapse(d.base(), d.elems())),
            forall|a: crate::domain::AbstractionTypeView| #[trigger] self@.graph.contains_key(BorrowsEdgeKindView::Abstraction(a))
                && !(to@.graph.contains_key(BorrowsEdgeKindView::Abstraction(a)) && to@.graph[BorrowsEdgeKindView::Abstraction(a)] == self@.graph[BorrowsEdgeKindView::Abstraction(a)])
                ==> r.ug@.contains(crate::unblock_graph::UnblockActionView::TerminateAbstraction(a.location(), a)),
    {
        let to_rbs = to.reborrows();
        let mut added_reborrows: Vec<Conditioned<Reborrow>> = Vec::new();
        let mut i: usize = 0;
        while i < to_rbs.len()
            invariant
                i <= to_rbs@.len(),
                self.wf(),
                to.wf(),
                forall|j: int| 0 <= j < to_rbs@.len() ==> to@.graph.contains_key(BorrowsEdgeKindView::Reborrow((#[trigger] to_rbs@[j]).value@))
                    && to@.graph[BorrowsEdgeKindView::Reborrow(to_rbs@[j].value@)] == to_rbs@[j].conditions@,
                forall|j: int| 0 <= j < added_reborrows@.len() ==> to@.graph.contains_key(BorrowsEdgeKindView::Reborrow((#[trigger] added_reborrows@[j]).value@))
                    && to@.graph[BorrowsEdgeKindView::Reborrow(added_reborrows@[j].value@)] == added_reborrows@[j].conditions@
                    && !exists|k: BorrowsEdgeKindView| #[trigger] self@.graph.contains_key(k) && reborrow_at(k, added_reborrows@[j].value@.reserve_location),
                forall|j: int| 0 <= j < i && !(exists|k: BorrowsEdgeKindView| #[trigger] self@.graph.contains_key(k) && reborrow_at(k, (#[trigger] to_rbs@[j]).value@.reserve_location))
                    ==> exists|a: int| 0 <= a < added_reborrows@.len() && (#[trigger] added_reborrows@[a]).value@ == to_rbs@[j].value@,
            decreases to_rbs@.len() - i,
        {
            let ghost prev = added_reborrows@;
            if !self.has_reborrow_at_location(to_rbs[i].value.reserve_location()) {
                added_reborrows.push(Conditioned { conditions: to_rbs[i].conditions.clone(), value: to_rbs[i].value.clone() });
            }
            proof {
                assert forall|j: int| 0 <= j < i + 1 && !(exists|k: BorrowsEdgeKindView| #[trigger] self@.graph.contains_key(k) && reborrow_at(k, (#[trigger] to_rbs@[j]).value@.reserve_location))
                    implies exists|a: int| 0 <= a < added_reborrows@.len() && (#[trigger] added_reborrows@[a]).value@ == to_rbs@[j].value@ by {
                    if j < i {
                        let a = choose|a: int| 0 <= a < prev.len() && (#[trigger] prev[a]).value@ == to_rbs@[j].value@;
                        assert(added_reborrows@[a] == prev[a]);
                    } else {
                        assert(added_reborrows@[added_reborrows@.len() - 1].value@ == to_rbs@[j].value@);
                    }
                }
            }
            i = i + 1;
        }
        proof {
            assert forall|rb: ReborrowView| #[trigger] to@.graph.contains_key(BorrowsEdgeKindView::Reborrow(rb))
                && !(exists|k: BorrowsEdgeKindView| #[trigger] self@.graph.contains_key(k) && reborrow_at(k, rb.reserve_location))
                implies exists|a: int| 0 <= a < added_reborrows@.len() && (#[trigger] added_reborrows@[a]).value@ == rb by {
                let j = choose|j: int| 0 <= j < to_rbs@.len() && BorrowsEdgeKindView::Reborrow((#[trigger] to_rbs@[j]).value@) == BorrowsEdgeKindView::Reborrow(rb);
                assert(to_rbs@[j].value@ == rb);
            }
        }
        let to_des = to.deref_expansions();
        let mut expands: Vec<Conditioned<DerefExpansion>> = Vec::new();
        let mut i: usize = 0;
        while i < to_des.len()
            invariant
                i <= to_des@.len(),
                self.wf(),
                to.wf(),
                forall|j: int| 0 <= j < to_des@.len() ==> to@.graph.contains_key(BorrowsEdgeKindView::DerefExpansion((#[trigger] to_des@[j]).value@))
                    && to@.graph[BorrowsEdgeKindView::DerefExpansion(to_des@[j].value@)] == to_des@[j].conditions@,
                forall|j: int| 0 <= j < expands@.len() ==> to@.graph.contains_key(BorrowsEdgeKindView::DerefExpansion((#[trigger] expands@[j]).value@))
                    && to@.graph[BorrowsEdgeKindView::DerefExpansion(expands@[j].value@)] == expands@[j].conditions@
                    && !(self@.graph.contains_key(BorrowsEdgeKindView::DerefExpansion(expands@[j].value@))
                        && self@.graph[BorrowsEdgeKindView::DerefExpansion(expands@[j].value@)] == expands@[j].conditions@),
                forall|j: int| 0 <= j < i && !(self@.graph.contains_key(BorrowsEdgeKindView::DerefExpansion((#[trigger] to_des@[j]).value@))
                        && self@.graph[BorrowsEdgeKindView::DerefExpansion(to_des@[j].value@)] == to_des@[j].conditions@)
                    ==> exists|a: int| 0 <= a < expands@.len() && (#[trigger] expands@[a]).value@ == to_des@[j].value@,
            decreases to_des@.len() - i,
        {
            let ghost prev = expands@;
            let edge = BorrowsEdge::new(BorrowsEdgeKind::DerefExpansion(to_des[i].value.clone()), to_des[i].conditions.clone());
            proof {
                assert(self@.graph == self.graph@);
            }
            if !self.graph.contains_edge(&edge) {
                expands.push(Conditioned { conditions: to_des[i].conditions.clone(), value: to_des[i].value.clone() });
            }
            proof {
                assert forall|j: int| 0 <= j < i + 1 && !(self@.graph.contains_key(BorrowsEdgeKindView::DerefExpansion((#[trigger] to_des@[j]).value@))
                        && self@.graph[BorrowsEdgeKindView::DerefExpansion(to_des@[j].value@)] == to_des@[j].conditions@)
                    implies exists|a: int| 0 <= a < expands@.len() && (#[trigger] expands@[a]).value@ == to_des@[j].value@ by {
                    if j < i {
                        let a = choose|a: int| 0 <= a < prev.len() && (#[trigger] prev[a]).value@ == to_des@[j].value@;
                        assert(expands@[a] == prev[a]);
                    } else {
                        assert(expands@[expands@.len() - 1].value@ == to_des@[j].value@);
                    }
                }
            }
            i = i + 1;
        }
        proof {
            assert forall|k: BorrowsEdgeKindView| #[trigger] to@.graph.contains_key(k) && k is DerefExpansion
                && !(self@.graph.contains_key(k) && self@.graph[k] == to@.graph[k])
                implies exists|a: int| 0 <= a < expands@.len() && BorrowsEdgeKindView::DerefExpansion((#[trigger] expands@[a]).value@) == k by {
                let j = choose|j: int| 0 <= j < to_des@.len() && BorrowsEdgeKindView::DerefExpansion((#[trigger] to_des@[j]).value@) == k;
                let a = choose|a: int| 0 <= a < expands@.len() && (#[trigger] expands@[a]).value@ == to_des@[j].value@;
            }
        }
        let mut ug = UnblockGraph::new();
        let self_rbs = self.reborrows();
        let mut i: usize = 0;
        while i < self_rbs.len()
            invariant
                i <= self_rbs@.len(),
                self.wf(),
                to.wf(),
                forall|j: int| 0 <= j < self_rbs@.len() ==> self@.graph.contains_key(BorrowsEdgeKindView::Reborrow((#[trigger] self_rbs@[j]).value@)),
                forall|k: BorrowsEdgeKindView| #[trigger] self@.graph.contains_key(k) && k is Reborrow
                    ==> exists|j: int| 0 <= j < self_rbs@.len() && BorrowsEdgeKindView::Reborrow((#[trigger] self_rbs@[j]).value@) == k,
                ug.planned_from(self@.graph),
                ug.settled(),
                !ug.has_error_spec() ==> well_ordered(self@.graph, ug@),
                forall|j: int| 0 <= j < i && !(exists|k: BorrowsEdgeKindView| #[trigger] to@.graph.contains_key(k) && reborrow_at(k, (#[trigger] self_rbs@[j]).value@.reserve_location))
                    ==> (crate::unblock_graph::action_for(BorrowsEdgeKindView::Reborrow(self_rbs@[j].value@)) matches Some(x) && ug@.contains(x)),
            decreases self_rbs@.len() - i,
        {
            let ghost before = ug@;
            if !to.has_reborrow_at_location(self_rbs[i].value.reserve_location()) {
                ug.kill_reborrow(&self_rbs[i], self, repacker);
            }
            proof {
                assert forall|j: int| 0 <= j < i + 1 && !(exists|k: BorrowsEdgeKindView| #[trigger] to@.graph.contains_key(k) && reborrow_at(k, (#[trigger] self_rbs@[j]).value@.reserve_location))
                    implies (crate::unblock_graph::action_for(BorrowsEdgeKindView::Reborrow(self_rbs@[j].value@)) matches Some(x) && ug@.contains(x)) by {
                    if j < i {
                        let x = crate::unblock_graph::action_for(BorrowsEdgeKindView::Reborrow(self_rbs@[j].value@)).unwrap();
                        let w = choose|w: int| 0 <= w < before.len() && before[w] == x;
                        assert(ug@[w] == x);
                    }
                }
            }
            i = i + 1;
        }
        let self_des = self.deref_expansions();
        let mut i: usize = 0;
        while i < self_des.len()
            invariant
                i <= self_des@.len(),
                self.wf(),
                to.wf(),
                forall|j: int| 0 <= j < self_des@.len() ==> self@.graph.contains_key(BorrowsEdgeKindView::DerefExpansion((#[trigger] self_des@[j]).value@))
                    && self@.graph[BorrowsEdgeKindView::DerefExpansion(self_des@[j].value@)] == self_des@[j].conditions@,
                forall|k: BorrowsEdgeKindView| #[trigger] self@.graph.contains_key(k) && k is DerefExpansion
                    ==> exists|j: int| 0 <= j < self_des@.len() && BorrowsEdgeKindView::DerefExpansion((#[trigger] self_des@[j]).value@) == k,
                ug.planned_from(self@.graph),
                ug.settled(),
                !ug.has_error_spec() ==> well_ordered(self@.graph, ug@),
                forall|rb: ReborrowView| #[trigger] self@.graph.contains_key(BorrowsEdgeKindView::Reborrow(rb))
                    && !(exists|k: BorrowsEdgeKindView| #[trigger] to@.graph.contains_key(k) && reborrow_at(k, rb.reserve_location))
                    ==> (crate::unblock_graph::action_for(BorrowsEdgeKindView::Reborrow(rb)) matches Some(x) && ug@.contains(x)),
                forall|j: int| 0 <= j < i && !(to@.graph.contains_key(BorrowsEdgeKindView::DerefExpansion((#[trigger] self_des@[j]).value@))
                    && to@.graph[BorrowsEdgeKindView::DerefExpansion(self_des@[j].value@)] == self_des@[j].conditions@)
                    ==> ug@.contains(crate::unblock_graph::UnblockActionView::Collapse(self_des@[j].value@.base(), self_des@[j].value@.elems())),
            decreases self_des@.len() - i,
        {
            let ghost before = ug@;
            let edge = BorrowsEdge::new(BorrowsEdgeKind::DerefExpansion(self_des[i].value.clone()), self_des[i].conditions.clone());
            proof {
                assert(to@.graph == to.graph@);
            }
            if !to.graph.contains_edge(&edge) {
                let base = self_des[i].value.base();
                ug.unblock_place(&MaybeRemotePlace::Local(base), self, repacker);
                proof {
                    let k = BorrowsEdgeKindView::DerefExpansion(self_des@[i as int].value@);
                    assert(k.blocked_places().contains(MaybeRemotePlaceView::Local(self_des@[i as int].value@.base())));
                    assert(self@.graph.contains_key(k));
                }
            }
            proof {
                assert forall|rb: ReborrowView| #[trigger] self@.graph.contains_key(BorrowsEdgeKindView::Reborrow(rb))
                    && !(exists|k: BorrowsEdgeKindView| #[trigger] to@.graph.contains_key(k) && reborrow_at(k, rb.reserve_location))
                    implies (crate::unblock_graph::action_for(BorrowsEdgeKindView::Reborrow(rb)) matches Some(x) && ug@.contains(x)) by {
                    let x = crate::unblock_graph::action_for(BorrowsEdgeKindView::Reborrow(rb)).unwrap();
                    let w = choose|w: int| 0 <= w < before.len() && before[w] == x;
                    assert(ug@[w] == x);
                }
                assert forall|j: int| 0 <= j < i + 1 && !(to@.graph.contains_key(BorrowsEdgeKindView::DerefExpansion((#[trigger] self_des@[j]).value@))
                    && to@.graph[BorrowsEdgeKindView::DerefExpansion(self_des@[j].value@)] == self_des@[j].conditions@)
                    implies ug@.contains(crate::unblock_graph::UnblockActionView::Collapse(self_des@[j].value@.base(), self_des@[j].value@.elems())) by {
                    if j < i {
                        let x = crate::unblock_graph::UnblockActionView::Collapse(self_des@[j].value@.base(), self_des@[j].value@.elems());
                        let w = choose|w: int| 0 <= w < before.len() && before[w] == x;
                        assert(ug@[w] == x);
                    }
                }
            }
            i = i + 1;
        }
        let self_abs = self.region_abstractions();
        let mut i: usize = 0;
        while i < self_abs.len()
            invariant
                i <= self_abs@.len(),
                self.wf(),
                to.wf(),
                forall|j: int| 0 <= j < self_abs@.len() ==> self@.graph.contains_key(BorrowsEdgeKindView::Abstraction((#[trigger] self_abs@[j]).value@))
                    && self@.graph[BorrowsEdgeKindView::Abstraction(self_abs@[j].value@)] == self_abs@[j].conditions@,
                forall|k: BorrowsEdgeKindView| #[trigger] self@.graph.contains_key(k) && k is Abstraction
                    ==> exists|j: int| 0 <= j < self_abs@.len() && BorrowsEdgeKindView::Abstraction((#[trigger] self_abs@[j]).value@) == k,
                ug.planned_from(self@.graph),
                ug.settled(),
                !ug.has_error_spec() ==> well_ordered(self@.graph, ug@),
                forall|rb: ReborrowView| #[trigger] self@.graph.contains_key(BorrowsEdgeKindView::Reborrow(rb))
                    && !(exists|k: BorrowsEdgeKindView| #[trigger] to@.graph.contains_key(k) && reborrow_at(k, rb.reserve_location))
                    ==> (crate::unblock_graph::action_for(BorrowsEdgeKindView::Reborrow(rb)) matches Some(x) && ug@.contains(x)),
                forall|d: DerefExpansionView| #[trigger] self@.graph.contains_key(BorrowsEdgeKindView::DerefExpansion(d))
                    && !(to@.graph.contains_key(BorrowsEdgeKindView::DerefExpansion(d)) && to@.graph[BorrowsEdgeKindView::DerefExpansion(d)] == self@.graph[BorrowsEdgeKindView::DerefExpansion(d)])
                    ==> ug@.contains(crate::unblock_graph::UnblockActionView::Collapse(d.base(), d.elems())),
                forall|j: int| 0 <= j < i && !(to@.graph.contains_key(BorrowsEdgeKindView::Abstraction((#[trigger] self_abs@[j]).value@))
                    && to@.graph[BorrowsEdgeKindView::Abstraction(self_abs@[j].value@)] == self_abs@[j].conditions@)
                    ==> ug@.contains(crate::unblock_graph::UnblockActionView::TerminateAbstraction(self_abs@[j].value@.location(), self_abs@[j].value@)),
            decreases self_abs@.len() - i,
        {
            let ghost before = ug@;
            let edge = BorrowsEdge::new(BorrowsEdgeKind::Abstraction(self_abs[i].value.clone()), self_abs[i].conditions.clone());
            proof {
                assert(to@.graph == to.graph@);
            }
            if !to.graph.contains_edge(&edge) {
                ug.kill_abstraction(self, &self_abs[i].value, repacker);
            }
            proof {
                assert forall|rb: ReborrowView| #[trigger] self@.graph.contains_key(BorrowsEdgeKindView::Reborrow(rb))
                    && !(exists|k: BorrowsEdgeKindView| #[trigger] to@.graph.contains_key(k) && reborrow_at(k, rb.reserve_location))
                    implies (crate::unblock_graph::action_for(BorrowsEdgeKindView::Reborrow(rb)) matches Some(x) && ug@.contains(x)) by {
                    let x = crate::unblock_graph::action_for(BorrowsEdgeKindView::Reborrow(rb)).unwrap();
                    let w = choose|w: int| 0 <= w < before.len() && before[w] == x;
                    assert(ug@[w] == x);
                }
                assert forall|d: DerefExpansionView| #[trigger] self@.graph.contains_key(BorrowsEdgeKindView::DerefExpansion(d))
                    && !(to@.graph.contains_key(BorrowsEdgeKindView::DerefExpansion(d)) && to@.graph[BorrowsEdgeKindView::DerefExpansion(d)] == self@.graph[BorrowsEdgeKindView::DerefExpansion(d)])
                    implies ug@.contains(crate::unblock_graph::UnblockActionView::Collapse(d.base(), d.elems())) by {
                    let x = crate::unblock_graph::UnblockActionView::Collapse(d.base(), d.elems());
                    let w = choose|w: int| 0 <= w < before.len() && before[w] == x;
                    assert(ug@[w] == x);
                }
                assert forall|j: int| 0 <= j < i + 1 && !(to@.graph.contains_key(BorrowsEdgeKindView::Abstraction((#[trigger] self_abs@[j]).value@))
                    && to@.graph[BorrowsEdgeKindView::Abstraction(self_abs@[j].value@)] == self_abs@[j].conditions@)
                    implies ug@.contains(crate::unblock_graph::UnblockActionView::TerminateAbstraction(self_abs@[j].value@.location(), self_abs@[j].value@)) by {
                    if j < i {
                        let x = crate::unblock_graph::UnblockActionView::TerminateAbstraction(self_abs@[j].value@.location(), self_abs@[j].value@);
                        let w = choose|w: int| 0 <= w < before.len() && before[w] == x;
                        assert(ug@[w] == x);
                    }
                }
            }
            i = i + 1;
        }
        proof {
            ug.lemma_planned_actions(self@.graph);
            assert forall|a: crate::domain::AbstractionTypeView| #[trigger] self@.graph.contains_key(BorrowsEdgeKindView::Abstraction(a))
                && !(to@.graph.contains_key(BorrowsEdgeKindView::Abstraction(a)) && to@.graph[BorrowsEdgeKindView::Abstraction(a)] == self@.graph[BorrowsEdgeKindView::Abstraction(a)])
                implies ug@.contains(crate::unblock_graph::UnblockActionView::TerminateAbstraction(a.location(), a)) by {
                let j = choose|j: int| 0 <= j < self_abs@.len() && BorrowsEdgeKindView::Abstraction((#[trigger] self_abs@[j]).value@) == BorrowsEdgeKindView::Abstraction(a);
                assert(self_abs@[j].value@ == a);
            }
        }
        ReborrowBridge { added_reborrows, expands, ug }
    }

    /// Makes `place` the exact granularity of access: what blocks `place`
    /// is torn down, each reborrow assigned under `place` records its
    /// blocked place as an input of `place`'s region projections, and the
    /// deref expansions down to `place` are materialised.
    pub fn ensure_expansion_to_exactly(&mut self, place: &Place, repacker: &PlaceRepacker, location: Location)
        requires
            old(self).wf(),
        ensures
            final(self).wf(),
            !graph_blocks(final(self)@.graph, MaybeRemotePlaceView::Local(MaybeOldPlaceView::Current(place@))),
            forall|rb: ReborrowView, i: int| #[trigger] old(self)@.graph.contains_key(BorrowsEdgeKindView::Reborrow(rb))
                && assigned_under(rb, place@)
                && rb.blocked_place != MaybeRemotePlaceView::Local(MaybeOldPlaceView::Current(place@))
                && 0 <= i < region_projection_vids(repacker, MaybeOldPlaceView::Current(place@)).len()
                ==> final(self)@.graph.contains_key(#[trigger] member_for(rb.blocked_place, place@, region_projection_vids(repacker, MaybeOldPlaceView::Current(place@))[i], location)),
            forall|k: BorrowsEdgeKindView| #[trigger] final(self)@.graph.contains_key(k) ==> old(self)@.graph.contains_key(k)
                || (exists|rb: ReborrowView, i: int| old(self)@.graph.contains_key(BorrowsEdgeKindView::Reborrow(rb)) && assigned_under(rb, place@)
                    && 0 <= i < region_projection_vids(repacker, MaybeOldPlaceView::Current(place@)).len()
                    && k == #[trigger] member_for(rb.blocked_place, place@, region_projection_vids(repacker, MaybeOldPlaceView::Current(place@))[i], location))
                || (exists|n: int| needs_expansion(repacker, place@, n) && k == #[trigger] crate::graph::expansion_for(repacker, place@, n, location)),
            expansions_cover(final(self)@.graph, repacker, place@),
            only_writes_at(old(self)@.latest, final(self)@.latest, location),
    {
        let ghost g0 = self@.graph;
        let ghost m0 = self@.latest;
        let ghost target = MaybeRemotePlaceView::Local(MaybeOldPlaceView::Current(place@));
        let ghost vids = region_projection_vids(repacker, MaybeOldPlaceView::Current(place@));
        let edges = self.graph_edges();
        let current = MaybeOldPlace::Current { place: place.clone() };
        let mut ug = UnblockGraph::new();
        ug.unblock_place(&MaybeRemotePlace::Local(current.clone()), self, repacker);
        let ghost acts = ug@;
        self.apply_unblock_graph(ug, repacker, location);
        proof {
            assert forall|k: BorrowsEdgeKindView| self@.graph.contains_key(k) implies !(#[trigger] k.blocked_places().contains(target)) by {
                if k.blocked_places().contains(target) {
                    assert(g0.contains_key(k));
                    lemma_blocking_has_action(k, place@);
                    let a = crate::unblock_graph::action_for(k).unwrap();
                    assert(acts.contains(a));
                    let w = choose|w: int| 0 <= w < acts.len() && acts[w] == a;
                    assert(action_done(self@.graph, acts[w]));
                    lemma_done_removes(self@.graph, k, a);
                }
            }
        }
        let ghost g1 = self@.graph;
        let ghost m1 = self@.latest;
        let rps = current.region_projections(repacker);
        let mut i: usize = 0;
        while i < edges.len()
            invariant
                i <= edges@.len(),
                self.wf(),
                self@.latest == m1,
                forall|j: int| 0 <= j < edges@.len() ==> g0.contains_key((#[trigger] edges@[j])@.kind),
                forall|k: BorrowsEdgeKindView| #[trigger] g0.contains_key(k) ==> exists|j: int| 0 <= j < edges@.len() && (#[trigger] edges@[j])@.kind == k,
                rps@.len() == vids.len(),
                forall|j: int| 0 <= j < rps@.len() ==> (#[trigger] rps@[j])@ == (RegionProjectionView { place: MaybeOldPlaceView::Current(place@), region: vids[j] }),
                current@ == MaybeOldPlaceView::Current(place@),
                target == MaybeRemotePlaceView::Local(MaybeOldPlaceView::Current(place@)),
                vids == region_projection_vids(repacker, MaybeOldPlaceView::Current(place@)),
                !graph_blocks(self@.graph, target),
                forall|k: BorrowsEdgeKindView| #[trigger] g1.contains_key(k) ==> self@.graph.contains_key(k),
                forall|k: BorrowsEdgeKindView| #[trigger] self@.graph.contains_key(k) ==> g1.contains_key(k)
                    || (exists|rb: ReborrowView, x: int| g0.contains_key(BorrowsEdgeKindView::Reborrow(rb)) && assigned_under(rb, place@)
                        && 0 <= x < vids.len() && k == #[trigger] member_for(rb.blocked_place, place@, vids[x], location)),
                forall|j: int, x: int| 0 <= j < i && 0 <= x < vids.len() && qualifies((#[trigger] edges@[j])@.kind, place@)
                    ==> self@.graph.contains_key(#[trigger] member_for(blocked_of(edges@[j]@.kind), place@, vids[x], location)),
            decreases edges@.len() - i,
        {
            if let BorrowsEdgeKind::Reborrow(rb) = &edges[i].kind {
                let under = match &rb.assigned_place {
                    MaybeOldPlace::Current { place: assigned } => place.is_prefix(assigned),
                    _ => false,
                };
                let cur_remote = MaybeRemotePlace::Local(current.clone());
                if under && rb.blocked_place != cur_remote {
                    let ghost rbv = rb@;
                    proof {
                        assert(cur_remote@ == target);
                        assert(assigned_under(rbv, place@));
                        assert(g0.contains_key(BorrowsEdgeKindView::Reborrow(rbv)));
                    }
                    let mut j: usize = 0;
                    while j < rps.len()
                        invariant
                            j <= rps@.len(),
                            self.wf(),
                            self@.latest == m1,
                            rps@.len() == vids.len(),
                            forall|y: int| 0 <= y < rps@.len() ==> (#[trigger] rps@[y])@ == (RegionProjectionView { place: MaybeOldPlaceView::Current(place@), region: vids[y] }),
                            rb@ == rbv,
                            assigned_under(rbv, place@),
                            rbv.blocked_place != target,
                            g0.contains_key(BorrowsEdgeKindView::Reborrow(rbv)),
                            !graph_blocks(self@.graph, target),
                            forall|k: BorrowsEdgeKindView| #[trigger] g1.contains_key(k) ==> self@.graph.contains_key(k),
                            forall|k: BorrowsEdgeKindView| #[trigger] self@.graph.contains_key(k) ==> g1.contains_key(k)
                                || (exists|rb2: ReborrowView, x: int| g0.contains_key(BorrowsEdgeKindView::Reborrow(rb2)) && assigned_under(rb2, place@)
                                    && 0 <= x < vids.len() && k == #[trigger] member_for(rb2.blocked_place, place@, vids[x], location)),
                            forall|y: int, x: int| 0 <= y < i && 0 <= x < vids.len() && qualifies((#[trigger] edges@[y])@.kind, place@)
                                ==> self@.graph.contains_key(#[trigger] member_for(blocked_of(edges@[y]@.kind), place@, vids[x], location)),
                            edges@[i as int]@.kind == BorrowsEdgeKindView::Reborrow(rbv),
                            forall|x: int| 0 <= x < j ==> self@.graph.contains_key(#[trigger] member_for(rbv.blocked_place, place@, vids[x], location)),
                        decreases rps@.len() - j,
                    {
                        let member = RegionProjectionMember::new(
                            rb.blocked_place.clone(),
                            rps[j].clone(),
                            location,
                            RegionProjectionMemberDirection::PlaceIsRegionInput,
                        );
                        let ghost before = self@.graph;
                        let ghost mk = member_for(rbv.blocked_place, place@, vids[j as int], location);
                        proof {
                            assert(BorrowsEdgeKindView::RegionProjectionMember(member@) == mk);
                        }
                        self.add_region_projection_member(member);
                        proof {
                            assert(self@.graph.contains_key(mk));
                            assert forall|k: BorrowsEdgeKindView| #[trigger] self@.graph.contains_key(k) && k.blocked_places().contains(target) implies false by {
                                if k != mk {
                                    assert(before.contains_key(k));
                                } else {
                                    assert(mk.blocked_places() == set![rbv.blocked_place]);
                                }
                            }
                            assert forall|k: BorrowsEdgeKindView| #[trigger] self@.graph.contains_key(k) implies g1.contains_key(k)
                                || (exists|rb2: ReborrowView, x: int| g0.contains_key(BorrowsEdgeKindView::Reborrow(rb2)) && assigned_under(rb2, place@)
                                    && 0 <= x < vids.len() && k == #[trigger] member_for(rb2.blocked_place, place@, vids[x], location)) by {
                                if k == mk {
                                    assert(g0.contains_key(BorrowsEdgeKindView::Reborrow(rbv)) && assigned_under(rbv, place@)
                                        && 0 <= j < vids.len() && k == member_for(rbv.blocked_place, place@, vids[j as int], location));
                                } else {
                                    assert(before.contains_key(k));
                                }
                            }
                        }
                        j = j + 1;
                    }
                }
            }
            proof {
                assert forall|y: int, x: int| 0 <= y < i + 1 && 0 <= x < vids.len() && qualifies((#[trigger] edges@[y])@.kind, place@)
                    implies self@.graph.contains_key(#[trigger] member_for(blocked_of(edges@[y]@.kind), place@, vids[x], location)) by {
                }
            }
            i = i + 1;
        }
        let ghost g2 = self@.graph;
        self.graph.ensure_deref_expansion_to_at_least(place, repacker, location);
        proof {
            assert(self@.graph == self.graph@);
            assert forall|k: BorrowsEdgeKindView| self@.graph.contains_key(k) implies !(#[trigger] k.blocked_places().contains(target)) by {
                if !g2.contains_key(k) {
                    let n = choose|n: int| needs_expansion(repacker, place@, n) && k == #[trigger] crate::graph::expansion_for(repacker, place@, n, location);
                    assert(k.blocked_places() == set![MaybeRemotePlaceView::Local(MaybeOldPlaceView::Current(place@.take(n)))]);
                    assert(place@.take(n).projection.len() == n);
                }
            }
            assert forall|rb: ReborrowView, x: int| #[trigger] g0.contains_key(BorrowsEdgeKindView::Reborrow(rb))
                && assigned_under(rb, place@) && rb.blocked_place != target && 0 <= x < vids.len()
                implies self@.graph.contains_key(#[trigger] member_for(rb.blocked_place, place@, vids[x], location)) by {
                let y = choose|y: int| 0 <= y < edges@.len() && (#[trigger] edges@[y])@.kind == BorrowsEdgeKindView::Reborrow(rb);
                assert(qualifies(edges@[y]@.kind, place@));
                assert(g2.contains_key(member_for(blocked_of(edges@[y]@.kind), place@, vids[x], location)));
            }
            assert forall|k: BorrowsEdgeKindView| #[trigger] self@.graph.contains_key(k) implies g0.contains_key(k)
                || (exists|rb: ReborrowView, x: int| g0.contains_key(BorrowsEdgeKindView::Reborrow(rb)) && assigned_under(rb, place@)
                    && 0 <= x < vids.len() && k == #[trigger] member_for(rb.blocked_place, place@, vids[x], location))
                || (exists|n: int| needs_expansion(repacker, place@, n) && k == #[trigger] crate::graph::expansion_for(repacker, place@, n, location)) by {
                if g2.contains_key(k) && g1.contains_key(k) {
                    assert(g0.contains_key(k));
                }
            }
        }
    }

    /// Materialises the deref expansion of every reference to which the
    /// summary gives exclusive capability.
    pub fn ensure_deref_expansions_to_fpcs(&mut self, summary: &CapabilitySummary, repacker: &PlaceRepacker, location: Location)
        requires
            old(self).wf(),
        ensures
            final(self).wf(),
            final(self)@.latest == old(self)@.latest,
            forall|k: BorrowsEdgeKindView| #[trigger] old(self)@.graph.contains_key(k) ==> final(self)@.graph.contains_key(k) && final(self)@.graph[k] == old(self)@.graph[k],
            forall|k: BorrowsEdgeKindView| #[trigger] final(self)@.graph.contains_key(k) && !old(self)@.graph.contains_key(k)
                ==> final(self)@.graph[k] == Set::<PathCondition>::empty() && fpcs_expansion(summary, repacker, k, location),
            fpcs_covered(final(self)@.graph, summary, repacker),
            fpcs_covered(old(self)@.graph, summary, repacker) ==> final(self)@.graph == old(self)@.graph,
    {
        let ghost m0 = self@.latest;
        let ghost g0 = self@.graph;
        let mut i: usize = 0;
        while i < summary.locals.len()
            invariant
                i <= summary.locals@.len(),
                self.wf(),
                self@.latest == m0,
                forall|k: BorrowsEdgeKindView| #[trigger] g0.contains_key(k) ==> self@.graph.contains_key(k) && self@.graph[k] == g0[k],
                forall|k: BorrowsEdgeKindView| #[trigger] self@.graph.contains_key(k) && !g0.contains_key(k)
                    ==> self@.graph[k] == Set::<PathCondition>::empty() && fpcs_expansion(summary, repacker, k, location),
                forall|x: int, y: int| x < i && #[trigger] fpcs_target(summary, repacker, x, y)
                    ==> expansions_cover(self@.graph, repacker, fpcs_place(summary, x, y)),
                fpcs_covered(g0, summary, repacker) ==> self@.graph == g0,
            decreases summary.locals@.len() - i,
        {
            match &summary.locals[i] {
                CapabilityLocal::Allocated(ps) => {
                    let mut j: usize = 0;
                    while j < ps.len()
                        invariant
                            j <= ps@.len(),
                            i < summary.locals@.len(),
                            allocated(summary.locals@[i as int]) == ps@,
                            self.wf(),
                            self@.latest == m0,
                            forall|k: BorrowsEdgeKindView| #[trigger] g0.contains_key(k) ==> self@.graph.contains_key(k) && self@.graph[k] == g0[k],
                            forall|k: BorrowsEdgeKindView| #[trigger] self@.graph.contains_key(k) && !g0.contains_key(k)
                                ==> self@.graph[k] == Set::<PathCondition>::empty() && fpcs_expansion(summary, repacker, k, location),
                            forall|x: int, y: int| (x < i || (x == i && y < j)) && #[trigger] fpcs_target(summary, repacker, x, y)
                                ==> expansions_cover(self@.graph, repacker, fpcs_place(summary, x, y)),
                            fpcs_covered(g0, summary, repacker) ==> self@.graph == g0,
                        decreases ps@.len() - j,
                    {
                        let ghost before = self@.graph;
                        if ps[j].1 == CapabilityKind::Exclusive && ps[j].0.is_ref(repacker) {
                            let target = ps[j].0.project_deref();
                            proof {
                                assert(fpcs_target(summary, repacker, i as int, j as int));
                                assert(target@ == fpcs_place(summary, i as int, j as int));
                            }
                            self.graph.ensure_deref_expansion_to_at_least(&target, repacker, location);
                            proof {
                                assert(self@.graph == self.graph@);
                                assert forall|x: int, y: int| (x < i || (x == i && y < j + 1)) && #[trigger] fpcs_target(summary, repacker, x, y)
                                    implies expansions_cover(self@.graph, repacker, fpcs_place(summary, x, y)) by {
                                    if x == i && y == j {
                                    } else {
                                        lemma_cover_kept(before, self@.graph, repacker, fpcs_place(summary, x, y));
                                    }
                                }
                                assert forall|k: BorrowsEdgeKindView| #[trigger] self@.graph.contains_key(k) && !g0.contains_key(k)
                                    implies self@.graph[k] == Set::<PathCondition>::empty() && fpcs_expansion(summary, repacker, k, location) by {
                                    if !before.contains_key(k) {
                                        let n = choose|n: int| needs_expansion(repacker, target@, n) && k == #[trigger] crate::graph::expansion_for(repacker, target@, n, location);
                                        assert(fpcs_target(summary, repacker, i as int, j as int) && needs_expansion(repacker, fpcs_place(summary, i as int, j as int), n)
                                            && k == crate::graph::expansion_for(repacker, fpcs_place(summary, i as int, j as int), n, location));
                                    }
                                }
                                if fpcs_covered(g0, summary, repacker) {
                                    assert(expansions_cover(g0, repacker, fpcs_place(summary, i as int, j as int)));
                                }
                            }
                        } else {
                            proof {
                                assert(!fpcs_target(summary, repacker, i as int, j as int));
                            }
                        }
                        j = j + 1;
                    }
                },
                CapabilityLocal::Unallocated => {},
            }
            proof {
                assert forall|x: int, y: int| x < i + 1 && #[trigger] fpcs_target(summary, repacker, x, y)
                    implies expansions_cover(self@.graph, repacker, fpcs_place(summary, x, y)) by {
                    if x == i {
                        assert(0 <= y < allocated(summary.locals@[i as int]).len());
                    }
                }
            }
            i = i + 1;
        }
    }
}

/// Position `b` of local `a` of the summary is a reference with exclusive capability.
pub open spec fn fpcs_target(summary: &CapabilitySummary, r: &PlaceRepacker, a: int, b: int) -> bool {
    0 <= a < summary.locals@.len() && 0 <= b < allocated(summary.locals@[a]).len()
        && allocated(summary.locals@[a])[b].1 == CapabilityKind::Exclusive
        && is_ref_place(r, allocated(summary.locals@[a])[b].0@)
}

/// The place behind the reference at position `b` of local `a`.
pub open spec fn fpcs_place(summary: &CapabilitySummary, a: int, b: int) -> PlaceView {
    allocated(summary.locals@[a])[b].0@.project(crate::ir::ProjElem::Deref)
}

/// Every place behind an exclusive reference of the summary is expanded in `g`.
pub open spec fn fpcs_covered(g: Map<BorrowsEdgeKindView, Set<PathCondition>>, summary: &CapabilitySummary, r: &PlaceRepacker) -> bool {
    forall|a: int, b: int| #[trigger] fpcs_target(summary, r, a, b) ==> expansions_cover(g, r, fpcs_place(summary, a, b))
}

/// `k` is the expansion that some place behind an exclusive reference needs.
pub open spec fn fpcs_expansion(summary: &CapabilitySummary, r: &PlaceRepacker, k: BorrowsEdgeKindView, location: Location) -> bool {
    exists|a: int, b: int, n: int| #![trigger fpcs_target(summary, r, a, b), needs_expansion(r, fpcs_place(summary, a, b), n)]
        fpcs_target(summary, r, a, b) && needs_expansion(r, fpcs_place(summary, a, b), n)
        && k == crate::graph::expansion_for(r, fpcs_place(summary, a, b), n, location)
}

/// The place has a reference type.
pub open spec fn is_ref_place(r: &PlaceRepacker, p: PlaceView) -> bool {
    crate::ty::is_ref_ty(r, p.ty(r))
}

impl BorrowsState {
    /// The reborrows that block `place`, with their conditions.
    pub fn reborrows_blocking(&self, place: &MaybeOldPlace) -> (r: Vec<Conditioned<Reborrow>>)
        requires
            self.wf(),
        ensures
            forall|i: int| 0 <= i < r@.len() ==> self@.graph.contains_key(BorrowsEdgeKindView::Reborrow((#[trigger] r@[i]).value@))
                && self@.graph[BorrowsEdgeKindView::Reborrow(r@[i].value@)] == r@[i].conditions@
                && r@[i].value@.blocked_place == MaybeRemotePlaceView::Local(place@),
            forall|rb: ReborrowView| #[trigger] self@.graph.contains_key(BorrowsEdgeKindView::Reborrow(rb)) && rb.blocked_place == MaybeRemotePlaceView::Local(place@)
                ==> exists|i: int| 0 <= i < r@.len() && (#[trigger] r@[i]).value@ == rb,
    {
        let all = self.reborrows();
        let mut out: Vec<Conditioned<Reborrow>> = Vec::new();
        let mut i: usize = 0;
        while i < all.len()
            invariant
                i <= all@.len(),
                forall|j: int| 0 <= j < all@.len() ==> self@.graph.contains_key(BorrowsEdgeKindView::Reborrow((#[trigger] all@[j]).value@))
                    && self@.graph[BorrowsEdgeKindView::Reborrow(all@[j].value@)] == all@[j].conditions@,
                forall|k: BorrowsEdgeKindView| #[trigger] self@.graph.contains_key(k) && k is Reborrow
                    ==> exists|j: int| 0 <= j < all@.len() && BorrowsEdgeKindView::Reborrow((#[trigger] all@[j]).value@) == k,
                forall|j: int| 0 <= j < out@.len() ==> self@.graph.contains_key(BorrowsEdgeKindView::Reborrow((#[trigger] out@[j]).value@))
                    && self@.graph[BorrowsEdgeKindView::Reborrow(out@[j].value@)] == out@[j].conditions@
                    && out@[j].value@.blocked_place == MaybeRemotePlaceView::Local(place@),
                forall|j: int| 0 <= j < i && (#[trigger] all@[j]).value@.blocked_place == MaybeRemotePlaceView::Local(place@)
                    ==> exists|a: int| 0 <= a < out@.len() && (#[trigger] out@[a]).value@ == all@[j].value@,
            decreases all@.len() - i,
        {
            let ghost prev = out@;
            if all[i].value.blocked_place == MaybeRemotePlace::Local(place.clone()) {
                out.push(Conditioned { conditions: all[i].conditions.clone(), value: all[i].value.clone() });
            }
            proof {
                assert forall|j: int| 0 <= j < i + 1 && (#[trigger] all@[j]).value@.blocked_place == MaybeRemotePlaceView::Local(place@)
                    implies exists|a: int| 0 <= a < out@.len() && (#[trigger] out@[a]).value@ == all@[j].value@ by {
                    if j < i {
                        let a = choose|a: int| 0 <= a < prev.len() && (#[trigger] prev[a]).value@ == all@[j].value@;
                        assert(out@[a] == prev[a]);
                    } else {
                        assert(out@[out@.len() - 1].value@ == all@[j].value@);
                    }
                }
            }
            i = i + 1;
        }
        proof {
            assert forall|rb: ReborrowView| #[trigger] self@.graph.contains_key(BorrowsEdgeKindView::Reborrow(rb)) && rb.blocked_place == MaybeRemotePlaceView::Local(place@)
                implies exists|a: int| 0 <= a < out@.len() && (#[trigger] out@[a]).value@ == rb by {
                let j = choose|j: int| 0 <= j < all@.len() && BorrowsEdgeKindView::Reborrow((#[trigger] all@[j]).value@) == BorrowsEdgeKindView::Reborrow(rb);
                assert(all@[j].value@ == rb);
            }
        }
        out
    }

    /// The reborrows assigned to `place`, with their conditions.
    pub fn reborrows_assigned_to(&self, place: &MaybeOldPlace) -> (r: Vec<Conditioned<Reborrow>>)
        requires
            self.wf(),
        ensures
            forall|i: int| 0 <= i < r@.len() ==> self@.graph.contains_key(BorrowsEdgeKindView::Reborrow((#[trigger] r@[i]).value@))
                && self@.graph[BorrowsEdgeKindView::Reborrow(r@[i].value@)] == r@[i].conditions@
                && r@[i].value@.assigned_place == place@,
            forall|rb: ReborrowView| #[trigger] self@.graph.contains_key(BorrowsEdgeKindView::Reborrow(rb)) && rb.assigned_place == place@
                ==> exists|i: int| 0 <= i < r@.len() && (#[trigger] r@[i]).value@ == rb,
    {
        let all = self.reborrows();
        let mut out: Vec<Conditioned<Reborrow>> = Vec::new();
        let mut i: usize = 0;
        while i < all.len()
            invariant
                i <= all@.len(),
                forall|j: int| 0 <= j < all@.len() ==> self@.graph.contains_key(BorrowsEdgeKindView::Reborrow((#[trigger] all@[j]).value@))
                    && self@.graph[BorrowsEdgeKindView::Reborrow(all@[j].value@)] == all@[j].conditions@,
                forall|k: BorrowsEdgeKindView| #[trigger] self@.graph.contains_key(k) && k is Reborrow
                    ==> exists|j: int| 0 <= j < all@.len() && BorrowsEdgeKindView::Reborrow((#[trigger] all@[j]).value@) == k,
                forall|j: int| 0 <= j < out@.len() ==> self@.graph.contains_key(BorrowsEdgeKindView::Reborrow((#[trigger] out@[j]).value@))
                    && self@.graph[BorrowsEdgeKindView::Reborrow(out@[j].value@)] == out@[j].conditions@
                    && out@[j].value@.assigned_place == place@,
                forall|j: int| 0 <= j < i && (#[trigger] all@[j]).value@.assigned_place == place@
                    ==> exists|a: int| 0 <= a < out@.len() && (#[trigger] out@[a]).value@ == all@[j].value@,
            decreases all@.len() - i,
        {
            let ghost prev = out@;
            if all[i].value.assigned_place == *place {
                out.push(Conditioned { conditions: all[i].conditions.clone(), value: all[i].value.clone() });
            }
            proof {
                assert forall|j: int| 0 <= j < i + 1 && (#[trigger] all@[j]).value@.assigned_place == place@
                    implies exists|a: int| 0 <= a < out@.len() && (#[trigger] out@[a]).value@ == all@[j].value@ by {
                    if j < i {
                        let a = choose|a: int| 0 <= a < prev.len() && (#[trigger] prev[a]).value@ == all@[j].value@;
                        assert(out@[a] == prev[a]);
                    } else {
                        assert(out@[out@.len() - 1].value@ == all@[j].value@);
                    }
                }
            }
            i = i + 1;
        }
        proof {
            assert forall|rb: ReborrowView| #[trigger] self@.graph.contains_key(BorrowsEdgeKindView::Reborrow(rb)) && rb.assigned_place == place@
                implies exists|a: int| 0 <= a < out@.len() && (#[trigger] out@[a]).value@ == rb by {
                let j = choose|j: int| 0 <= j < all@.len() && BorrowsEdgeKindView::Reborrow((#[trigger] all@[j]).value@) == BorrowsEdgeKindView::Reborrow(rb);
                assert(all@[j].value@ == rb);
            }
        }
        out
    }

    /// The reborrows that `place` blocks by: those assigned to it, with their conditions.
    pub fn reborrows_blocked_by(&self, place: &MaybeOldPlace) -> (r: Vec<Conditioned<Reborrow>>)
        requires
            self.wf(),
        ensures
            forall|i: int| 0 <= i < r@.len() ==> self@.graph.contains_key(BorrowsEdgeKindView::Reborrow((#[trigger] r@[i]).value@))
                && self@.graph[BorrowsEdgeKindView::Reborrow(r@[i].value@)] == r@[i].conditions@
                && r@[i].value@.assigned_place == place@,
            forall|rb: ReborrowView| #[trigger] self@.graph.contains_key(BorrowsEdgeKindView::Reborrow(rb)) && rb.assigned_place == place@
                ==> exists|i: int| 0 <= i < r@.len() && (#[trigger] r@[i]).value@ == rb,
    {
        let all = self.reborrows();
        let mut out: Vec<Conditioned<Reborrow>> = Vec::new();
        let mut i: usize = 0;
        while i < all.len()
            invariant
                i <= all@.len(),
                forall|j: int| 0 <= j < all@.len() ==> self@.graph.contains_key(BorrowsEdgeKindView::Reborrow((#[trigger] all@[j]).value@))
                    && self@.graph[BorrowsEdgeKindView::Reborrow(all@[j].value@)] == all@[j].conditions@,
                forall|k: BorrowsEdgeKindView| #[trigger] self@.graph.contains_key(k) && k is Reborrow
                    ==> exists|j: int| 0 <= j < all@.len() && BorrowsEdgeKindView::Reborrow((#[trigger] all@[j]).value@) == k,
                forall|j: int| 0 <= j < out@.len() ==> self@.graph.contains_key(BorrowsEdgeKindView::Reborrow((#[trigger] out@[j]).value@))
                    && self@.graph[BorrowsEdgeKindView::Reborrow(out@[j].value@)] == out@[j].conditions@
                    && out@[j].value@.assigned_place == place@,
                forall|j: int| 0 <= j < i && (#[trigger] all@[j]).value@.assigned_place == place@
                    ==> exists|a: int| 0 <= a < out@.len() && (#[trigger] out@[a]).value@ == all@[j].value@,
            decreases all@.len() - i,
        {
            let ghost prev = out@;
            if all[i].value.assigned_place == *place {
                out.push(Conditioned { conditions: all[i].conditions.clone(), value: all[i].value.clone() });
            }
            proof {
                assert forall|j: int| 0 <= j < i + 1 && (#[trigger] all@[j]).value@.assigned_place == place@
                    implies exists|a: int| 0 <= a < out@.len() && (#[trigger] out@[a]).value@ == all@[j].value@ by {
                    if j < i {
                        let a = choose|a: int| 0 <= a < prev.len() && (#[trigger] prev[a]).value@ == all@[j].value@;
                        assert(out@[a] == prev[a]);
                    } else {
                        assert(out@[out@.len() - 1].value@ == all@[j].value@);
                    }
                }
            }
            i = i + 1;
        }
        proof {
            assert forall|rb: ReborrowView| #[trigger] self@.graph.contains_key(BorrowsEdgeKindView::Reborrow(rb)) && rb.assigned_place == place@
                implies exists|a: int| 0 <= a < out@.len() && (#[trigger] out@[a]).value@ == rb by {
                let j = choose|j: int| 0 <= j < all@.len() && BorrowsEdgeKindView::Reborrow((#[trigger] all@[j]).value@) == BorrowsEdgeKindView::Reborrow(rb);
                assert(all@[j].value@ == rb);
            }
        }
        out
    }

    /// The abstractions one of whose inputs is `place`.
    pub fn get_abstractions_blocking(&self, place: &MaybeRemotePlace) -> (r: Vec<Conditioned<AbstractionEdge>>)
        requires
            self.wf(),
        ensures
            forall|i: int| 0 <= i < r@.len() ==> self@.graph.contains_key(BorrowsEdgeKindView::Abstraction((#[trigger] r@[i]).value@))
                && self@.graph[BorrowsEdgeKindView::Abstraction(r@[i].value@)] == r@[i].conditions@
                && r@[i].value@.blocks_places().contains(place@),
            forall|a: crate::domain::AbstractionTypeView| #[trigger] self@.graph.contains_key(BorrowsEdgeKindView::Abstraction(a)) && a.blocks_places().contains(place@)
                ==> exists|i: int| 0 <= i < r@.len() && (#[trigger] r@[i]).value@ == a,
    {
        let all = self.region_abstractions();
        let mut out: Vec<Conditioned<AbstractionEdge>> = Vec::new();
        let mut i: usize = 0;
        while i < all.len()
            invariant
                i <= all@.len(),
                forall|j: int| 0 <= j < all@.len() ==> self@.graph.contains_key(BorrowsEdgeKindView::Abstraction((#[trigger] all@[j]).value@))
                    && self@.graph[BorrowsEdgeKindView::Abstraction(all@[j].value@)] == all@[j].conditions@,
                forall|k: BorrowsEdgeKindView| #[trigger] self@.graph.contains_key(k) && k is Abstraction
                    ==> exists|j: int| 0 <= j < all@.len() && BorrowsEdgeKindView::Abstraction((#[trigger] all@[j]).value@) == k,
                forall|j: int| 0 <= j < out@.len() ==> self@.graph.contains_key(BorrowsEdgeKindView::Abstraction((#[trigger] out@[j]).value@))
                    && self@.graph[BorrowsEdgeKindView::Abstraction(out@[j].value@)] == out@[j].conditions@
                    && out@[j].value@.blocks_places().contains(place@),
                forall|j: int| 0 <= j < i && (#[trigger] all@[j]).value@.blocks_places().contains(place@)
                    ==> exists|a: int| 0 <= a < out@.len() && (#[trigger] out@[a]).value@ == all@[j].value@,
            decreases all@.len() - i,
        {
            let ghost prev = out@;
            if all[i].value.blocks(place) {
                out.push(Conditioned { conditions: all[i].conditions.clone(), value: all[i].value.clone() });
            }
            proof {
                assert forall|j: int| 0 <= j < i + 1 && (#[trigger] all@[j]).value@.blocks_places().contains(place@)
                    implies exists|a: int| 0 <= a < out@.len() && (#[trigger] out@[a]).value@ == all@[j].value@ by {
                    if j < i {
                        let a = choose|a: int| 0 <= a < prev.len() && (#[trigger] prev[a]).value@ == all@[j].value@;
                        assert(out@[a] == prev[a]);
                    } else {
                        assert(out@[out@.len() - 1].value@ == all@[j].value@);
                    }
                }
            }
            i = i + 1;
        }
        proof {
            assert forall|a: crate::domain::AbstractionTypeView| #[trigger] self@.graph.contains_key(BorrowsEdgeKindView::Abstraction(a)) && a.blocks_places().contains(place@)
                implies exists|x: int| 0 <= x < out@.len() && (#[trigger] out@[x]).value@ == a by {
                let j = choose|j: int| 0 <= j < all@.len() && BorrowsEdgeKindView::Abstraction((#[trigger] all@[j]).value@) == BorrowsEdgeKindView::Abstraction(a);
                assert(all@[j].value@ == a);
            }
        }
        out
    }

    /// Each member edge whose projection lies on `old_projection_place`
    /// moves to the projection of `new_projection_place` at the same position.
    pub fn move_region_projection_member_projections(&mut self, old_projection_place: &MaybeOldPlace, new_projection_place: &MaybeOldPlace, repacker: &PlaceRepacker)
        requires
            old(self).wf(),
        ensures
            final(self).wf(),
            final(self)@.latest == old(self)@.latest,
            final(self)@.graph == map_kinds(old(self)@.graph, |k: BorrowsEdgeKindView| k.move_member(
                old_projection_place@,
                new_projection_place@,
                region_projection_vids(repacker, old_projection_place@),
                region_projection_vids(repacker, new_projection_place@),
            )),
            same_non_members(old(self)@.graph, final(self)@.graph),
    {
        let old_vids = vids_of(old_projection_place, repacker);
        let new_vids = vids_of(new_projection_place, repacker);
        let op = crate::graph::KindRewrite::MoveMembers {
            old_place: old_projection_place.clone(),
            new_place: new_projection_place.clone(),
            old_vids,
            new_vids,
        };
        let ghost f = |k: BorrowsEdgeKindView| k.move_member(
            old_projection_place@,
            new_projection_place@,
            region_projection_vids(repacker, old_projection_place@),
            region_projection_vids(repacker, new_projection_place@),
        );
        self.graph.rewrite(&op);
        proof {
            lemma_map_kinds_ext(old(self)@.graph, |k: BorrowsEdgeKindView| op@.apply(k), f);
            let g = old(self)@.graph;
            let m = map_kinds(g, f);
            assert forall|k: BorrowsEdgeKindView| !(k is RegionProjectionMember) implies #[trigger] g.contains_key(k) == m.contains_key(k)
                && (g.contains_key(k) ==> g[k] == m[k]) by {
                if m.contains_key(k) {
                    let k0 = choose|k0: BorrowsEdgeKindView| g.contains_key(k0) && #[trigger] f(k0) == k;
                    assert(k0 == k);
                }
                if g.contains_key(k) {
                    assert(f(k) == k);
                    assert(m[k] =~= g[k]) by {
                        assert forall|pc: PathCondition| m[k].contains(pc) implies g[k].contains(pc) by {
                            let k0 = choose|k0: BorrowsEdgeKindView| g.contains_key(k0) && #[trigger] f(k0) == k && g[k0].contains(pc);
                            assert(k0 == k);
                        }
                    }
                }
            }
        }
    }
}

impl BorrowsState {
    /// Materialises the deref expansions that `place` needs.
    pub fn ensure_deref_expansion_to_at_least(&mut self, place: &Place, repacker: &PlaceRepacker, location: Location) -> (changed: bool)
        requires
            old(self).wf(),
        ensures
            final(self).wf(),
            final(self)@.latest == old(self)@.latest,
            crate::graph::expanded_to(old(self)@.graph, final(self)@.graph, repacker, place@, location),
            changed == (final(self)@.graph != old(self)@.graph),
    {
        self.graph.ensure_deref_expansion_to_at_least(place, repacker, location)
    }
}

} // verus!
