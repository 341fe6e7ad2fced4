//! The unblock planner: the ordered teardown actions that free a place.
use vstd::prelude::*;
use crate::ir::{Location, Mutability, ProjElem};
use crate::place::{MaybeOldPlace, MaybeRemotePlace, MaybeRemotePlaceView};
use crate::domain::{AbstractionEdge, AbstractionType, AbstractionTypeView, Reborrow, view_set};
use crate::place::MaybeOldPlaceView;
use crate::edge::{BorrowsEdge, BorrowsEdgeKind, BorrowsEdgeKindView, Conditioned};
use crate::graph::{BorrowsGraph, graph_blocks};
use crate::path_condition::PathCondition;
use crate::ty::PlaceRepacker;

verus! {

pub enum UnblockAction {
    TerminateReborrow {
        reserve_location: Location,
        blocked_place: MaybeRemotePlace,
        assigned_place: MaybeOldPlace,
        is_mut: bool,
    },
    /// Folds the materialised children back into the place.
    Collapse(MaybeOldPlace, Vec<ProjElem>),
    TerminateAbstraction(Location, AbstractionType),
}

pub enum UnblockActionView {
    TerminateReborrow {
        reserve_location: Location,
        blocked_place: MaybeRemotePlaceView,
        assigned_place: MaybeOldPlaceView,
        is_mut: bool,
    },
    Collapse(MaybeOldPlaceView, Seq<ProjElem>),
    TerminateAbstraction(Location, AbstractionTypeView),
}

impl View for UnblockAction {
    type V = UnblockActionView;

    open spec fn view(&self) -> UnblockActionView {
        match self {
            UnblockAction::TerminateReborrow { reserve_location, blocked_place, assigned_place, is_mut } => UnblockActionView::TerminateReborrow {
                reserve_location: *reserve_location,
                blocked_place: blocked_place@,
                assigned_place: assigned_place@,
                is_mut: *is_mut,
            },
            UnblockAction::Collapse(p, elems) => UnblockActionView::Collapse(p@, elems@),
            UnblockAction::TerminateAbstraction(loc, a) => UnblockActionView::TerminateAbstraction(*loc, a@),
        }
    }
}

/// The action that removes an edge of kind `k`; none for a member edge of a
/// caller-side place, which nothing in the body can remove.
pub open spec fn action_for(k: BorrowsEdgeKindView) -> Option<UnblockActionView> {
    match k {
        BorrowsEdgeKindView::Reborrow(rb) => Some(UnblockActionView::TerminateReborrow {
            reserve_location: rb.reserve_location,
            blocked_place: rb.blocked_place,
            assigned_place: rb.assigned_place,
            is_mut: rb.mutability == Mutability::Mut,
        }),
        BorrowsEdgeKindView::DerefExpansion(d) => Some(UnblockActionView::Collapse(d.base(), d.elems())),
        BorrowsEdgeKindView::Abstraction(a) => Some(UnblockActionView::TerminateAbstraction(a.location(), a)),
        BorrowsEdgeKindView::RegionProjectionMember(m) => match m.place {
            MaybeRemotePlaceView::Local(p) => Some(UnblockActionView::Collapse(p, Seq::empty())),
            MaybeRemotePlaceView::Remote(_) => None,
        },
    }
}

/// `a` removes some edge of the graph `g`.
pub open spec fn action_of_graph(g: Map<BorrowsEdgeKindView, Set<PathCondition>>, a: UnblockActionView) -> bool {
    exists|k: BorrowsEdgeKindView| #[trigger] g.contains_key(k) && action_for(k) == Some(a)
}

/// Every edge of `g` that blocks a place that `k` is blocked by has its
/// removal among the first `i` actions of `a`.
pub open spec fn deps_scheduled(g: Map<BorrowsEdgeKindView, Set<PathCondition>>, a: Seq<UnblockActionView>, i: int, k: BorrowsEdgeKindView) -> bool {
    forall|p: MaybeOldPlaceView, k2: BorrowsEdgeKindView|
        #![trigger k.blocked_by_places().contains(p), k2.blocked_places().contains(MaybeRemotePlaceView::Local(p))]
        k.blocked_by_places().contains(p) && g.contains_key(k2) && k2.blocked_places().contains(MaybeRemotePlaceView::Local(p))
            ==> (action_for(k2) matches Some(x) ==> a.take(i).contains(x))
}

/// The action at `i` removes an edge of `g` all of whose dependents are
/// removed by earlier actions.
pub open spec fn ordered_at(g: Map<BorrowsEdgeKindView, Set<PathCondition>>, a: Seq<UnblockActionView>, i: int) -> bool {
    exists|k: BorrowsEdgeKindView| #[trigger] g.contains_key(k) && action_for(k) == Some(a[i]) && deps_scheduled(g, a, i, k)
}

/// Each action comes after the removal of everything that blocks the
/// places its edge is blocked by.
pub open spec fn well_ordered(g: Map<BorrowsEdgeKindView, Set<PathCondition>>, a: Seq<UnblockActionView>) -> bool {
    forall|i: int| 0 <= i < a.len() ==> #[trigger] ordered_at(g, a, i)
}

proof fn lemma_well_ordered_prefix(g: Map<BorrowsEdgeKindView, Set<PathCondition>>, a: Seq<UnblockActionView>, b: Seq<UnblockActionView>)
    requires
        well_ordered(g, a),
        a.is_prefix_of(b),
    ensures
        forall|i: int| 0 <= i < a.len() ==> #[trigger] ordered_at(g, b, i),
{
    assert forall|i: int| 0 <= i < a.len() implies #[trigger] ordered_at(g, b, i) by {
        assert(ordered_at(g, a, i));
        let k = choose|k: BorrowsEdgeKindView| #[trigger] g.contains_key(k) && action_for(k) == Some(a[i]) && deps_scheduled(g, a, i, k);
        assert(a.take(i) =~= b.take(i));
        assert(a[i] == b[i]);
        assert(deps_scheduled(g, b, i, k));
    }
}

pub proof fn lemma_well_ordered_push(g: Map<BorrowsEdgeKindView, Set<PathCondition>>, a: Seq<UnblockActionView>, x: UnblockActionView, e: BorrowsEdgeKindView)
    requires
        well_ordered(g, a),
        g.contains_key(e),
        action_for(e) == Some(x),
        deps_scheduled(g, a.push(x), a.len() as int, e),
    ensures
        well_ordered(g, a.push(x)),
{
    let b = a.push(x);
    lemma_well_ordered_prefix(g, a, b);
    assert forall|i: int| 0 <= i < b.len() implies #[trigger] ordered_at(g, b, i) by {
        if i == a.len() {
            assert(b[i] == x);
        }
    }
}

impl Clone for UnblockAction {
    fn clone(&self) -> (r: Self)
        ensures
            r@ == self@,
    {
        match self {
            UnblockAction::TerminateReborrow { reserve_location, blocked_place, assigned_place, is_mut } => UnblockAction::TerminateReborrow {
                reserve_location: *reserve_location,
                blocked_place: blocked_place.clone(),
                assigned_place: assigned_place.clone(),
                is_mut: *is_mut,
            },
            UnblockAction::Collapse(p, elems) => UnblockAction::Collapse(p.clone(), crate::place::proj_clone(elems)),
            UnblockAction::TerminateAbstraction(loc, a) => UnblockAction::TerminateAbstraction(*loc, a.clone()),
        }
    }
}

impl PartialEq for UnblockAction {
    fn eq(&self, o: &Self) -> (r: bool) {
        match (self, o) {
            (
                UnblockAction::TerminateReborrow { reserve_location: l1, blocked_place: b1, assigned_place: a1, is_mut: m1 },
                UnblockAction::TerminateReborrow { reserve_location: l2, blocked_place: b2, assigned_place: a2, is_mut: m2 },
            ) => l1 == l2 && m1 == m2 && b1 == b2 && a1 == a2,
            (UnblockAction::Collapse(p1, e1), UnblockAction::Collapse(p2, e2)) => p1 == p2 && crate::place::proj_eq(e1, e2),
            (UnblockAction::TerminateAbstraction(l1, a1), UnblockAction::TerminateAbstraction(l2, a2)) => l1 == l2 && a1 == a2,
            _ => false,
        }
    }
}

impl vstd::std_specs::cmp::PartialEqSpecImpl for UnblockAction {
    open spec fn obeys_eq_spec() -> bool {
        true
    }

    open spec fn eq_spec(&self, o: &Self) -> bool {
        self@ == o@
    }
}

/// The action that removes `kind`, where one exists.
pub fn action_of_kind(kind: &BorrowsEdgeKind) -> (r: Option<UnblockAction>)
    ensures
        match r {
            Some(a) => action_for(kind@) == Some(a@),
            None => action_for(kind@) is None,
        },
{
    match kind {
        BorrowsEdgeKind::Reborrow(rb) => Some(UnblockAction::TerminateReborrow {
            reserve_location: rb.reserve_location(),
            blocked_place: rb.blocked_place.clone(),
            assigned_place: rb.assigned_place.clone(),
            is_mut: rb.mutability == Mutability::Mut,
        }),
        BorrowsEdgeKind::DerefExpansion(d) => Some(UnblockAction::Collapse(d.base(), d.expansion_elems())),
        BorrowsEdgeKind::Abstraction(a) => Some(UnblockAction::TerminateAbstraction(a.location(), a.abstraction_type.clone())),
        BorrowsEdgeKind::RegionProjectionMember(m) => match &m.place {
            MaybeRemotePlace::Local(p) => Some(UnblockAction::Collapse(p.clone(), Vec::new())),
            MaybeRemotePlace::Remote(_) => None,
        },
    }
}

/// A teardown plan: actions in the order in which they are applied, each
/// after the actions that free the places its edge is blocked by.
pub struct UnblockGraph {
    actions: Vec<UnblockAction>,
    /// The actions scheduled or being scheduled; reaching one of them again
    /// is a no-op, which breaks cycles.
    visited: Vec<UnblockAction>,
    error: bool,
}

impl View for UnblockGraph {
    type V = Seq<UnblockActionView>;

    closed spec fn view(&self) -> Seq<UnblockActionView> {
        self.actions@.map_values(|a: UnblockAction| a@)
    }
}

pub open spec fn seq_contains_view(s: Seq<UnblockAction>, a: UnblockActionView) -> bool {
    exists|i: int| 0 <= i < s.len() && s[i]@ == a
}

impl UnblockGraph {
    /// Reaching an action that was still being scheduled broke a cycle, so
    /// the order of the plan may not respect every dependency.
    pub closed spec fn has_error_spec(&self) -> bool {
        self.error
    }

    /// The actions scheduled or being scheduled.
    pub closed spec fn visited_spec(&self) -> Seq<UnblockActionView> {
        self.visited@.map_values(|a: UnblockAction| a@)
    }

    /// Every action removes an edge of `g`, each is visited, and no action
    /// is visited twice.
    pub closed spec fn planned_from(&self, g: Map<BorrowsEdgeKindView, Set<PathCondition>>) -> bool {
        &&& forall|i: int| 0 <= i < self@.len() ==> action_of_graph(g, #[trigger] self@[i])
        &&& forall|i: int| 0 <= i < self.visited_spec().len() ==> action_of_graph(g, #[trigger] self.visited_spec()[i])
        &&& self.visited_spec().no_duplicates()
        &&& forall|i: int| 0 <= i < self@.len() ==> self.visited_spec().contains(#[trigger] self@[i])
    }

    /// Every visited action is scheduled: nothing is half done.
    pub closed spec fn settled(&self) -> bool {
        forall|a: UnblockActionView| #[trigger] self.visited_spec().contains(a) ==> self@.contains(a)
    }

    pub proof fn lemma_settled_contains(&self, a: UnblockActionView)
        requires
            self.settled(),
            self.visited_spec().contains(a),
        ensures
            self@.contains(a),
    {
    }

    pub proof fn lemma_planned_actions(&self, g: Map<BorrowsEdgeKindView, Set<PathCondition>>)
        requires
            self.planned_from(g),
        ensures
            forall|i: int| 0 <= i < self@.len() ==> action_of_graph(g, #[trigger] self@[i]),
    {
    }

    pub fn new() -> (r: UnblockGraph)
        ensures
            r@ == Seq::<UnblockActionView>::empty(),
            !r.has_error_spec(),
            r.settled(),
            forall|g: Map<BorrowsEdgeKindView, Set<PathCondition>>| #[trigger] r.planned_from(g),
    {
        let r = UnblockGraph { actions: Vec::new(), visited: Vec::new(), error: false };
        proof {
            assert(r@ =~= Seq::<UnblockActionView>::empty());
            assert(r.visited_spec() =~= Seq::<UnblockActionView>::empty());
        }
        r
    }

    /// Some cycle kept the plan from respecting every dependency.
    pub fn has_error(&self) -> (r: bool)
        ensures
            r == self.has_error_spec(),
    {
        self.error
    }

    /// The actions, in the order in which they are to be applied.
    pub fn actions(&self, _repacker: &PlaceRepacker) -> (r: Vec<UnblockAction>)
        ensures
            r@.map_values(|a: UnblockAction| a@) == self@,
    {
        let mut out: Vec<UnblockAction> = Vec::new();
        let mut i: usize = 0;
        while i < self.actions.len()
            invariant
                i <= self.actions@.len(),
                out@.len() == i,
                forall|j: int| 0 <= j < i ==> (#[trigger] out@[j])@ == self.actions@[j]@,
            decreases self.actions@.len() - i,
        {
            out.push(self.actions[i].clone());
            i = i + 1;
        }
        proof {
            assert(out@.map_values(|a: UnblockAction| a@) =~= self@);
        }
        out
    }

    pub fn contains(&self, action: &UnblockAction) -> (r: bool)
        ensures
            r == self@.contains(action@),
    {
        let r = vec_contains(&self.actions, action);
        proof {
            if r {
                let j = choose|j: int| 0 <= j < self.actions@.len() && self.actions@[j]@ == action@;
                assert(self@[j] == action@);
            } else if self@.contains(action@) {
                let j = choose|j: int| 0 <= j < self@.len() && self@[j] == action@;
                assert(self.actions@[j]@ == action@);
            }
        }
        r
    }

    fn is_visited(&self, action: &UnblockAction) -> (r: bool)
        ensures
            r == self.visited_spec().contains(action@),
    {
        let r = vec_contains(&self.visited, action);
        proof {
            if r {
                let j = choose|j: int| 0 <= j < self.visited@.len() && self.visited@[j]@ == action@;
                assert(self.visited_spec()[j] == action@);
            } else if self.visited_spec().contains(action@) {
                let j = choose|j: int| 0 <= j < self.visited_spec().len() && self.visited_spec()[j] == action@;
                assert(self.visited@[j]@ == action@);
            }
        }
        r
    }

    /// Schedules `action` unless it is already scheduled.
    pub fn add(&mut self, action: UnblockAction)
        requires
            old(self).settled(),
        ensures
            final(self)@ == if old(self)@.contains(action@) { old(self)@ } else { old(self)@.push(action@) },
            final(self).visited_spec() == if old(self)@.contains(action@) { old(self).visited_spec() } else { old(self).visited_spec().push(action@) },
            final(self).has_error_spec() == old(self).has_error_spec(),
            final(self).settled(),
            forall|g: Map<BorrowsEdgeKindView, Set<PathCondition>>| #[trigger] old(self).planned_from(g) && action_of_graph(g, action@)
                ==> final(self).planned_from(g),
    {
        if !self.contains(&action) {
            let ghost before = self@;
            let ghost vbefore = self.visited_spec();
            self.visited.push(action.clone());
            self.actions.push(action);
            proof {
                assert(self@ =~= before.push(self.actions@.last()@));
                assert(self.visited_spec() =~= vbefore.push(self.visited@.last()@));
                assert forall|a: UnblockActionView| #[trigger] self.visited_spec().contains(a) implies self@.contains(a) by {
                    let j = choose|j: int| 0 <= j < self.visited_spec().len() && self.visited_spec()[j] == a;
                    if j < vbefore.len() {
                        assert(vbefore.contains(a));
                        let w = choose|w: int| 0 <= w < before.len() && before[w] == a;
                        assert(self@[w] == a);
                    } else {
                        assert(self@[before.len() as int] == a);
                    }
                }
                assert(!vbefore.contains(action@));
                assert forall|g: Map<BorrowsEdgeKindView, Set<PathCondition>>| #[trigger] old(self).planned_from(g) && action_of_graph(g, action@)
                    implies self.planned_from(g) by {
                    assert forall|x: int| 0 <= x < self@.len() implies self.visited_spec().contains(#[trigger] self@[x]) by {
                        if x < before.len() {
                            assert(vbefore.contains(before[x]));
                            let w = choose|w: int| 0 <= w < vbefore.len() && vbefore[w] == before[x];
                            assert(self.visited_spec()[w] == self@[x]);
                        } else {
                            assert(self.visited_spec()[vbefore.len() as int] == self@[x]);
                        }
                    }
                    assert forall|x: int| 0 <= x < self@.len() implies action_of_graph(g, #[trigger] self@[x]) by {
                        if x < before.len() {
                            assert(self@[x] == before[x]);
                        }
                    }
                    assert forall|x: int| 0 <= x < self.visited_spec().len() implies action_of_graph(g, #[trigger] self.visited_spec()[x]) by {
                        if x < vbefore.len() {
                            assert(self.visited_spec()[x] == vbefore[x]);
                        }
                    }
                }
            }
        }
    }

    /// Schedules the removal of every edge of `graph` that blocks `target`,
    /// each after the removal of what blocks the places its edge is blocked
    /// by. An action reached while it is still being scheduled is skipped,
    /// which breaks cycles, and sets the error.
    /// The visited actions and the depth bound below keep the recursion
    /// finite: each level visits an action not visited before.
    pub fn unblock_place_within(&mut self, target: &MaybeRemotePlace, graph: &BorrowsGraph, repacker: &PlaceRepacker, depth: usize)
        requires
            graph.wf(),
            old(self).planned_from(graph@),
            old(self).visited_spec().len() + depth >= graph.size(),
            !old(self).has_error_spec() ==> well_ordered(graph@, old(self)@),
        ensures
            final(self).planned_from(graph@),
            !final(self).has_error_spec() ==> well_ordered(graph@, final(self)@),
            old(self)@.is_prefix_of(final(self)@),
            old(self).visited_spec().is_prefix_of(final(self).visited_spec()),
            old(self).has_error_spec() ==> final(self).has_error_spec(),
            forall|k: BorrowsEdgeKindView| #[trigger] graph@.contains_key(k) && k.blocked_places().contains(target@)
                ==> (action_for(k) matches Some(a) ==> final(self).visited_spec().contains(a)),
            !final(self).has_error_spec() ==> forall|k: BorrowsEdgeKindView| #[trigger] graph@.contains_key(k) && k.blocked_places().contains(target@)
                ==> (action_for(k) matches Some(a) ==> final(self)@.contains(a)),
            forall|a: UnblockActionView| #[trigger] final(self).visited_spec().contains(a) && !old(self).visited_spec().contains(a) ==> final(self)@.contains(a),
            forall|a: UnblockActionView| #[trigger] final(self)@.contains(a) ==> old(self)@.contains(a) || !old(self).visited_spec().contains(a),
            old(self).settled() ==> final(self).settled(),
        decreases depth,
    {
        let edges = graph.edges_blocking(target);
        let ghost start = self@;
        let ghost vstart = self.visited_spec();
        let mut i: usize = 0;
        while i < edges.len()
            invariant
                i <= edges@.len(),
                graph.wf(),
                forall|j: int| 0 <= j < edges@.len() ==> graph@.contains_key((#[trigger] edges@[j])@.kind)
                    && edges@[j]@.kind.blocked_places().contains(target@),
                forall|k: BorrowsEdgeKindView| #[trigger] graph@.contains_key(k) && k.blocked_places().contains(target@)
                    ==> exists|j: int| 0 <= j < edges@.len() && (#[trigger] edges@[j])@.kind == k,
                self.planned_from(graph@),
                self.visited_spec().len() + depth >= graph.size(),
                !self.has_error_spec() ==> well_ordered(graph@, self@),
                start.is_prefix_of(self@),
                vstart.is_prefix_of(self.visited_spec()),
                old(self).has_error_spec() ==> self.has_error_spec(),
                start == old(self)@,
                vstart == old(self).visited_spec(),
                forall|j: int| 0 <= j < i ==> (action_for((#[trigger] edges@[j])@.kind) matches Some(a) ==> self.visited_spec().contains(a)),
                !self.has_error_spec() ==> forall|j: int| 0 <= j < i ==> (action_for((#[trigger] edges@[j])@.kind) matches Some(a) ==> self@.contains(a)),
                forall|a: UnblockActionView| #[trigger] self.visited_spec().contains(a) && !vstart.contains(a) ==> self@.contains(a),
                forall|a: UnblockActionView| #[trigger] self@.contains(a) ==> start.contains(a) || !vstart.contains(a),
            decreases edges@.len() - i,
        {
            let ghost before_step = self@;
            let ghost vbefore_step = self.visited_spec();
            let ghost before_err = self.has_error_spec();
            match action_of_kind(&edges[i].kind) {
                Some(action) => {
                    proof {
                        assert(action_of_graph(graph@, action@));
                    }
                    if self.is_visited(&action) {
                        if !self.contains(&action) {
                            self.error = true;
                        }
                        proof {
                            assert(self.visited_spec() == vbefore_step);
                            assert(self.visited_spec().contains(action@));
                        }
                    } else {
                        proof {
                            let vs = self.visited_spec().push(action@);
                            assert(vs.no_duplicates());
                            assert forall|x: int| #![trigger vs[x]] 0 <= x < vs.len() implies exists|k: BorrowsEdgeKindView| #[trigger] graph@.contains_key(k) && action_for(k) == Some(vs[x]) by {
                                if x < self.visited_spec().len() {
                                    assert(action_of_graph(graph@, self.visited_spec()[x]));
                                } else {
                                    assert(action_of_graph(graph@, action@));
                                }
                            }
                            let ms = vs.map_values(|a: UnblockActionView| Some(a));
                            assert(ms.no_duplicates());
                            assert forall|x: int| #![trigger ms[x]] 0 <= x < ms.len() implies exists|k: BorrowsEdgeKindView| #[trigger] graph@.contains_key(k) && action_for(k) == ms[x] by {
                                assert(exists|k: BorrowsEdgeKindView| #[trigger] graph@.contains_key(k) && action_for(k) == Some(vs[x]));
                            }
                            crate::graph::lemma_image_bounded(graph, |k: BorrowsEdgeKindView| action_for(k), ms);
                        }
                        let ghost vpre = self.visited_spec();
                        self.visited.push(action.clone());
                        proof {
                            assert(self.visited_spec() =~= vpre.push(action@));
                            assert(self.planned_from(graph@)) by {
                                assert forall|x: int| 0 <= x < self@.len() implies self.visited_spec().contains(#[trigger] self@[x]) by {
                                    assert(vpre.contains(self@[x]));
                                    let w = choose|w: int| 0 <= w < vpre.len() && vpre[w] == self@[x];
                                    assert(self.visited_spec()[w] == self@[x]);
                                }
                            }
                        }
                        let blockers = edges[i].blocked_by_places(repacker);
                        let mut b: usize = 0;
                        while b < blockers.len()
                            invariant
                                b <= blockers@.len(),
                                depth > 0,
                                graph.wf(),
                                self.planned_from(graph@),
                                self.visited_spec().len() + depth - 1 >= graph.size(),
                                !self.has_error_spec() ==> well_ordered(graph@, self@),
                                view_set(blockers@) == edges@[i as int]@.kind.blocked_by_places(),
                                !self.has_error_spec() ==> forall|x: int, k2: BorrowsEdgeKindView| 0 <= x < b && graph@.contains_key(k2)
                                    && #[trigger] k2.blocked_places().contains(MaybeRemotePlaceView::Local((#[trigger] blockers@[x])@))
                                    ==> (action_for(k2) matches Some(y) ==> self@.contains(y)),
                                before_step.is_prefix_of(self@),
                                vpre.push(action@).is_prefix_of(self.visited_spec()),
                                vbefore_step == vpre,
                                !vpre.contains(action@),
                                !self@.contains(action@),
                                before_err ==> self.has_error_spec(),
                                old(self).has_error_spec() ==> self.has_error_spec(),
                                forall|a: UnblockActionView| #[trigger] self.visited_spec().contains(a) && !vpre.contains(a) && a != action@ ==> self@.contains(a),
                                forall|a: UnblockActionView| #[trigger] self@.contains(a) ==> before_step.contains(a) || !vpre.contains(a),
                            decreases blockers@.len() - b,
                        {
                            let ghost mid = self@;
                            let ghost vmid = self.visited_spec();
                            self.unblock_place_within(&MaybeRemotePlace::Local(blockers[b].clone()), graph, repacker, depth - 1);
                            proof {
                                assert(before_step.is_prefix_of(self@)) by {
                                    assert forall|w: int| 0 <= w < before_step.len() implies before_step[w] == self@[w] by {
                                        assert(mid[w] == before_step[w]);
                                    }
                                }
                                assert(vpre.push(action@).is_prefix_of(self.visited_spec())) by {
                                    assert forall|w: int| 0 <= w < vpre.len() + 1 implies vpre.push(action@)[w] == self.visited_spec()[w] by {
                                        assert(vmid[w] == vpre.push(action@)[w]);
                                    }
                                }
                                assert(vmid.contains(action@)) by {
                                    assert(vmid[vpre.len() as int] == action@);
                                }
                                assert(!self@.contains(action@));
                                assert forall|a: UnblockActionView| #[trigger] self.visited_spec().contains(a) && !vpre.contains(a) && a != action@ implies self@.contains(a) by {
                                    if vmid.contains(a) {
                                        assert(mid.contains(a));
                                        let w = choose|w: int| 0 <= w < mid.len() && mid[w] == a;
                                        assert(self@[w] == a);
                                    }
                                }
                                assert forall|a: UnblockActionView| #[trigger] self@.contains(a) implies before_step.contains(a) || !vpre.contains(a) by {
                                    if !mid.contains(a) {
                                        assert(!vmid.contains(a));
                                        if vpre.contains(a) {
                                            let w = choose|w: int| 0 <= w < vpre.len() && vpre[w] == a;
                                            assert(vmid[w] == a);
                                        }
                                    }
                                }
                                if !self.has_error_spec() {
                                    assert forall|x: int, k2: BorrowsEdgeKindView| 0 <= x < b + 1 && graph@.contains_key(k2)
                                        && #[trigger] k2.blocked_places().contains(MaybeRemotePlaceView::Local((#[trigger] blockers@[x])@))
                                        implies (action_for(k2) matches Some(y) ==> self@.contains(y)) by {
                                        if let Some(y) = action_for(k2) {
                                            if x < b {
                                                assert(mid.contains(y));
                                                let w = choose|w: int| 0 <= w < mid.len() && mid[w] == y;
                                                assert(self@[w] == y);
                                            }
                                        }
                                    }
                                }
                            }
                            b = b + 1;
                        }
                        let ghost mid = self@;
                        self.actions.push(action);
                        proof {
                            assert(self@ =~= mid.push(action@));
                            assert(self@.contains(action@)) by {
                                assert(self@[mid.len() as int] == action@);
                            }
                            assert(self.planned_from(graph@)) by {
                                assert forall|x: int| 0 <= x < self@.len() implies self.visited_spec().contains(#[trigger] self@[x]) by {
                                    if x < mid.len() {
                                    } else {
                                        assert(vpre.push(action@)[vpre.len() as int] == action@);
                                        assert(self.visited_spec()[vpre.len() as int] == action@);
                                    }
                                }
                                assert forall|x: int| 0 <= x < self@.len() implies action_of_graph(graph@, #[trigger] self@[x]) by {
                                    if x < mid.len() {
                                        assert(self@[x] == mid[x]);
                                    }
                                }
                            }
                            if !self.has_error_spec() {
                                let e = edges@[i as int]@.kind;
                                assert(self@.take(mid.len() as int) =~= mid);
                                assert(deps_scheduled(graph@, self@, mid.len() as int, e)) by {
                                    assert forall|p: MaybeOldPlaceView, k2: BorrowsEdgeKindView|
                                        #![trigger e.blocked_by_places().contains(p), k2.blocked_places().contains(MaybeRemotePlaceView::Local(p))]
                                        e.blocked_by_places().contains(p) && graph@.contains_key(k2) && k2.blocked_places().contains(MaybeRemotePlaceView::Local(p))
                                        implies (action_for(k2) matches Some(x) ==> self@.take(mid.len() as int).contains(x)) by {
                                        assert(view_set(blockers@).contains(p));
                                        let x = choose|x: int| 0 <= x < blockers@.len() && blockers@[x]@ == p;
                                        assert(k2.blocked_places().contains(MaybeRemotePlaceView::Local(blockers@[x]@)));
                                    }
                                }
                                lemma_well_ordered_push(graph@, mid, action@, e);
                            }
                            assert forall|a: UnblockActionView| #[trigger] self@.contains(a) implies before_step.contains(a) || !vpre.contains(a) by {
                                if a != action@ {
                                    let w = choose|w: int| 0 <= w < self@.len() && self@[w] == a;
                                    assert(mid[w] == a);
                                    assert(mid.contains(a));
                                } else {
                                    assert(!vpre.contains(a));
                                }
                            }
                            assert(self.visited_spec().contains(action@)) by {
                                assert(vpre.push(action@)[vpre.len() as int] == action@);
                                assert(self.visited_spec()[vpre.len() as int] == action@);
                            }
                            assert forall|a: UnblockActionView| #[trigger] self.visited_spec().contains(a) && !vpre.contains(a) implies self@.contains(a) by {
                                if a != action@ {
                                    assert(mid.contains(a));
                                    let w = choose|w: int| 0 <= w < mid.len() && mid[w] == a;
                                    assert(self@[w] == a);
                                }
                            }
                        }
                    }
                },
                None => {
                    proof {
                        assert(self.visited_spec() == vbefore_step);
                    }
                },
            }
            proof {
                assert(forall|a: UnblockActionView| #[trigger] self.visited_spec().contains(a) && !vbefore_step.contains(a) ==> self@.contains(a));
                assert(action_for(edges@[i as int]@.kind) matches Some(a) ==> self.visited_spec().contains(a));
                assert(before_step.is_prefix_of(self@));
                assert(start.is_prefix_of(self@)) by {
                    assert forall|w: int| 0 <= w < start.len() implies start[w] == self@[w] by {
                        assert(before_step[w] == start[w]);
                    }
                }
                assert(vbefore_step.is_prefix_of(self.visited_spec()));
                assert(vstart.is_prefix_of(self.visited_spec())) by {
                    assert forall|w: int| 0 <= w < vstart.len() implies vstart[w] == self.visited_spec()[w] by {
                        assert(vbefore_step[w] == vstart[w]);
                    }
                }
                assert forall|j: int| 0 <= j < i + 1 implies (action_for((#[trigger] edges@[j])@.kind) matches Some(a) ==> self.visited_spec().contains(a)) by {
                    if let Some(a) = action_for(edges@[j]@.kind) {
                        if j < i {
                            let w = choose|w: int| 0 <= w < vbefore_step.len() && vbefore_step[w] == a;
                            assert(self.visited_spec()[w] == a);
                        }
                    }
                }
                if !self.has_error_spec() {
                    assert forall|j: int| 0 <= j < i + 1 implies (action_for((#[trigger] edges@[j])@.kind) matches Some(a) ==> self@.contains(a)) by {
                        if let Some(a) = action_for(edges@[j]@.kind) {
                            if j < i {
                                assert(!before_err);
                                let w = choose|w: int| 0 <= w < before_step.len() && before_step[w] == a;
                                assert(self@[w] == a);
                            } else if before_step.contains(a) {
                                let w = choose|w: int| 0 <= w < before_step.len() && before_step[w] == a;
                                assert(self@[w] == a);
                            }
                        }
                    }
                }
                assert forall|a: UnblockActionView| #[trigger] self.visited_spec().contains(a) && !vstart.contains(a) implies self@.contains(a) by {
                    if vbefore_step.contains(a) {
                        assert(before_step.contains(a));
                        let w = choose|w: int| 0 <= w < before_step.len() && before_step[w] == a;
                        assert(self@[w] == a);
                    }
                }
                assert forall|a: UnblockActionView| #[trigger] self@.contains(a) implies start.contains(a) || !vstart.contains(a) by {
                    if before_step.contains(a) {
                    } else if vstart.contains(a) {
                        let w = choose|w: int| 0 <= w < vstart.len() && vstart[w] == a;
                        assert(vbefore_step[w] == a);
                    }
                }
            }
            i = i + 1;
        }
        proof {
            if old(self).settled() {
                assert forall|a: UnblockActionView| #[trigger] self.visited_spec().contains(a) implies self@.contains(a) by {
                    if vstart.contains(a) {
                        assert(start.contains(a));
                        let w = choose|w: int| 0 <= w < start.len() && start[w] == a;
                        assert(self@[w] == a);
                    }
                }
            }
            assert forall|k: BorrowsEdgeKindView| #[trigger] graph@.contains_key(k) && k.blocked_places().contains(target@)
                implies (action_for(k) matches Some(a) ==> self.visited_spec().contains(a)) by {
                let j = choose|j: int| 0 <= j < edges@.len() && (#[trigger] edges@[j])@.kind == k;
            }
            if !self.has_error_spec() {
                assert forall|k: BorrowsEdgeKindView| #[trigger] graph@.contains_key(k) && k.blocked_places().contains(target@)
                    implies (action_for(k) matches Some(a) ==> self@.contains(a)) by {
                    let j = choose|j: int| 0 <= j < edges@.len() && (#[trigger] edges@[j])@.kind == k;
                }
            }
        }
    }
}

fn vec_contains(v: &Vec<UnblockAction>, action: &UnblockAction) -> (r: bool)
    ensures
        r == seq_contains_view(v@, action@),
{
    let mut i: usize = 0;
    while i < v.len()
        invariant
            i <= v@.len(),
            forall|j: int| 0 <= j < i ==> v@[j]@ != action@,
        decreases v@.len() - i,
    {
        if v[i] == *action {
            return true;
        }
        i = i + 1;
    }
    false
}

} // verus!
