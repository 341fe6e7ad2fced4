//! Laws of the graph operations, stated over their results.
use vstd::prelude::*;
use crate::ir::{Location, ProjElem, SnapshotLocation};
use crate::latest::{joined, latest_of};
use crate::place::{MaybeOldPlaceView, MaybeRemotePlaceView, PlaceView, RegionProjectionView};
use crate::domain::{AbstractionBlockEdgeView, AbstractionTypeView, ReborrowView, rp_make_old, input_make_old, output_make_old};
use crate::deref_expansion::DerefExpansionView;
use crate::edge::{BorrowsEdgeKindView, RegionProjectionMemberView};
use crate::graph::{expanded_to, joined_graph, map_kinds};
use crate::path_condition::{PathCondition, realized, valid_for};
use crate::state::{BorrowsStateView, edge_disjoint, state_make_old};
use crate::ty::PlaceRepacker;

verus! {

/// A deref expansion never blocks a place it is blocked by: each child is
/// one projection step longer than the base.
pub proof fn lemma_expansion_disjoint(d: DerefExpansionView)
    ensures
        edge_disjoint(BorrowsEdgeKindView::DerefExpansion(d)),
{
    let k = BorrowsEdgeKindView::DerefExpansion(d);
    assert forall|p: MaybeOldPlaceView| #[trigger] k.blocked_by_places().contains(p) implies !k.blocked_places().contains(MaybeRemotePlaceView::Local(p)) by {
        let i = choose|i: int| 0 <= i < d.children().len() && d.children()[i] == p;
        assert(p.place().projection.len() == d.base().place().projection.len() + 1);
    }
}

/// A reborrow blocks no place it is blocked by, unless it borrows its own
/// assigned place.
pub proof fn lemma_reborrow_disjoint(rb: ReborrowView)
    requires
        rb.blocked_place != MaybeRemotePlaceView::Local(rb.assigned_place),
    ensures
        edge_disjoint(BorrowsEdgeKindView::Reborrow(rb)),
{
}

/// A member edge blocks no place it is blocked by, unless its place is the
/// place of its own projection.
pub proof fn lemma_member_disjoint(m: RegionProjectionMemberView)
    requires
        m.place != MaybeRemotePlaceView::Local(m.projection.place),
    ensures
        edge_disjoint(BorrowsEdgeKindView::RegionProjectionMember(m)),
{
}

/// Materialising the deref expansions of a place twice gives the graph of
/// the first time.
pub proof fn lemma_expansion_idempotent(
    g0: Map<BorrowsEdgeKindView, Set<PathCondition>>,
    g1: Map<BorrowsEdgeKindView, Set<PathCondition>>,
    g2: Map<BorrowsEdgeKindView, Set<PathCondition>>,
    r: &PlaceRepacker,
    place: PlaceView,
    location: Location,
)
    requires
        expanded_to(g0, g1, r, place, location),
        expanded_to(g1, g2, r, place, location),
    ensures
        g2 == g1,
{
}

proof fn lemma_place_make_old_twice(p: MaybeOldPlaceView, place: PlaceView, l1: Map<u32, SnapshotLocation>, l2: Map<u32, SnapshotLocation>)
    ensures
        p.make_old(place, l1).make_old(place, l2) == p.make_old(place, l1),
{
}

proof fn lemma_block_edge_make_old_twice(e: AbstractionBlockEdgeView, place: PlaceView, l1: Map<u32, SnapshotLocation>, l2: Map<u32, SnapshotLocation>)
    ensures
        e.make_old(place, l1).make_old(place, l2) == e.make_old(place, l1),
{
    let once = e.make_old(place, l1);
    let twice = once.make_old(place, l2);
    assert(twice.inputs =~= once.inputs) by {
        assert forall|i: int| 0 <= i < once.inputs.len() implies twice.inputs[i] == once.inputs[i] by {
            match e.inputs[i] {
                crate::domain::AbstractionTargetView::Place(p) => {
                    if let MaybeRemotePlaceView::Local(q) = p {
                        lemma_place_make_old_twice(q, place, l1, l2);
                    }
                },
                crate::domain::AbstractionTargetView::RegionProjection(rp) => {
                    lemma_place_make_old_twice(rp.place, place, l1, l2);
                },
            }
        }
    }
    assert(twice.outputs =~= once.outputs) by {
        assert forall|i: int| 0 <= i < once.outputs.len() implies twice.outputs[i] == once.outputs[i] by {
            match e.outputs[i] {
                crate::domain::AbstractionTargetView::Place(p) => {
                    lemma_place_make_old_twice(p, place, l1, l2);
                },
                crate::domain::AbstractionTargetView::RegionProjection(rp) => {
                    lemma_place_make_old_twice(rp.place, place, l1, l2);
                },
            }
        }
    }
}

proof fn lemma_kind_make_old_twice(k: BorrowsEdgeKindView, place: PlaceView, l1: Map<u32, SnapshotLocation>, l2: Map<u32, SnapshotLocation>)
    ensures
        k.make_old(place, l1).make_old(place, l2) == k.make_old(place, l1),
{
    match k {
        BorrowsEdgeKindView::Reborrow(rb) => {
            lemma_place_make_old_twice(rb.assigned_place, place, l1, l2);
            if let MaybeRemotePlaceView::Local(q) = rb.blocked_place {
                lemma_place_make_old_twice(q, place, l1, l2);
            }
        },
        BorrowsEdgeKindView::DerefExpansion(d) => {
            lemma_place_make_old_twice(d.base(), place, l1, l2);
        },
        BorrowsEdgeKindView::Abstraction(a) => {
            match a {
                AbstractionTypeView::FunctionCall { location, def_id, substs, edges } => {
                    let once = a.make_old(place, l1);
                    let twice = once.make_old(place, l2);
                    if let AbstractionTypeView::FunctionCall { edges: e1, .. } = once {
                        if let AbstractionTypeView::FunctionCall { edges: e2, .. } = twice {
                            assert(e2 =~= e1) by {
                                assert forall|i: int| 0 <= i < e1.len() implies e2[i] == e1[i] by {
                                    lemma_block_edge_make_old_twice(edges[i].1, place, l1, l2);
                                }
                            }
                        }
                    }
                },
                AbstractionTypeView::Loop { edge, block } => {
                    lemma_block_edge_make_old_twice(edge, place, l1, l2);
                },
            }
        },
        BorrowsEdgeKindView::RegionProjectionMember(m) => {
            lemma_place_make_old_twice(m.projection.place, place, l1, l2);
            if let MaybeRemotePlaceView::Local(q) = m.place {
                lemma_place_make_old_twice(q, place, l1, l2);
            }
        },
    }
}

/// A rewrite that fixes every kind of the graph leaves the graph as it is.
proof fn lemma_map_kinds_fixed(g: Map<BorrowsEdgeKindView, Set<PathCondition>>, f: spec_fn(BorrowsEdgeKindView) -> BorrowsEdgeKindView)
    requires
        forall|k: BorrowsEdgeKindView| #[trigger] g.contains_key(k) ==> f(k) == k,
    ensures
        map_kinds(g, f) == g,
{
    let m = map_kinds(g, f);
    assert forall|k2: BorrowsEdgeKindView| #[trigger] m.contains_key(k2) == g.contains_key(k2) by {
        if g.contains_key(k2) {
            assert(f(k2) == k2);
        }
    }
    assert forall|k2: BorrowsEdgeKindView| #[trigger] m.contains_key(k2) implies m[k2] =~= g[k2] by {
        assert forall|pc: PathCondition| m[k2].contains(pc) == g[k2].contains(pc) by {
            if m[k2].contains(pc) {
                let k = choose|k: BorrowsEdgeKindView| g.contains_key(k) && #[trigger] f(k) == k2 && g[k].contains(pc);
            }
            if g[k2].contains(pc) {
                assert(f(k2) == k2);
            }
        }
    }
    assert(m =~= g);
}

/// Making a place old a second time, at the same location, changes nothing.
pub proof fn lemma_make_old_twice(s: BorrowsStateView, place: PlaceView, location: Location)
    ensures
        state_make_old(state_make_old(s, place, location), place, location) == state_make_old(s, place, location),
{
    let s1 = state_make_old(s, place, location);
    let s2 = state_make_old(s1, place, location);
    let f1 = |k: BorrowsEdgeKindView| k.make_old(place, s.latest);
    let f2 = |k: BorrowsEdgeKindView| k.make_old(place, s1.latest);
    assert forall|k2: BorrowsEdgeKindView| #[trigger] s1.graph.contains_key(k2) implies f2(k2) == k2 by {
        let k = choose|k: BorrowsEdgeKindView| s.graph.contains_key(k) && #[trigger] f1(k) == k2;
        lemma_kind_make_old_twice(k, place, s.latest, s1.latest);
    }
    lemma_map_kinds_fixed(s1.graph, f2);
    assert(s2.latest =~= s1.latest);
}

/// Joining a state with itself gives the state back.
pub proof fn lemma_join_idempotent(a: BorrowsStateView, self_block: usize, other_block: usize)
    ensures
        joined_graph(a.graph, a.graph, self_block, other_block) == a.graph,
        joined(a.latest, a.latest, self_block) == a.latest,
{
    let j = joined_graph(a.graph, a.graph, self_block, other_block);
    assert forall|k: BorrowsEdgeKindView| #[trigger] j.contains_key(k) implies j[k] == a.graph[k] by {
        assert(a.graph[k].union(a.graph[k]) =~= a.graph[k]);
    }
    assert(j =~= a.graph);
    let l = joined(a.latest, a.latest, self_block);
    assert forall|x: u32| #[trigger] l.contains_key(x) implies l[x] == a.latest[x] by {
        assert(latest_of(a.latest, x) == a.latest[x]);
    }
    assert(l =~= a.latest);
}

/// The join holds every edge of both sides, with at least their
/// conditions, and its edges do not depend on the order of the sides.
pub proof fn lemma_join_monotone(
    a: Map<BorrowsEdgeKindView, Set<PathCondition>>,
    b: Map<BorrowsEdgeKindView, Set<PathCondition>>,
    self_block: usize,
    other_block: usize,
)
    ensures
        forall|k: BorrowsEdgeKindView| #[trigger] a.contains_key(k) ==> joined_graph(a, b, self_block, other_block).contains_key(k)
            && a[k].subset_of(joined_graph(a, b, self_block, other_block)[k]),
        forall|k: BorrowsEdgeKindView| #[trigger] b.contains_key(k) ==> joined_graph(a, b, self_block, other_block).contains_key(k)
            && b[k].subset_of(joined_graph(a, b, self_block, other_block)[k]),
        joined_graph(a, b, self_block, other_block).dom() == joined_graph(b, a, self_block, other_block).dom(),
{
    assert(joined_graph(a, b, self_block, other_block).dom() =~= joined_graph(b, a, self_block, other_block).dom());
}

/// After a condition is added to every edge, filtering for a path keeps an
/// edge exactly when the path realises the new condition and the edge's own.
pub proof fn lemma_condition_then_filter(
    g: Map<BorrowsEdgeKindView, Set<PathCondition>>,
    pc: PathCondition,
    path: Seq<usize>,
    k: BorrowsEdgeKindView,
)
    requires
        g.contains_key(k),
    ensures
        ({
            let g1 = g.map_values(|c: Set<PathCondition>| c.insert(pc));
            let g2 = g1.restrict(Set::new(|k2: BorrowsEdgeKindView| g1.contains_key(k2) && valid_for(g1[k2], path)));
            g2.contains_key(k) == (realized(pc, path) && valid_for(g[k], path))
        }),
{
    let g1 = g.map_values(|c: Set<PathCondition>| c.insert(pc));
    assert(g1[k] == g[k].insert(pc));
    if valid_for(g1[k], path) {
        assert(g1[k].contains(pc));
        assert forall|x: PathCondition| g[k].contains(x) implies #[trigger] realized(x, path) by {
            assert(g1[k].contains(x));
        }
    }
}

proof fn lemma_place_swap_back(p: MaybeOldPlaceView, o: MaybeOldPlaceView, n: MaybeOldPlaceView)
    requires
        p.substitute(n, o) == p,
    ensures
        p.substitute(o, n).substitute(n, o) == p,
{
}

proof fn lemma_remote_swap_back(p: MaybeRemotePlaceView, o: MaybeOldPlaceView, n: MaybeOldPlaceView)
    requires
        p.substitute(n, o) == p,
    ensures
        p.substitute(o, n).substitute(n, o) == p,
{
    if let MaybeRemotePlaceView::Local(q) = p {
        lemma_place_swap_back(q, o, n);
    }
}

proof fn lemma_block_edge_swap_back(e: AbstractionBlockEdgeView, o: MaybeOldPlaceView, n: MaybeOldPlaceView)
    requires
        e.substitute(n, o) == e,
    ensures
        e.substitute(o, n).substitute(n, o) == e,
{
    let back = e.substitute(o, n).substitute(n, o);
    assert(back.inputs =~= e.inputs) by {
        assert forall|i: int| 0 <= i < e.inputs.len() implies back.inputs[i] == e.inputs[i] by {
            assert(e.substitute(n, o).inputs[i] == e.inputs[i]);
            match e.inputs[i] {
                crate::domain::AbstractionTargetView::Place(p) => lemma_remote_swap_back(p, o, n),
                crate::domain::AbstractionTargetView::RegionProjection(rp) => lemma_place_swap_back(rp.place, o, n),
            }
        }
    }
    assert(back.outputs =~= e.outputs) by {
        assert forall|i: int| 0 <= i < e.outputs.len() implies back.outputs[i] == e.outputs[i] by {
            assert(e.substitute(n, o).outputs[i] == e.outputs[i]);
            match e.outputs[i] {
                crate::domain::AbstractionTargetView::Place(p) => lemma_place_swap_back(p, o, n),
                crate::domain::AbstractionTargetView::RegionProjection(rp) => lemma_place_swap_back(rp.place, o, n),
            }
        }
    }
}

proof fn lemma_kind_swap_back(k: BorrowsEdgeKindView, o: MaybeOldPlaceView, n: MaybeOldPlaceView)
    requires
        k.substitute(n, o) == k,
    ensures
        k.substitute(o, n).substitute(n, o) == k,
{
    match k {
        BorrowsEdgeKindView::Reborrow(rb) => {
            lemma_place_swap_back(rb.assigned_place, o, n);
            lemma_remote_swap_back(rb.blocked_place, o, n);
        },
        BorrowsEdgeKindView::DerefExpansion(d) => {
            lemma_place_swap_back(d.base(), o, n);
        },
        BorrowsEdgeKindView::Abstraction(a) => {
            match a {
                AbstractionTypeView::FunctionCall { location, def_id, substs, edges } => {
                    let there = a.substitute(o, n);
                    let back = there.substitute(n, o);
                    if let AbstractionTypeView::FunctionCall { edges: e_same, .. } = a.substitute(n, o) {
                        if let AbstractionTypeView::FunctionCall { edges: e_back, .. } = back {
                            assert(e_back =~= edges) by {
                                assert forall|i: int| 0 <= i < edges.len() implies e_back[i] == edges[i] by {
                                    assert(e_same[i] == edges[i]);
                                    lemma_block_edge_swap_back(edges[i].1, o, n);
                                }
                            }
                        }
                    }
                },
                AbstractionTypeView::Loop { edge, block } => {
                    lemma_block_edge_swap_back(edge, o, n);
                },
            }
        },
        BorrowsEdgeKindView::RegionProjectionMember(m) => {
            lemma_place_swap_back(m.projection.place, o, n);
            lemma_remote_swap_back(m.place, o, n);
        },
    }
}

/// A rewrite followed by one that undoes it on every kind gives the graph back.
proof fn lemma_map_kinds_inverse(
    g: Map<BorrowsEdgeKindView, Set<PathCondition>>,
    f1: spec_fn(BorrowsEdgeKindView) -> BorrowsEdgeKindView,
    f2: spec_fn(BorrowsEdgeKindView) -> BorrowsEdgeKindView,
)
    requires
        forall|k: BorrowsEdgeKindView| #[trigger] g.contains_key(k) ==> f2(f1(k)) == k,
    ensures
        map_kinds(map_kinds(g, f1), f2) == g,
{
    let h = map_kinds(g, f1);
    let m = map_kinds(h, f2);
    assert forall|k2: BorrowsEdgeKindView| #[trigger] m.contains_key(k2) == g.contains_key(k2) by {
        if m.contains_key(k2) {
            let k1 = choose|k1: BorrowsEdgeKindView| h.contains_key(k1) && #[trigger] f2(k1) == k2;
            let k = choose|k: BorrowsEdgeKindView| g.contains_key(k) && #[trigger] f1(k) == k1;
            assert(f2(f1(k)) == k);
        }
        if g.contains_key(k2) {
            assert(h.contains_key(f1(k2)));
            assert(f2(f1(k2)) == k2);
        }
    }
    assert forall|k2: BorrowsEdgeKindView| #[trigger] m.contains_key(k2) implies m[k2] =~= g[k2] by {
        assert forall|pc: PathCondition| m[k2].contains(pc) == g[k2].contains(pc) by {
            if m[k2].contains(pc) {
                let k1 = choose|k1: BorrowsEdgeKindView| h.contains_key(k1) && #[trigger] f2(k1) == k2 && h[k1].contains(pc);
                let k = choose|k: BorrowsEdgeKindView| g.contains_key(k) && #[trigger] f1(k) == k1 && g[k].contains(pc);
                assert(f2(f1(k)) == k);
            }
            if g[k2].contains(pc) {
                assert(f2(f1(k2)) == k2);
                assert(h.contains_key(f1(k2)));
                assert(h[f1(k2)].contains(pc));
            }
        }
    }
    assert(m =~= g);
}

/// Replacing `old_place` by `new_place` and then `new_place` by `old_place`
/// gives the graph back, where no edge held `new_place` to begin with.
pub proof fn lemma_change_place_round_trip(
    g: Map<BorrowsEdgeKindView, Set<PathCondition>>,
    old_place: MaybeOldPlaceView,
    new_place: MaybeOldPlaceView,
)
    requires
        forall|k: BorrowsEdgeKindView| #[trigger] g.contains_key(k) ==> k.substitute(new_place, old_place) == k,
    ensures
        map_kinds(
            map_kinds(g, |k: BorrowsEdgeKindView| k.substitute(old_place, new_place)),
            |k: BorrowsEdgeKindView| k.substitute(new_place, old_place),
        ) == g,
{
    let f1 = |k: BorrowsEdgeKindView| k.substitute(old_place, new_place);
    let f2 = |k: BorrowsEdgeKindView| k.substitute(new_place, old_place);
    assert forall|k: BorrowsEdgeKindView| #[trigger] g.contains_key(k) implies f2(f1(k)) == k by {
        lemma_kind_swap_back(k, old_place, new_place);
    }
    lemma_map_kinds_inverse(g, f1, f2);
}

/// After `y = &mut x`, the expansion of `y` down to `*y`, and `z = &mut *y`,
/// the only edge blocking `x` is the first reborrow, and `y` is expanded.
pub proof fn lemma_nested_reborrow(
    r: &PlaceRepacker,
    x: u32,
    y: u32,
    z: u32,
    l1: Location,
    l2: Location,
    r1: crate::ir::RegionKind,
    r2: crate::ir::RegionKind,
    g1: Map<BorrowsEdgeKindView, Set<PathCondition>>,
    g2: Map<BorrowsEdgeKindView, Set<PathCondition>>,
    g3: Map<BorrowsEdgeKindView, Set<PathCondition>>,
)
    requires
        x != y,
        crate::ty::is_ref_ty(r, PlaceView { local: y, projection: Seq::empty() }.ty(r)),
        g1 == crate::graph::insert_edge(Map::empty(), reborrow_kind(x_place(x), y, crate::ir::Mutability::Mut, l1, r1), set![PathCondition { from: l1.block, to: l1.block }]),
        expanded_to(g1, g2, r, deref_of(y), l2),
        g3 == crate::graph::insert_edge(g2, reborrow_kind(MaybeRemotePlaceView::Local(MaybeOldPlaceView::Current(deref_of(y))), z, crate::ir::Mutability::Mut, l2, r2),
            set![PathCondition { from: l2.block, to: l2.block }]),
    ensures
        forall|k: BorrowsEdgeKindView| #[trigger] g3.contains_key(k) && k.blocked_places().contains(x_place(x))
            <==> k == reborrow_kind(x_place(x), y, crate::ir::Mutability::Mut, l1, r1),
        crate::graph::has_expansion_of(g3, MaybeOldPlaceView::Current(PlaceView { local: y, projection: Seq::empty() })),
{
    let k1 = reborrow_kind(x_place(x), y, crate::ir::Mutability::Mut, l1, r1);
    let k2 = reborrow_kind(MaybeRemotePlaceView::Local(MaybeOldPlaceView::Current(deref_of(y))), z, crate::ir::Mutability::Mut, l2, r2);
    let dy = deref_of(y);
    assert(dy.take(0).projection =~= Seq::<ProjElem>::empty());
    assert(dy.take(0) == PlaceView { local: y, projection: Seq::<ProjElem>::empty() });
    assert(dy.take(1).projection =~= dy.projection);
    assert(dy.take(1) == dy);
    assert(crate::graph::needs_expansion(r, dy, 0)) by {
        assert(crate::ty::derefs_ref_at(r, dy.take(1).local, dy.take(1).projection, 0)) by {
            assert(dy.take(1).projection.take(0) =~= Seq::<ProjElem>::empty());
        }
    }
    assert(g3.contains_key(k1)) by {
        assert(g1.contains_key(k1));
    }
    assert forall|k: BorrowsEdgeKindView| #[trigger] g3.contains_key(k) && k.blocked_places().contains(x_place(x)) implies k == k1 by {
        if k != k2 && !g1.contains_key(k) {
            assert(g2.contains_key(k));
            let n = choose|n: int| crate::graph::needs_expansion(r, dy, n) && k == #[trigger] crate::graph::expansion_for(r, dy, n, l2);
            assert(k.blocked_places() == set![MaybeRemotePlaceView::Local(MaybeOldPlaceView::Current(dy.take(n)))]);
            assert(dy.take(n).local == y);
        }
        if k == k2 {
            assert(k2.blocked_places() == set![MaybeRemotePlaceView::Local(MaybeOldPlaceView::Current(dy))]);
        }
    }
    let base = MaybeOldPlaceView::Current(PlaceView { local: y, projection: Seq::empty() });
    assert(crate::graph::has_expansion_of(g2, MaybeOldPlaceView::Current(dy.take(0))));
    let k = choose|k: BorrowsEdgeKindView| #[trigger] g2.contains_key(k) && (k matches BorrowsEdgeKindView::DerefExpansion(d) && d.base() == MaybeOldPlaceView::Current(dy.take(0)));
    assert(g3.contains_key(k));
}

/// The current place of local `x`, as a blocked place.
pub open spec fn x_place(x: u32) -> MaybeRemotePlaceView {
    MaybeRemotePlaceView::Local(MaybeOldPlaceView::Current(PlaceView { local: x, projection: Seq::empty() }))
}

/// `*y`.
pub open spec fn deref_of(y: u32) -> PlaceView {
    PlaceView { local: y, projection: seq![ProjElem::Deref] }
}

/// The reborrow of `blocked` into the local `assigned`.
pub open spec fn reborrow_kind(blocked: MaybeRemotePlaceView, assigned: u32, m: crate::ir::Mutability, l: Location, region: crate::ir::RegionKind) -> BorrowsEdgeKindView {
    BorrowsEdgeKindView::Reborrow(ReborrowView {
        blocked_place: blocked,
        assigned_place: MaybeOldPlaceView::Current(PlaceView { local: assigned, projection: Seq::empty() }),
        mutability: m,
        reserve_location: l,
        region,
    })
}

/// Continuing the nested reborrow, making `x` old at the latest write to
/// it makes that snapshot of `x` a root.
pub proof fn lemma_make_old_root(
    r: &PlaceRepacker,
    x: u32,
    y: u32,
    z: u32,
    l1: Location,
    l2: Location,
    r1: crate::ir::RegionKind,
    r2: crate::ir::RegionKind,
    g1: Map<BorrowsEdgeKindView, Set<PathCondition>>,
    g2: Map<BorrowsEdgeKindView, Set<PathCondition>>,
    g3: Map<BorrowsEdgeKindView, Set<PathCondition>>,
    latest: Map<u32, SnapshotLocation>,
)
    requires
        x != y,
        x != z,
        g1 == crate::graph::insert_edge(Map::empty(), reborrow_kind(x_place(x), y, crate::ir::Mutability::Mut, l1, r1), set![PathCondition { from: l1.block, to: l1.block }]),
        expanded_to(g1, g2, r, deref_of(y), l2),
        g3 == crate::graph::insert_edge(g2, reborrow_kind(MaybeRemotePlaceView::Local(MaybeOldPlaceView::Current(deref_of(y))), z, crate::ir::Mutability::Mut, l2, r2),
            set![PathCondition { from: l2.block, to: l2.block }]),
    ensures
        crate::graph::roots_of(map_kinds(g3, |k: BorrowsEdgeKindView| k.make_old(PlaceView { local: x, projection: Seq::empty() }, latest))).contains(
            MaybeRemotePlaceView::Local(MaybeOldPlaceView::Old(PlaceView { local: x, projection: Seq::empty() }, latest_of(latest, x)))),
{
    let xp = PlaceView { local: x, projection: Seq::<ProjElem>::empty() };
    let f = |k: BorrowsEdgeKindView| k.make_old(xp, latest);
    let g4 = map_kinds(g3, f);
    let old_x = MaybeOldPlaceView::Old(xp, latest_of(latest, x));
    let target = MaybeRemotePlaceView::Local(old_x);
    let k1 = reborrow_kind(x_place(x), y, crate::ir::Mutability::Mut, l1, r1);
    let k2 = reborrow_kind(MaybeRemotePlaceView::Local(MaybeOldPlaceView::Current(deref_of(y))), z, crate::ir::Mutability::Mut, l2, r2);
    let dy = deref_of(y);
    assert(xp.projection.is_prefix_of(xp.projection));
    assert(g3.contains_key(k1)) by {
        assert(g1.contains_key(k1));
    }
    assert(g4.contains_key(f(k1)));
    assert(f(k1).blocked_places().contains(target));
    assert(crate::graph::graph_blocks(g4, target));
    assert forall|k4: BorrowsEdgeKindView| #[trigger] g4.contains_key(k4) implies !k4.blocked_by_places().contains(old_x) by {
        let k = choose|k: BorrowsEdgeKindView| g3.contains_key(k) && #[trigger] f(k) == k4;
        if k == k1 {
            assert(k4.blocked_by_places() == set![MaybeOldPlaceView::Current(PlaceView { local: y, projection: Seq::<ProjElem>::empty() })]);
        } else if k == k2 {
            assert(k4.blocked_by_places() == set![MaybeOldPlaceView::Current(PlaceView { local: z, projection: Seq::<ProjElem>::empty() })]);
        } else {
            assert(!g1.contains_key(k));
            assert(g2.contains_key(k));
            let n = choose|n: int| crate::graph::needs_expansion(r, dy, n) && k == #[trigger] crate::graph::expansion_for(r, dy, n, l2);
            assert(n == 0);
            assert(dy.take(0).local == y);
            match k4 {
                BorrowsEdgeKindView::DerefExpansion(d) => {
                    assert(d.base() == MaybeOldPlaceView::Current(dy.take(0)));
                    if d.children().contains(old_x) {
                        let i = choose|i: int| 0 <= i < d.children().len() && d.children()[i] == old_x;
                        assert(d.children()[i] is Current);
                    }
                },
                _ => {},
            }
        }
    }
}

} // verus!
