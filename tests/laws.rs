use pcs_borrows::edge::{BorrowsEdgeKind, HasPlaces};
use pcs_borrows::ir::{Location, Mutability, ProjElem, RegionKind, SnapshotLocation};
use pcs_borrows::latest::Latest;
use pcs_borrows::path_condition::{realizes, PathCondition, PathConditions};
use pcs_borrows::place::{MaybeOldPlace, MaybeRemotePlace, Place};
use pcs_borrows::state::BorrowsState;
use pcs_borrows::ty::{AdtDef, PlaceRepacker, TyKind};

fn repacker() -> PlaceRepacker {
    let tys = vec![
        TyKind::Scalar,
        TyKind::Ref { region: RegionKind::Var(0), mutability: Mutability::Mut, pointee: 0 },
        TyKind::Ref { region: RegionKind::Var(1), mutability: Mutability::Mut, pointee: 0 },
        TyKind::Adt { def: 0 },
        TyKind::Ref { region: RegionKind::Var(5), mutability: Mutability::Mut, pointee: 3 },
    ];
    let pair = AdtDef { regions: vec![RegionKind::Var(7), RegionKind::Static, RegionKind::Var(8)], fields: vec![0, 0] };
    PlaceRepacker::new(tys, vec![pair], vec![0, 0, 1, 2, 4, 3])
}

fn local(l: u32) -> Place {
    Place::from_local(l)
}

fn current(l: u32) -> MaybeOldPlace {
    MaybeOldPlace::current(local(l))
}

fn remote_current(l: u32) -> MaybeRemotePlace {
    MaybeRemotePlace::Local(current(l))
}

fn two_reborrows() -> BorrowsState {
    let mut s = BorrowsState::new();
    s.add_reborrow(remote_current(1), local(2), Mutability::Mut, Location::new(0, 1), RegionKind::Var(0));
    s.add_reborrow(remote_current(1), local(3), Mutability::Not, Location::new(0, 2), RegionKind::Var(1));
    s
}

fn same_state(a: &BorrowsState, b: &BorrowsState) -> bool {
    a.graph().same_as(b.graph())
}

#[test]
fn edges_block_no_place_they_are_blocked_by() {
    let r = repacker();
    let mut s = two_reborrows();
    s.ensure_deref_expansion_to_at_least(&local(2).project_deref(), &r, Location::new(0, 3));
    assert!(s.assert_invariants_satisfied(&r));
    let mut bad = BorrowsState::new();
    bad.add_reborrow(remote_current(2), local(2), Mutability::Mut, Location::new(0, 1), RegionKind::Var(0));
    assert!(!bad.assert_invariants_satisfied(&r));
}

#[test]
fn deref_expansion_is_idempotent() {
    let r = repacker();
    let mut s = two_reborrows();
    let target = local(4).project_deref().project_deeper(ProjElem::Field(1));
    assert!(s.ensure_deref_expansion_to_at_least(&target, &r, Location::new(0, 3)));
    let once = s.clone();
    assert!(!s.ensure_deref_expansion_to_at_least(&target, &r, Location::new(0, 4)));
    assert!(same_state(&s, &once));
    let des = s.deref_expansions();
    assert_eq!(des.len(), 2);
    let borrowed = des.iter().find(|d| !d.value.is_owned_expansion()).expect("a borrow expansion");
    assert_eq!(borrowed.value.expansion_elems(), vec![ProjElem::Field(0), ProjElem::Field(1)]);
}

#[test]
fn make_old_twice_is_a_no_op() {
    let r = repacker();
    let mut s = two_reborrows();
    s.make_place_old(&local(1), &r, Location::new(0, 5));
    let once = s.clone();
    s.make_place_old(&local(1), &r, Location::new(0, 5));
    assert!(same_state(&s, &once));
    assert_eq!(s.get_latest(&local(1)), once.get_latest(&local(1)));
}

#[test]
fn join_with_itself_is_identity() {
    let r = repacker();
    let a = two_reborrows();
    let mut j = a.clone();
    assert!(!j.join(&a, 4, 4, &r));
    assert!(same_state(&j, &a));
}

#[test]
fn join_holds_both_sides() {
    let r = repacker();
    let a = two_reborrows();
    let mut b = BorrowsState::new();
    b.add_reborrow(remote_current(1), local(4), Mutability::Mut, Location::new(1, 0), RegionKind::Var(5));
    let mut ab = a.clone();
    ab.join(&b, 2, 1, &r);
    let mut ba = b.clone();
    ba.join(&a, 2, 1, &r);
    assert_eq!(ab.graph_edges().len(), 3);
    assert_eq!(ba.graph_edges().len(), 3);
    for e in a.graph_edges().iter().chain(b.graph_edges().iter()) {
        assert!(ab.graph_edges().iter().any(|x| x.kind == e.kind));
        assert!(ba.graph_edges().iter().any(|x| x.kind == e.kind));
    }
}

#[test]
fn condition_then_filter() {
    let mut s = two_reborrows();
    let pc = PathCondition::new(5, 6);
    assert!(s.add_path_condition(pc));
    assert!(!s.add_path_condition(pc));
    let mut on_path = s.clone();
    on_path.filter_for_path(&vec![0, 5, 6, 7]);
    assert_eq!(on_path.graph_edges().len(), 2);
    let mut off_path = s.clone();
    off_path.filter_for_path(&vec![5, 7, 6]);
    assert!(off_path.graph_edges().is_empty());
}

#[test]
fn change_place_round_trip() {
    let s0 = two_reborrows();
    let mut s = s0.clone();
    let fresh = current(5);
    assert!(s.change_maybe_old_place(&current(2), &fresh));
    assert!(!same_state(&s, &s0));
    assert!(s.change_maybe_old_place(&fresh, &current(2)));
    assert!(same_state(&s, &s0));
}

#[test]
fn minimize_removes_free_snapshots() {
    let r = repacker();
    let mut s = two_reborrows();
    s.make_place_old(&local(2), &r, Location::new(0, 3));
    s.make_place_old(&local(3), &r, Location::new(0, 3));
    s.minimize(&r, Location::new(0, 4));
    assert!(s.graph_edges().is_empty());
    assert_eq!(s.get_latest(&local(1)), SnapshotLocation::Location(Location::new(0, 4)));
}

#[test]
fn trim_keeps_current_leaves() {
    let r = repacker();
    let mut s = two_reborrows();
    s.make_place_old(&local(2), &r, Location::new(0, 3));
    s.trim_old_leaves(&r, Location::new(0, 4));
    let rbs = s.reborrows();
    assert_eq!(rbs.len(), 1);
    assert_eq!(rbs[0].value.reserve_location(), Location::new(0, 2));
}

#[test]
fn latest_join_marks_disagreement() {
    let mut a = Latest::new();
    a.insert(1, SnapshotLocation::Location(Location::new(0, 1)));
    a.insert(2, SnapshotLocation::Location(Location::new(0, 2)));
    let mut b = Latest::new();
    b.insert(1, SnapshotLocation::Location(Location::new(0, 1)));
    b.insert(3, SnapshotLocation::Location(Location::new(1, 2)));
    assert!(a.join(&b, 9));
    assert_eq!(a.get(1), SnapshotLocation::Location(Location::new(0, 1)));
    assert_eq!(a.get(2), SnapshotLocation::Join(9));
    assert_eq!(a.get(3), SnapshotLocation::Join(9));
    assert_eq!(a.get(4), SnapshotLocation::Start);
    let c = a.clone();
    assert!(!a.join(&c, 9));
}

#[test]
fn path_condition_realisation() {
    let path = vec![1, 2, 3];
    assert!(realizes(&path, PathCondition::new(1, 2)));
    assert!(!realizes(&path, PathCondition::new(1, 3)));
    assert!(realizes(&path, PathCondition::new(3, 3)));
    assert!(!realizes(&path, PathCondition::new(4, 4)));
    let mut pcs = PathConditions::new();
    assert!(pcs.insert(PathCondition::new(2, 3)));
    assert!(pcs.valid_for_path(&path));
    assert!(pcs.insert(PathCondition::new(3, 1)));
    assert!(!pcs.valid_for_path(&path));
}

#[test]
fn place_queries() {
    let r = repacker();
    let y = local(2);
    let deref = y.project_deref();
    assert!(y.is_prefix(&deref));
    assert!(!deref.is_prefix(&y));
    assert!(y.is_owned(&r));
    assert!(!deref.is_owned(&r));
    assert!(y.is_ref(&r));
    assert!(y.is_mut_ref(&r));
    assert!(deref.nearest_owned_place(&r) == y);
    assert!(deref.prefix_place().unwrap() == y);
    assert!(y.prefix_place().is_none());
    let field = local(4).project_deref().project_deeper(ProjElem::Field(1));
    assert_eq!(field.ty(&r), Some(0));
    let snapshot = MaybeOldPlace::new(y.clone(), Some(SnapshotLocation::Start));
    assert!(snapshot.project_deref().location() == Some(SnapshotLocation::Start));
}

#[test]
fn region_projections_in_type_order() {
    let r = repacker();
    let pair_ref = MaybeOldPlace::current(local(4));
    let rps = pair_ref.region_projections(&r);
    let vids: Vec<usize> = rps.iter().map(|rp| rp.region).collect();
    assert_eq!(vids, vec![5, 7, 8]);
    assert!(pair_ref.has_region_projections(&r));
    assert_eq!(pair_ref.region_projection(2, &r).region, 8);
    assert_eq!(rps[1].index(&r), Some(1));
    assert!(!MaybeOldPlace::current(local(1)).has_region_projections(&r));
}

#[test]
fn make_old_snapshots_only_places_under_target() {
    let mut latest = Latest::new();
    latest.insert(2, SnapshotLocation::Location(Location::new(3, 0)));
    let mut p = MaybeOldPlace::current(local(2).project_deref());
    p.make_place_old(&local(2), &latest);
    assert!(p == MaybeOldPlace::new(local(2).project_deref(), Some(SnapshotLocation::Location(Location::new(3, 0)))));
    let mut q = MaybeOldPlace::current(local(1));
    q.make_place_old(&local(2), &latest);
    assert!(q == current(1));
}

#[test]
fn place_blocking_only_for_a_single_reborrow() {
    let s = two_reborrows();
    assert!(s.get_place_blocking(&remote_current(1)).is_none());
    let mut one = BorrowsState::new();
    one.add_reborrow(remote_current(1), local(2), Mutability::Mut, Location::new(0, 1), RegionKind::Var(0));
    assert!(one.get_place_blocking(&remote_current(1)).unwrap() == current(2));
    assert!(one.get_place_blocking(&remote_current(2)).is_none());
}

#[test]
fn kill_reborrows_by_location() {
    let r = repacker();
    let mut s = two_reborrows();
    assert!(s.kill_reborrows(Location::new(0, 1), Location::new(0, 9), &r));
    assert!(!s.kill_reborrows(Location::new(0, 1), Location::new(0, 9), &r));
    assert!(!s.has_reborrow_at_location(Location::new(0, 1)));
    assert!(s.has_reborrow_at_location(Location::new(0, 2)));
    assert_eq!(s.get_latest(&local(1)), SnapshotLocation::Location(Location::new(0, 9)));
    assert_eq!(s.reborrows_blocking(&current(1)).len(), 1);
    assert_eq!(s.reborrows_assigned_to(&current(3)).len(), 1);
    assert!(s.reborrows_assigned_to(&current(2)).is_empty());
}

#[test]
fn bridge_lists_differences() {
    let r = repacker();
    let a = two_reborrows();
    let mut b = BorrowsState::new();
    b.add_reborrow(remote_current(1), local(2), Mutability::Mut, Location::new(0, 1), RegionKind::Var(0));
    b.add_reborrow(remote_current(1), local(4), Mutability::Mut, Location::new(0, 7), RegionKind::Var(5));
    b.ensure_deref_expansion_to_at_least(&local(4).project_deref(), &r, Location::new(0, 7));
    let bridge = a.bridge(&b, &r);
    assert_eq!(bridge.added_reborrows.len(), 1);
    assert_eq!(bridge.added_reborrows[0].value.reserve_location(), Location::new(0, 7));
    assert_eq!(bridge.expands.len(), 1);
    let actions = bridge.ug.actions(&r);
    assert_eq!(actions.len(), 1);
    assert!(matches!(actions[0], pcs_borrows::unblock_graph::UnblockAction::TerminateReborrow { reserve_location, .. } if reserve_location == Location::new(0, 2)));
}

#[test]
fn expansion_to_exactly_adds_members_and_expands() {
    let r = repacker();
    let mut s = BorrowsState::new();
    s.add_reborrow(remote_current(1), local(4).project_deref(), Mutability::Mut, Location::new(0, 1), RegionKind::Var(5));
    s.ensure_expansion_to_exactly(&local(4), &r, Location::new(0, 2));
    let members = s.graph_edges().iter().filter(|e| matches!(e.kind, BorrowsEdgeKind::RegionProjectionMember(_))).count();
    assert_eq!(members, 3);
    assert_eq!(s.reborrows().len(), 1);
}

#[test]
fn delete_descendants_removes_blocking_edges() {
    let r = repacker();
    let mut s = two_reborrows();
    assert!(s.delete_descendants_of(&current(1), &r, Location::new(0, 6)));
    assert!(s.graph_edges().is_empty());
    assert!(!s.delete_descendants_of(&current(1), &r, Location::new(0, 6)));
}

#[test]
fn assigned_region_and_remote_projections() {
    let r = repacker();
    let rb = pcs_borrows::domain::Reborrow::new(
        remote_current(1),
        MaybeOldPlace::current(local(4).project_deref()),
        Mutability::Mut,
        Location::new(0, 1),
        RegionKind::Var(5),
    );
    assert_eq!(rb.assiged_place_region_vid(&r), Some(5));
    assert_eq!(rb.region_vid(), Some(5));
    let flat = pcs_borrows::domain::Reborrow::new(remote_current(1), current(2), Mutability::Mut, Location::new(0, 1), RegionKind::Static);
    assert_eq!(flat.assiged_place_region_vid(&r), None);
    assert_eq!(flat.region_vid(), None);
    let remote = pcs_borrows::place::RemotePlace { local: 4 };
    let rps = remote.region_projections(&r);
    assert_eq!(rps.iter().map(|rp| rp.region).collect::<Vec<_>>(), vec![5, 7, 8]);
    assert!(rps[0].place.location() == Some(SnapshotLocation::Join(0)));
}

#[test]
fn borrow_expansion_construction() {
    let r = repacker();
    let base = MaybeOldPlace::current(local(4).project_deref());
    let children = vec![
        local(4).project_deref().project_deeper(ProjElem::Field(0)),
        local(4).project_deref().project_deeper(ProjElem::Field(1)),
    ];
    let mut de = pcs_borrows::deref_expansion::DerefExpansion::borrowed(base.clone(), children, Location::new(0, 1), &r);
    assert!(!de.is_owned_expansion());
    assert_eq!(de.expansion_elems(), vec![ProjElem::Field(0), ProjElem::Field(1)]);
    assert!(de.borrow_expansion().is_some());
    assert_eq!(de.expansion().len(), 2);
    assert!(de.region_projection_edges(&r).is_empty());
    de.make_base_old(SnapshotLocation::Location(Location::new(0, 2)));
    assert!(de.base().is_old());
    assert!(de.expansion().iter().all(|c| c.location() == Some(SnapshotLocation::Location(Location::new(0, 2)))));
    *de.mut_base() = base.clone();
    assert!(de.base() == base);
}

#[test]
fn expansion_region_projection_edges_share_regions() {
    let r = repacker();
    let owned = pcs_borrows::deref_expansion::DerefExpansion::OwnedExpansion { base: current(4) };
    let edges = owned.region_projection_edges(&r);
    assert_eq!(edges.len(), 2);
    assert!(edges.iter().all(|(a, b)| a.region == b.region && a.place == current(4)));
}

#[test]
fn snapshot_through_trait() {
    let mut latest = Latest::new();
    latest.insert(2, SnapshotLocation::Location(Location::new(1, 1)));
    let mut kind = BorrowsEdgeKind::Reborrow(pcs_borrows::domain::Reborrow::new(
        MaybeRemotePlace::Local(current(2)),
        current(3),
        Mutability::Mut,
        Location::new(0, 1),
        RegionKind::Var(0),
    ));
    HasPlaces::make_place_old(&mut kind, &local(2), &latest);
    match &kind {
        BorrowsEdgeKind::Reborrow(rb) => {
            assert!(rb.blocked_place == MaybeRemotePlace::Local(MaybeOldPlace::new(local(2), Some(SnapshotLocation::Location(Location::new(1, 1))))));
            assert!(rb.assigned_place == current(3));
        }
        _ => panic!("expected a reborrow"),
    }
}

#[test]
fn member_projections_follow_a_moved_place() {
    let r = repacker();
    let mut s = BorrowsState::new();
    let old_rp = current(2).region_projection(0, &r);
    s.add_region_projection_member(pcs_borrows::edge::RegionProjectionMember::new(
        remote_current(1),
        old_rp,
        Location::new(0, 1),
        pcs_borrows::edge::RegionProjectionMemberDirection::PlaceIsRegionInput,
    ));
    s.move_region_projection_member_projections(&current(2), &current(3), &r);
    let edges = s.graph_edges();
    assert_eq!(edges.len(), 1);
    match &edges[0].kind {
        BorrowsEdgeKind::RegionProjectionMember(m) => {
            assert!(m.projection.place == current(3));
            assert_eq!(m.projection.region, 1);
        }
        _ => panic!("expected a member edge"),
    }
}

#[test]
fn planner_breaks_cycles_and_schedules_everything() {
    let r = repacker();
    let mut s = BorrowsState::new();
    s.add_reborrow(remote_current(1), local(2), Mutability::Mut, Location::new(0, 1), RegionKind::Var(0));
    s.add_reborrow(remote_current(2), local(1), Mutability::Mut, Location::new(0, 2), RegionKind::Var(1));
    let mut ug = pcs_borrows::unblock_graph::UnblockGraph::new();
    ug.unblock_place(&remote_current(1), &s, &r);
    assert!(ug.has_error());
    assert_eq!(ug.actions(&r).len(), 2);
    s.apply_unblock_graph(ug, &r, Location::new(0, 5));
    assert!(s.graph_edges().is_empty());
}

#[test]
fn exact_expansion_tears_down_what_blocks_the_place() {
    let r = repacker();
    let mut s = BorrowsState::new();
    s.add_reborrow(remote_current(1), local(2), Mutability::Mut, Location::new(0, 1), RegionKind::Var(0));
    s.ensure_expansion_to_exactly(&local(1), &r, Location::new(0, 2));
    assert!(s.edges_blocking(&remote_current(1)).is_empty());
    assert!(s.reborrows().is_empty());
}

#[test]
fn projection_change_reaches_abstractions() {
    let r = repacker();
    let mut s = BorrowsState::new();
    let from = current(2).region_projection(0, &r);
    let to = current(3).region_projection(0, &r);
    let edge = pcs_borrows::domain::AbstractionBlockEdge::new(
        vec![pcs_borrows::domain::AbstractionTarget::RegionProjection(from.clone())],
        vec![pcs_borrows::domain::AbstractionTarget::Place(current(4))],
    );
    let abs = pcs_borrows::domain::AbstractionEdge::new(pcs_borrows::domain::AbstractionType::Loop(pcs_borrows::domain::LoopAbstraction::new(edge, 3)));
    s.add_region_abstraction(abs, 3);
    s.change_region_projection(&from, &to);
    let abstractions = s.region_abstractions();
    assert_eq!(abstractions.len(), 1);
    let inputs = abstractions[0].value.inputs();
    assert_eq!(inputs.len(), 1);
    assert!(inputs[0] == pcs_borrows::domain::AbstractionTarget::RegionProjection(to));
}

#[test]
fn capability_expansion_twice_changes_nothing() {
    let r = repacker();
    let mut s = two_reborrows();
    let summary = pcs_borrows::capability::CapabilitySummary::new(vec![
        pcs_borrows::capability::CapabilityLocal::Unallocated,
        pcs_borrows::capability::CapabilityLocal::Unallocated,
        pcs_borrows::capability::CapabilityLocal::Allocated(vec![(local(2), pcs_borrows::capability::CapabilityKind::Exclusive)]),
    ]);
    s.ensure_deref_expansions_to_fpcs(&summary, &r, Location::new(0, 3));
    let once = s.clone();
    assert_eq!(s.graph_edges().len(), 3);
    s.ensure_deref_expansions_to_fpcs(&summary, &r, Location::new(0, 4));
    assert!(same_state(&s, &once));
}
