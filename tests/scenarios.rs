use pcs_borrows::capability::{CapabilityKind, CapabilityLocal, CapabilitySummary};
use pcs_borrows::edge::BorrowsEdgeKind;
use pcs_borrows::ir::{Location, Mutability, ProjElem, RegionKind, SnapshotLocation};
use pcs_borrows::place::{MaybeOldPlace, MaybeRemotePlace, Place};
use pcs_borrows::state::BorrowsState;
use pcs_borrows::ty::{PlaceRepacker, TyKind};
use pcs_borrows::unblock_graph::{UnblockAction, UnblockGraph};

const X: u32 = 1;
const Y: u32 = 2;
const Z: u32 = 3;
const W: u32 = 4;

/// `x: i32`, and `y`, `z`, `w` references to an `i32`.
fn repacker() -> PlaceRepacker {
    let tys = vec![
        TyKind::Scalar,
        TyKind::Ref { region: RegionKind::Var(0), mutability: Mutability::Mut, pointee: 0 },
        TyKind::Ref { region: RegionKind::Var(1), mutability: Mutability::Mut, pointee: 0 },
        TyKind::Ref { region: RegionKind::Var(2), mutability: Mutability::Mut, pointee: 0 },
        TyKind::Ref { region: RegionKind::Var(3), mutability: Mutability::Not, pointee: 0 },
    ];
    PlaceRepacker::new(tys, vec![], vec![0, 0, 1, 2, 3])
}

fn local(l: u32) -> Place {
    Place::from_local(l)
}

fn current(l: u32) -> MaybeOldPlace {
    MaybeOldPlace::current(local(l))
}

fn remote_current(l: u32) -> MaybeRemotePlace {
    MaybeRemotePlace::Local(current(l))
}

fn l1() -> Location {
    Location::new(1, 1)
}

fn l2() -> Location {
    Location::new(1, 2)
}

/// `y = &mut x` at L1.
fn scenario_one() -> BorrowsState {
    let mut s = BorrowsState::new();
    s.add_reborrow(remote_current(X), local(Y), Mutability::Mut, l1(), RegionKind::Var(0));
    s
}

/// Then `z = &mut *y` at L2.
fn scenario_two(r: &PlaceRepacker) -> BorrowsState {
    let mut s = scenario_one();
    let deref_y = local(Y).project_deref();
    s.ensure_deref_expansion_to_at_least(&deref_y, r, l2());
    s.add_reborrow(MaybeRemotePlace::Local(MaybeOldPlace::current(deref_y)), local(Z), Mutability::Mut, l2(), RegionKind::Var(1));
    s
}

fn reborrow_count(s: &BorrowsState) -> usize {
    s.graph_edges().iter().filter(|e| matches!(e.kind, BorrowsEdgeKind::Reborrow(_))).count()
}

#[test]
fn simple_mut_reborrow() {
    let r = repacker();
    let s = scenario_one();
    let edges = s.graph_edges();
    assert_eq!(edges.len(), 1);
    match &edges[0].kind {
        BorrowsEdgeKind::Reborrow(rb) => {
            assert!(rb.blocked_place == remote_current(X));
            assert!(rb.assigned_place == current(Y));
            assert_eq!(rb.mutability, Mutability::Mut);
            assert_eq!(rb.reserve_location(), l1());
        }
        _ => panic!("expected a reborrow"),
    }
    let roots = s.roots(&r);
    assert_eq!(roots.len(), 1);
    assert!(roots[0] == remote_current(X));
    let blocking = s.edges_blocking(&remote_current(X));
    assert_eq!(blocking.len(), 1);
    assert!(blocking[0] == edges[0]);
}

#[test]
fn nested_reborrow_through_deref() {
    let r = repacker();
    let s = scenario_two(&r);
    assert_eq!(reborrow_count(&s), 2);
    let blocking = s.edges_blocking(&remote_current(X));
    assert_eq!(blocking.len(), 1);
    match &blocking[0].kind {
        BorrowsEdgeKind::Reborrow(rb) => assert_eq!(rb.reserve_location(), l1()),
        _ => panic!("expected the reborrow of L1"),
    }
    let roots = s.roots(&r);
    assert!(!roots.is_empty());
    assert!(roots.iter().all(|p| *p == remote_current(X)));
    let expansions = s.deref_expansions();
    assert_eq!(expansions.len(), 1);
    let de = &expansions[0].value;
    assert!(de.base() == current(Y));
    let children = de.expansion();
    assert!(children.iter().any(|c| *c == MaybeOldPlace::current(local(Y).project_deref())));
}

#[test]
fn make_old_on_assignment() {
    let r = repacker();
    let mut s = scenario_two(&r);
    let l3 = Location::new(1, 3);
    s.make_place_old(&local(X), &r, l3);
    let old_x = MaybeRemotePlace::Local(MaybeOldPlace::new(local(X), Some(SnapshotLocation::Start)));
    let rbs = s.reborrows();
    let first = rbs.iter().find(|rb| rb.value.reserve_location() == l1()).expect("the reborrow of L1");
    assert!(first.value.blocked_place == old_x);
    assert_eq!(s.get_latest(&local(X)), SnapshotLocation::Location(l3));
    let roots = s.roots(&r);
    assert!(roots.iter().any(|p| *p == old_x));
}

#[test]
fn kill_by_unblock() {
    let r = repacker();
    let mut s = scenario_two(&r);
    s.make_place_old(&local(X), &r, Location::new(1, 3));
    let old_x = MaybeRemotePlace::Local(MaybeOldPlace::new(local(X), Some(SnapshotLocation::Start)));
    let mut ug = UnblockGraph::new();
    ug.unblock_place(&old_x, &s, &r);
    assert!(!ug.has_error());
    let terminated: Vec<Location> = ug
        .actions(&r)
        .iter()
        .filter_map(|a| match a {
            UnblockAction::TerminateReborrow { reserve_location, .. } => Some(*reserve_location),
            _ => None,
        })
        .collect();
    assert_eq!(terminated, vec![l2(), l1()]);
    let l4 = Location::new(1, 4);
    s.apply_unblock_graph(ug, &r, l4);
    assert!(s.graph_edges().is_empty());
    assert_eq!(s.get_latest(&local(Y)), SnapshotLocation::Location(l4));
}

#[test]
fn shared_borrow_latest_exemption() {
    let r = repacker();
    let mut s = BorrowsState::new();
    s.add_reborrow(remote_current(X), local(Y), Mutability::Not, l1(), RegionKind::Var(0));
    let mut ug = UnblockGraph::new();
    ug.unblock_place(&remote_current(X), &s, &r);
    s.apply_unblock_graph(ug, &r, Location::new(1, 4));
    assert!(s.graph_edges().is_empty());
    assert_eq!(s.get_latest(&local(X)), SnapshotLocation::Start);
}

#[test]
fn join_at_merge() {
    let r = repacker();
    let b1 = scenario_one();
    let mut b2 = BorrowsState::new();
    let l1_other = Location::new(2, 0);
    b2.add_reborrow(remote_current(X), local(W), Mutability::Mut, l1_other, RegionKind::Var(2));
    let mut b3 = BorrowsState::new();
    assert!(b3.join(&b1, 3, 1, &r));
    assert!(b3.join(&b2, 3, 2, &r));
    assert_eq!(reborrow_count(&b3), 2);
    for e in b3.graph_edges() {
        assert!(!e.conditions().same_as(&pcs_borrows::path_condition::PathConditions::new()));
    }
    let mut first = b3.clone();
    first.filter_for_path(&vec![1, 3]);
    let kept = first.reborrows();
    assert_eq!(kept.len(), 1);
    assert_eq!(kept[0].value.reserve_location(), l1());
    let mut second = b3.clone();
    second.filter_for_path(&vec![2, 3]);
    let kept = second.reborrows();
    assert_eq!(kept.len(), 1);
    assert_eq!(kept[0].value.reserve_location(), l1_other);
}

#[test]
fn fpcs_expansion_of_exclusive_reference() {
    let r = repacker();
    let mut s = BorrowsState::new();
    let summary = CapabilitySummary::new(vec![
        CapabilityLocal::Unallocated,
        CapabilityLocal::Allocated(vec![(local(X), CapabilityKind::Exclusive)]),
        CapabilityLocal::Allocated(vec![(local(Y), CapabilityKind::Exclusive)]),
        CapabilityLocal::Allocated(vec![(local(Z), CapabilityKind::Read)]),
    ]);
    s.ensure_deref_expansions_to_fpcs(&summary, &r, l1());
    let des = s.deref_expansions();
    assert_eq!(des.len(), 1);
    assert!(des[0].value.base() == current(Y));
    assert!(des[0].value.is_owned_expansion());
    assert_eq!(des[0].value.expansion_elems(), vec![ProjElem::Deref]);
}
