//! The borrows graph: a set of edge kinds, each with its path conditions.
use vstd::prelude::*;
use crate::ir::{Location, Mutability, ProjElem, RegionKind, SnapshotLocation};
use crate::latest::Latest;
use crate::place::{MaybeOldPlace, MaybeOldPlaceView, MaybeRemotePlace, MaybeRemotePlaceView, Place, PlaceView, RegionProjection, RegionProjectionView};
use crate::domain::{AbstractionEdge, Reborrow, ReborrowView, view_set, lemma_view_set_push};
use crate::deref_expansion::{DerefExpansion, DerefExpansionView};
use crate::edge::{BorrowsEdge, BorrowsEdgeKind, BorrowsEdgeKindView, BorrowsEdgeView, Conditioned};
use crate::path_condition::{PathCondition, PathConditions, valid_for};
use crate::ty::PlaceRepacker;

verus! {

/// The conditions of each kind among the edges `s`; where a kind occurs
/// more than once, the union of their conditions.
pub open spec fn graph_map(s: Seq<BorrowsEdge>) -> Map<BorrowsEdgeKindView, Set<PathCondition>> {
    Map::new(
        |k: BorrowsEdgeKindView| exists|i: int| 0 <= i < s.len() && (#[trigger] s[i])@.kind == k,
        |k: BorrowsEdgeKindView|
            Set::new(|pc: PathCondition| exists|i: int| 0 <= i < s.len() && (#[trigger] s[i])@.kind == k && s[i]@.conditions.contains(pc)),
    )
}

/// The kinds of `s` are pairwise distinct.
pub open spec fn distinct_kinds(s: Seq<BorrowsEdge>) -> bool {
    forall|i: int, j: int| 0 <= i < s.len() && 0 <= j < s.len() && i != j ==> (#[trigger] s[i])@.kind != (#[trigger] s[j])@.kind
}

/// The graph holds an edge that blocks `p`.
pub open spec fn graph_blocks(g: Map<BorrowsEdgeKindView, Set<PathCondition>>, p: MaybeRemotePlaceView) -> bool {
    exists|k: BorrowsEdgeKindView| g.contains_key(k) && #[trigger] k.blocked_places().contains(p)
}

/// The graph holds an edge that `p` blocks by.
pub open spec fn graph_blocked_by(g: Map<BorrowsEdgeKindView, Set<PathCondition>>, p: MaybeOldPlaceView) -> bool {
    exists|k: BorrowsEdgeKindView| g.contains_key(k) && #[trigger] k.blocked_by_places().contains(p)
}

/// The graph after each kind `k` is replaced by `f(k)`; kinds that meet
/// take the union of their conditions.
pub open spec fn map_kinds(
    g: Map<BorrowsEdgeKindView, Set<PathCondition>>,
    f: spec_fn(BorrowsEdgeKindView) -> BorrowsEdgeKindView,
) -> Map<BorrowsEdgeKindView, Set<PathCondition>> {
    Map::new(
        |k2: BorrowsEdgeKindView| exists|k: BorrowsEdgeKindView| g.contains_key(k) && #[trigger] f(k) == k2,
        |k2: BorrowsEdgeKindView|
            Set::new(|pc: PathCondition| exists|k: BorrowsEdgeKindView| g.contains_key(k) && #[trigger] f(k) == k2 && g[k].contains(pc)),
    )
}

/// The graph with each kind `k` of `s` replaced by `f(k)`, kinds that
/// meet taking the union of their conditions.
pub open spec fn graph_map_with(s: Seq<BorrowsEdge>, f: spec_fn(BorrowsEdgeKindView) -> BorrowsEdgeKindView) -> Map<BorrowsEdgeKindView, Set<PathCondition>> {
    Map::new(
        |k: BorrowsEdgeKindView| exists|i: int| 0 <= i < s.len() && f((#[trigger] s[i])@.kind) == k,
        |k: BorrowsEdgeKindView|
            Set::new(|pc: PathCondition| exists|i: int| 0 <= i < s.len() && f((#[trigger] s[i])@.kind) == k && s[i]@.conditions.contains(pc)),
    )
}

proof fn lemma_map_kinds(s: Seq<BorrowsEdge>, f: spec_fn(BorrowsEdgeKindView) -> BorrowsEdgeKindView)
    ensures
        map_kinds(graph_map(s), f) == graph_map_with(s, f),
{
    let a = map_kinds(graph_map(s), f);
    let b = graph_map_with(s, f);
    assert forall|k2: BorrowsEdgeKindView| #[trigger] a.contains_key(k2) == b.contains_key(k2) by {
        if a.contains_key(k2) {
            let k = choose|k: BorrowsEdgeKindView| graph_map(s).contains_key(k) && #[trigger] f(k) == k2;
            let i = choose|i: int| 0 <= i < s.len() && (#[trigger] s[i])@.kind == k;
            assert(f(s[i]@.kind) == k2);
        }
        if b.contains_key(k2) {
            let i = choose|i: int| 0 <= i < s.len() && f((#[trigger] s[i])@.kind) == k2;
            assert(graph_map(s).contains_key(s[i]@.kind));
        }
    }
    assert forall|k2: BorrowsEdgeKindView| #[trigger] a.contains_key(k2) implies a[k2] =~= b[k2] by {
        assert forall|pc: PathCondition| a[k2].contains(pc) == b[k2].contains(pc) by {
            if a[k2].contains(pc) {
                let k = choose|k: BorrowsEdgeKindView| graph_map(s).contains_key(k) && #[trigger] f(k) == k2 && graph_map(s)[k].contains(pc);
                let i = choose|i: int| 0 <= i < s.len() && (#[trigger] s[i])@.kind == k && s[i]@.conditions.contains(pc);
                assert(f(s[i]@.kind) == k2);
            }
            if b[k2].contains(pc) {
                let i = choose|i: int| 0 <= i < s.len() && f((#[trigger] s[i])@.kind) == k2 && s[i]@.conditions.contains(pc);
                assert(graph_map(s).contains_key(s[i]@.kind));
                assert(graph_map(s)[s[i]@.kind].contains(pc));
            }
        }
    }
    assert(a =~= b);
}

proof fn lemma_map_with_step(s: Seq<BorrowsEdge>, n: int, f: spec_fn(BorrowsEdgeKindView) -> BorrowsEdgeKindView)
    requires
        0 <= n < s.len(),
    ensures
        graph_map_with(s.take(n + 1), f) == insert_edge(graph_map_with(s.take(n), f), f(s[n]@.kind), s[n]@.conditions),
{
    let a = graph_map_with(s.take(n + 1), f);
    let g = graph_map_with(s.take(n), f);
    let k = f(s[n]@.kind);
    let b = insert_edge(g, k, s[n]@.conditions);
    assert forall|j: int| 0 <= j < n implies #[trigger] s.take(n + 1)[j] == s.take(n)[j] by {}
    assert(s.take(n + 1)[n] == s[n]);
    assert forall|k2: BorrowsEdgeKindView| #[trigger] a.contains_key(k2) == b.contains_key(k2) by {
        if a.contains_key(k2) {
            let i = choose|i: int| 0 <= i < s.take(n + 1).len() && f((#[trigger] s.take(n + 1)[i])@.kind) == k2;
            if i < n {
                assert(f(s.take(n)[i]@.kind) == k2);
            }
        }
        if g.contains_key(k2) {
            let i = choose|i: int| 0 <= i < s.take(n).len() && f((#[trigger] s.take(n)[i])@.kind) == k2;
            assert(f(s.take(n + 1)[i]@.kind) == k2);
        }
    }
    assert forall|k2: BorrowsEdgeKindView| #[trigger] a.contains_key(k2) implies a[k2] =~= b[k2] by {
        assert forall|pc: PathCondition| a[k2].contains(pc) == b[k2].contains(pc) by {
            if a[k2].contains(pc) {
                let i = choose|i: int| 0 <= i < s.take(n + 1).len() && f((#[trigger] s.take(n + 1)[i])@.kind) == k2 && s.take(n + 1)[i]@.conditions.contains(pc);
                if i < n {
                    assert(f(s.take(n)[i]@.kind) == k2 && s.take(n)[i]@.conditions.contains(pc));
                    assert(g[k2].contains(pc));
                }
            }
            if b[k2].contains(pc) {
                if k2 == k && s[n]@.conditions.contains(pc) {
                    assert(f(s.take(n + 1)[n]@.kind) == k2 && s.take(n + 1)[n]@.conditions.contains(pc));
                } else {
                    assert(g.contains_key(k2) && g[k2].contains(pc));
                    let i = choose|i: int| 0 <= i < s.take(n).len() && f((#[trigger] s.take(n)[i])@.kind) == k2 && s.take(n)[i]@.conditions.contains(pc);
                    assert(f(s.take(n + 1)[i]@.kind) == k2 && s.take(n + 1)[i]@.conditions.contains(pc));
                }
            }
        }
    }
    assert(a =~= b);
}

/// `k` is a reborrow reserved at `location`.
pub open spec fn reborrow_at(k: BorrowsEdgeKindView, location: Location) -> bool {
    match k {
        BorrowsEdgeKindView::Reborrow(rb) => rb.reserve_location == location,
        _ => false,
    }
}

/// `k` is an abstraction at `location`.
pub open spec fn abstraction_at(k: BorrowsEdgeKindView, location: Location) -> bool {
    match k {
        BorrowsEdgeKindView::Abstraction(a) => a.location() == location,
        _ => false,
    }
}

/// The join at block `self_block` of a graph `a` with the graph `b` of the
/// predecessor `other_block`: a kind of both sides keeps the union of its
/// conditions; a kind of one side only records the transition from that side.
pub open spec fn joined_graph(
    a: Map<BorrowsEdgeKindView, Set<PathCondition>>,
    b: Map<BorrowsEdgeKindView, Set<PathCondition>>,
    self_block: usize,
    other_block: usize,
) -> Map<BorrowsEdgeKindView, Set<PathCondition>> {
    Map::new(
        |k: BorrowsEdgeKindView| a.contains_key(k) || b.contains_key(k),
        |k: BorrowsEdgeKindView|
            if a.contains_key(k) && b.contains_key(k) {
                a[k].union(b[k])
            } else if a.contains_key(k) {
                a[k].insert(PathCondition { from: self_block, to: self_block })
            } else {
                b[k].insert(PathCondition { from: other_block, to: self_block })
            },
    )
}

/// The join after the first `j` edges of `t0` (the other side) are merged
/// into `g1`.
pub open spec fn join_prefix(
    a: Map<BorrowsEdgeKindView, Set<PathCondition>>,
    b: Map<BorrowsEdgeKindView, Set<PathCondition>>,
    g1: Map<BorrowsEdgeKindView, Set<PathCondition>>,
    t0: Seq<BorrowsEdge>,
    j: int,
    self_block: usize,
    other_block: usize,
) -> Map<BorrowsEdgeKindView, Set<PathCondition>> {
    Map::new(
        |k: BorrowsEdgeKindView| a.contains_key(k) || exists|t: int| 0 <= t < j && (#[trigger] t0[t])@.kind == k,
        |k: BorrowsEdgeKindView| if exists|t: int| 0 <= t < j && (#[trigger] t0[t])@.kind == k {
            joined_graph(a, b, self_block, other_block)[k]
        } else {
            g1[k]
        },
    )
}

#[verifier::rlimit(50)]
proof fn lemma_join_step(
    a: Map<BorrowsEdgeKindView, Set<PathCondition>>,
    b: Map<BorrowsEdgeKindView, Set<PathCondition>>,
    g1: Map<BorrowsEdgeKindView, Set<PathCondition>>,
    t0: Seq<BorrowsEdge>,
    j: int,
    self_block: usize,
    other_block: usize,
    cur: Map<BorrowsEdgeKindView, Set<PathCondition>>,
    next: Map<BorrowsEdgeKindView, Set<PathCondition>>,
)
    requires
        0 <= j < t0.len(),
        distinct_kinds(t0),
        b == graph_map(t0),
        forall|k: BorrowsEdgeKindView| #[trigger] g1.contains_key(k) == a.contains_key(k),
        forall|k: BorrowsEdgeKindView| #[trigger] g1.contains_key(k) ==> g1[k] == if b.contains_key(k) { a[k] } else { a[k].insert(PathCondition { from: self_block, to: self_block }) },
        cur == join_prefix(a, b, g1, t0, j, self_block, other_block),
        next == insert_edge(cur, t0[j]@.kind, if a.contains_key(t0[j]@.kind) {
            t0[j]@.conditions
        } else {
            t0[j]@.conditions.insert(PathCondition { from: other_block, to: self_block })
        }),
    ensures
        next == join_prefix(a, b, g1, t0, j + 1, self_block, other_block),
{
    let k = t0[j]@.kind;
    let target = join_prefix(a, b, g1, t0, j + 1, self_block, other_block);
    lemma_distinct_lookup(t0, j);
    assert(b.contains_key(k) && b[k] == t0[j]@.conditions);
    let ex_prev = exists|t: int| 0 <= t < j && (#[trigger] t0[t])@.kind == k;
    if ex_prev {
        let t = choose|t: int| 0 <= t < j && (#[trigger] t0[t])@.kind == k;
        assert(t0[t]@.kind != t0[j]@.kind);
    }
    assert(cur.contains_key(k) == a.contains_key(k));
    assert forall|k2: BorrowsEdgeKindView| #[trigger] next.contains_key(k2) == target.contains_key(k2) by {
        if k2 != k {
            if exists|t: int| 0 <= t < j + 1 && (#[trigger] t0[t])@.kind == k2 {
                let t = choose|t: int| 0 <= t < j + 1 && (#[trigger] t0[t])@.kind == k2;
                assert(t < j);
            }
        } else {
            assert(t0[j]@.kind == k2);
        }
    }
    assert forall|k2: BorrowsEdgeKindView| #[trigger] next.contains_key(k2) implies next[k2] == target[k2] by {
        if k2 == k {
            assert(t0[j]@.kind == k2);
            if a.contains_key(k) {
                assert(g1.contains_key(k));
                assert(g1[k] == a[k]);
                assert(next[k] =~= a[k].union(b[k]));
            } else {
                assert(next[k] =~= b[k].insert(PathCondition { from: other_block, to: self_block }));
            }
        } else {
            if exists|t: int| 0 <= t < j + 1 && (#[trigger] t0[t])@.kind == k2 {
                let t = choose|t: int| 0 <= t < j + 1 && (#[trigger] t0[t])@.kind == k2;
                assert(t < j);
            }
        }
    }
    assert(next =~= target);
}

/// Every place that an edge of `k` blocks by is free of edges.
pub open spec fn is_leaf(g: Map<BorrowsEdgeKindView, Set<PathCondition>>, k: BorrowsEdgeKindView) -> bool {
    forall|p: MaybeOldPlaceView| #[trigger] k.blocked_by_places().contains(p) ==> !graph_blocks(g, MaybeRemotePlaceView::Local(p))
}

/// The places that some edge blocks and that block nothing themselves.
pub open spec fn roots_of(g: Map<BorrowsEdgeKindView, Set<PathCondition>>) -> Set<MaybeRemotePlaceView> {
    Set::new(|p: MaybeRemotePlaceView| graph_blocks(g, p) && match p {
        MaybeRemotePlaceView::Local(q) => !graph_blocked_by(g, q),
        MaybeRemotePlaceView::Remote(_) => true,
    })
}

/// The graph holds a deref expansion of `base`.
pub open spec fn has_expansion_of(g: Map<BorrowsEdgeKindView, Set<PathCondition>>, base: MaybeOldPlaceView) -> bool {
    exists|k: BorrowsEdgeKindView| #[trigger] g.contains_key(k) && (k matches BorrowsEdgeKindView::DerefExpansion(d) && d.base() == base)
}

/// The step after the first `n` steps of `p` leads behind a reference, so
/// the prefix of length `n` must be expanded.
pub open spec fn needs_expansion(r: &PlaceRepacker, p: PlaceView, n: int) -> bool {
    0 <= n < p.projection.len() && !p.take(n + 1).is_owned(r)
}

/// The children that expanding `base` by the step `e` materialises: all
/// fields of a struct for a field step, else the step alone.
pub open spec fn sibling_elems(r: &PlaceRepacker, base: PlaceView, e: ProjElem) -> Seq<ProjElem> {
    match (e, base.ty(r)) {
        (ProjElem::Field(_), Some(t)) => {
            if t < r.tys@.len() && (r.tys@[t as int] matches crate::ty::TyKind::Adt { def } && def < r.adts@.len()) {
                match r.tys@[t as int] {
                    crate::ty::TyKind::Adt { def } => Seq::new(r.adts@[def as int].fields@.len(), |i: int| ProjElem::Field(i as usize)),
                    _ => seq![e],
                }
            } else {
                seq![e]
            }
        },
        _ => seq![e],
    }
}

/// The expansion that is inserted for the prefix of length `n` of `p`.
pub open spec fn expansion_for(r: &PlaceRepacker, p: PlaceView, n: int, location: Location) -> BorrowsEdgeKindView {
    let base = p.take(n);
    if base.is_owned(r) {
        BorrowsEdgeKindView::DerefExpansion(DerefExpansionView::Owned { base: MaybeOldPlaceView::Current(base) })
    } else {
        BorrowsEdgeKindView::DerefExpansion(DerefExpansionView::Borrow {
            base: MaybeOldPlaceView::Current(base),
            expansion: sibling_elems(r, base, p.projection[n]),
            location,
        })
    }
}

/// The places that the first `i` edges of `s` block.
pub open spec fn blocked_upto(s: Seq<BorrowsEdge>, i: int) -> Set<MaybeRemotePlaceView> {
    Set::new(|x: MaybeRemotePlaceView| exists|j: int| 0 <= j < i && (#[trigger] s[j])@.kind.blocked_places().contains(x))
}

pub proof fn lemma_map_kinds_ext(
    g: Map<BorrowsEdgeKindView, Set<PathCondition>>,
    f1: spec_fn(BorrowsEdgeKindView) -> BorrowsEdgeKindView,
    f2: spec_fn(BorrowsEdgeKindView) -> BorrowsEdgeKindView,
)
    requires
        forall|k: BorrowsEdgeKindView| #[trigger] f1(k) == f2(k),
    ensures
        map_kinds(g, f1) == map_kinds(g, f2),
{
    assert(f1 =~= f2);
}

/// `b` is `a` with the deref expansions that `p` needs added: edges of `a`
/// are kept, each new edge is the expansion of a prefix that needs one and
/// holds no conditions, every such prefix ends up expanded, and nothing is
/// added where every such prefix already was.
pub open spec fn expanded_to(
    a: Map<BorrowsEdgeKindView, Set<PathCondition>>,
    b: Map<BorrowsEdgeKindView, Set<PathCondition>>,
    r: &PlaceRepacker,
    p: PlaceView,
    location: Location,
) -> bool {
    &&& forall|k: BorrowsEdgeKindView| #[trigger] a.contains_key(k) ==> b.contains_key(k) && b[k] == a[k]
    &&& forall|k: BorrowsEdgeKindView| #[trigger] b.contains_key(k) && !a.contains_key(k)
        ==> b[k] == Set::<PathCondition>::empty() && exists|n: int| needs_expansion(r, p, n) && k == #[trigger] expansion_for(r, p, n, location)
    &&& forall|n: int| #[trigger] needs_expansion(r, p, n) ==> has_expansion_of(b, MaybeOldPlaceView::Current(p.take(n)))
    &&& (forall|n: int| #[trigger] needs_expansion(r, p, n) ==> has_expansion_of(a, MaybeOldPlaceView::Current(p.take(n)))) ==> b == a
}

/// The graph with `conds` added to the conditions of `k`.
pub open spec fn insert_edge(
    g: Map<BorrowsEdgeKindView, Set<PathCondition>>,
    k: BorrowsEdgeKindView,
    conds: Set<PathCondition>,
) -> Map<BorrowsEdgeKindView, Set<PathCondition>> {
    if g.contains_key(k) {
        g.insert(k, g[k].union(conds))
    } else {
        g.insert(k, conds)
    }
}

/// A rewrite applied to every edge kind of the graph.
pub enum KindRewrite {
    MakeOld { place: Place, latest: Latest },
    Substitute { old_place: MaybeOldPlace, new_place: MaybeOldPlace },
    ChangeProjection { old_projection: RegionProjection, new_projection: RegionProjection },
    MoveReborrow { from: MaybeOldPlace, to: MaybeOldPlace },
    MoveMembers { old_place: MaybeOldPlace, new_place: MaybeOldPlace, old_vids: Vec<usize>, new_vids: Vec<usize> },
}

pub enum KindRewriteView {
    MakeOld { place: PlaceView, latest: Map<u32, SnapshotLocation> },
    Substitute { old_place: MaybeOldPlaceView, new_place: MaybeOldPlaceView },
    ChangeProjection { old_projection: RegionProjectionView, new_projection: RegionProjectionView },
    MoveReborrow { from: MaybeOldPlaceView, to: MaybeOldPlaceView },
    MoveMembers { old_place: MaybeOldPlaceView, new_place: MaybeOldPlaceView, old_vids: Seq<usize>, new_vids: Seq<usize> },
}

impl View for KindRewrite {
    type V = KindRewriteView;

    open spec fn view(&self) -> KindRewriteView {
        match self {
            KindRewrite::MakeOld { place, latest } => KindRewriteView::MakeOld { place: place@, latest: latest@ },
            KindRewrite::Substitute { old_place, new_place } => KindRewriteView::Substitute { old_place: old_place@, new_place: new_place@ },
            KindRewrite::ChangeProjection { old_projection, new_projection } => KindRewriteView::ChangeProjection { old_projection: old_projection@, new_projection: new_projection@ },
            KindRewrite::MoveReborrow { from, to } => KindRewriteView::MoveReborrow { from: from@, to: to@ },
            KindRewrite::MoveMembers { old_place, new_place, old_vids, new_vids } => KindRewriteView::MoveMembers {
                old_place: old_place@,
                new_place: new_place@,
                old_vids: old_vids@,
                new_vids: new_vids@,
            },
        }
    }
}

impl KindRewriteView {
    pub open spec fn apply(self, k: BorrowsEdgeKindView) -> BorrowsEdgeKindView {
        match self {
            KindRewriteView::MakeOld { place, latest } => k.make_old(place, latest),
            KindRewriteView::Substitute { old_place, new_place } => k.substitute(old_place, new_place),
            KindRewriteView::ChangeProjection { old_projection, new_projection } => k.change_projection(old_projection, new_projection),
            KindRewriteView::MoveReborrow { from, to } => k.move_reborrow(from, to),
            KindRewriteView::MoveMembers { old_place, new_place, old_vids, new_vids } => k.move_member(old_place, new_place, old_vids, new_vids),
        }
    }
}

impl KindRewrite {
    pub fn apply(&self, k: &mut BorrowsEdgeKind)
        ensures
            final(k)@ == self@.apply(old(k)@),
    {
        match self {
            KindRewrite::MakeOld { place, latest } => k.make_place_old(place, latest),
            KindRewrite::Substitute { old_place, new_place } => k.substitute(old_place, new_place),
            KindRewrite::ChangeProjection { old_projection, new_projection } => k.change_projection(old_projection, new_projection),
            KindRewrite::MoveReborrow { from, to } => k.move_reborrow(from, to),
            KindRewrite::MoveMembers { old_place, new_place, old_vids, new_vids } => k.move_member(old_place, new_place, old_vids, new_vids),
        }
    }
}

/// The set of conditioned edges of one program point.
pub struct BorrowsGraph {
    edges: Vec<BorrowsEdge>,
}

impl View for BorrowsGraph {
    type V = Map<BorrowsEdgeKindView, Set<PathCondition>>;

    closed spec fn view(&self) -> Map<BorrowsEdgeKindView, Set<PathCondition>> {
        graph_map(self.edges@)
    }
}

proof fn lemma_distinct_lookup(s: Seq<BorrowsEdge>, i: int)
    requires
        distinct_kinds(s),
        0 <= i < s.len(),
    ensures
        graph_map(s).contains_key(s[i]@.kind),
        graph_map(s)[s[i]@.kind] == s[i]@.conditions,
{
    let k = s[i]@.kind;
    assert(graph_map(s).contains_key(k));
    assert(graph_map(s)[k] =~= s[i]@.conditions) by {
        assert forall|pc: PathCondition| #[trigger] graph_map(s)[k].contains(pc) implies s[i]@.conditions.contains(pc) by {
            let j = choose|j: int| 0 <= j < s.len() && (#[trigger] s[j])@.kind == k && s[j]@.conditions.contains(pc);
            if j != i {
                assert(s[j]@.kind != s[i]@.kind);
            }
        }
        assert forall|pc: PathCondition| s[i]@.conditions.contains(pc) implies #[trigger] graph_map(s)[k].contains(pc) by {
            assert(s[i]@.kind == k && s[i]@.conditions.contains(pc));
        }
    }
}

impl Clone for BorrowsGraph {
    fn clone(&self) -> (r: Self)
        ensures
            r@ == self@,
            self.wf() ==> r.wf(),
    {
        let mut edges: Vec<BorrowsEdge> = Vec::new();
        let mut i: usize = 0;
        while i < self.edges.len()
            invariant
                i <= self.edges@.len(),
                edges@.len() == i,
                forall|j: int| 0 <= j < i ==> (#[trigger] edges@[j])@ == self.edges@[j]@,
            decreases self.edges@.len() - i,
        {
            edges.push(self.edges[i].clone());
            i = i + 1;
        }
        let r = BorrowsGraph { edges };
        proof {
            if self.wf() {
                assert forall|a: int, b: int| 0 <= a < r.edges@.len() && 0 <= b < r.edges@.len() && a != b implies
                    (#[trigger] r.edges@[a])@.kind != (#[trigger] r.edges@[b])@.kind by {
                    assert(self.edges@[a]@.kind != self.edges@[b]@.kind);
                }
            }
            assert(r@ =~= self@) by {
                assert forall|k: BorrowsEdgeKindView| #[trigger] r@.contains_key(k) == self@.contains_key(k) by {
                    if r@.contains_key(k) {
                        let j = choose|j: int| 0 <= j < r.edges@.len() && (#[trigger] r.edges@[j])@.kind == k;
                        assert(self.edges@[j]@.kind == k);
                    }
                    if self@.contains_key(k) {
                        let j = choose|j: int| 0 <= j < self.edges@.len() && (#[trigger] self.edges@[j])@.kind == k;
                        assert(r.edges@[j]@.kind == k);
                    }
                }
                assert forall|k: BorrowsEdgeKindView| #[trigger] r@.contains_key(k) implies r@[k] =~= self@[k] by {
                    assert forall|pc: PathCondition| r@[k].contains(pc) == self@[k].contains(pc) by {
                        if r@[k].contains(pc) {
                            let j = choose|j: int| 0 <= j < r.edges@.len() && (#[trigger] r.edges@[j])@.kind == k && r.edges@[j]@.conditions.contains(pc);
                            assert(self.edges@[j]@.kind == k);
                        }
                        if self@[k].contains(pc) {
                            let j = choose|j: int| 0 <= j < self.edges@.len() && (#[trigger] self.edges@[j])@.kind == k && self.edges@[j]@.conditions.contains(pc);
                            assert(r.edges@[j]@.kind == k);
                        }
                    }
                }
            }
        }
        r
    }
}

impl BorrowsGraph {
    /// Each kind occurs once among the stored edges.
    pub closed spec fn wf(&self) -> bool {
        distinct_kinds(self.edges@)
    }

    /// The number of edges.
    pub closed spec fn size(&self) -> nat {
        self.edges@.len()
    }

    pub fn len(&self) -> (r: usize)
        ensures
            r == self.size(),
    {
        self.edges.len()
    }

    pub fn new() -> (r: BorrowsGraph)
        ensures
            r.wf(),
            r@ == Map::<BorrowsEdgeKindView, Set<PathCondition>>::empty(),
    {
        let r = BorrowsGraph { edges: Vec::new() };
        proof {
            assert(r@ =~= Map::<BorrowsEdgeKindView, Set<PathCondition>>::empty());
        }
        r
    }

    /// The edges, each kind once.
    pub fn edges(&self) -> (r: &Vec<BorrowsEdge>)
        requires
            self.wf(),
        ensures
            forall|i: int| 0 <= i < r@.len() ==> self@.contains_key((#[trigger] r@[i])@.kind)
                && self@[r@[i]@.kind] == r@[i]@.conditions,
            forall|k: BorrowsEdgeKindView| #[trigger] self@.contains_key(k) ==> exists|i: int| 0 <= i < r@.len() && (#[trigger] r@[i])@.kind == k,
            distinct_kinds(r@),
    {
        proof {
            assert forall|i: int| 0 <= i < self.edges@.len() implies self@.contains_key((#[trigger] self.edges@[i])@.kind)
                && self@[self.edges@[i]@.kind] == self.edges@[i]@.conditions by {
                lemma_distinct_lookup(self.edges@, i);
            }
        }
        &self.edges
    }

    /// The index of the edge of kind `kind`, if there is one.
    fn find(&self, kind: &BorrowsEdgeKind) -> (r: Option<usize>)
        requires
            self.wf(),
        ensures
            r is None <==> !self@.contains_key(kind@),
            r matches Some(i) ==> i < self.edges@.len() && self.edges@[i as int]@.kind == kind@
                && self@[kind@] == self.edges@[i as int]@.conditions,
    {
        let mut i: usize = 0;
        while i < self.edges.len()
            invariant
                i <= self.edges@.len(),
                distinct_kinds(self.edges@),
                forall|j: int| 0 <= j < i ==> (#[trigger] self.edges@[j])@.kind != kind@,
            decreases self.edges@.len() - i,
        {
            if self.edges[i].kind == *kind {
                proof {
                    lemma_distinct_lookup(self.edges@, i as int);
                }
                return Some(i);
            }
            i = i + 1;
        }
        None
    }

    /// Adds `edge`; an edge of the same kind takes the union of both
    /// conditions. Returns whether the graph changed.
    pub fn insert(&mut self, edge: BorrowsEdge) -> (changed: bool)
        requires
            old(self).wf(),
        ensures
            final(self).wf(),
            final(self)@ == insert_edge(old(self)@, edge@.kind, edge@.conditions),
            changed == (final(self)@ != old(self)@),
    {
        let ghost g0 = self@;
        let ghost s0 = self.edges@;
        match self.find(&edge.kind) {
            Some(i) => {
                proof {
                    lemma_distinct_lookup(s0, i as int);
                }
                let mut e = self.edges[i].clone();
                let grew = e.conditions.join(&edge.conditions);
                self.edges.set(i, e);
                proof {
                    let k = edge@.kind;
                    assert forall|a: int, b: int| 0 <= a < self.edges@.len() && 0 <= b < self.edges@.len() && a != b implies
                        (#[trigger] self.edges@[a])@.kind != (#[trigger] self.edges@[b])@.kind by {
                        assert(s0[a]@.kind != s0[b]@.kind);
                    }
                    lemma_distinct_lookup(self.edges@, i as int);
                    assert(self@ =~= insert_edge(g0, k, edge@.conditions)) by {
                        assert forall|k2: BorrowsEdgeKindView| #[trigger] self@.contains_key(k2) == g0.insert(k, g0[k].union(edge@.conditions)).contains_key(k2) by {
                            if self@.contains_key(k2) {
                                let j = choose|j: int| 0 <= j < self.edges@.len() && (#[trigger] self.edges@[j])@.kind == k2;
                                assert(s0[j]@.kind == k2);
                            }
                            if g0.contains_key(k2) {
                                let j = choose|j: int| 0 <= j < s0.len() && (#[trigger] s0[j])@.kind == k2;
                                assert(self.edges@[j]@.kind == k2);
                            }
                        }
                        assert forall|k2: BorrowsEdgeKindView| #[trigger] self@.contains_key(k2) && k2 != k implies self@[k2] == g0[k2] by {
                            let j = choose|j: int| 0 <= j < self.edges@.len() && (#[trigger] self.edges@[j])@.kind == k2;
                            lemma_distinct_lookup(self.edges@, j);
                            lemma_distinct_lookup(s0, j);
                        }
                    }
                    if grew {
                        let pc = choose|pc: PathCondition| edge@.conditions.contains(pc) && !g0[k].contains(pc);
                        assert(self@[k].contains(pc));
                    } else {
                        assert(g0[k].union(edge@.conditions) =~= g0[k]);
                        assert(self@ =~= g0);
                    }
                }
                grew
            },
            None => {
                let ghost k = edge@.kind;
                self.edges.push(edge);
                proof {
                    assert forall|a: int, b: int| 0 <= a < self.edges@.len() && 0 <= b < self.edges@.len() && a != b implies
                        (#[trigger] self.edges@[a])@.kind != (#[trigger] self.edges@[b])@.kind by {
                        if a < s0.len() && b < s0.len() {
                            assert(s0[a]@.kind != s0[b]@.kind);
                        } else if a < s0.len() {
                            assert(g0.contains_key(s0[a]@.kind));
                        } else if b < s0.len() {
                            assert(g0.contains_key(s0[b]@.kind));
                        }
                    }
                    let n = s0.len() as int;
                    lemma_distinct_lookup(self.edges@, n);
                    assert(self@ =~= g0.insert(k, self.edges@[n]@.conditions)) by {
                        assert forall|k2: BorrowsEdgeKindView| #[trigger] self@.contains_key(k2) == g0.insert(k, self.edges@[n]@.conditions).contains_key(k2) by {
                            if self@.contains_key(k2) {
                                let j = choose|j: int| 0 <= j < self.edges@.len() && (#[trigger] self.edges@[j])@.kind == k2;
                                if j < n {
                                    assert(s0[j]@.kind == k2);
                                }
                            }
                            if g0.contains_key(k2) {
                                let j = choose|j: int| 0 <= j < s0.len() && (#[trigger] s0[j])@.kind == k2;
                                assert(self.edges@[j]@.kind == k2);
                            }
                        }
                        assert forall|k2: BorrowsEdgeKindView| #[trigger] self@.contains_key(k2) && k2 != k implies self@[k2] == g0[k2] by {
                            let j = choose|j: int| 0 <= j < self.edges@.len() && (#[trigger] self.edges@[j])@.kind == k2;
                            lemma_distinct_lookup(self.edges@, j);
                            lemma_distinct_lookup(s0, j);
                        }
                    }
                    assert(self@.contains_key(k));
                    assert(!g0.contains_key(k));
                }
                true
            },
        }
    }

    /// Removes the edge at index `i`.
    fn remove_at(&mut self, i: usize)
        requires
            old(self).wf(),
            i < old(self).edges@.len(),
        ensures
            final(self).wf(),
            final(self)@ == old(self)@.remove(old(self).edges@[i as int]@.kind),
            final(self).size() + 1 == old(self).size(),
    {
        let ghost s0 = self.edges@;
        let ghost g0 = self@;
        let ghost k = s0[i as int]@.kind;
        self.edges.remove(i);
        proof {
            assert forall|a: int| 0 <= a < self.edges@.len() implies #[trigger] self.edges@[a] == s0[if a < i { a } else { a + 1 }] by {}
            assert forall|a: int, b: int| 0 <= a < self.edges@.len() && 0 <= b < self.edges@.len() && a != b implies
                (#[trigger] self.edges@[a])@.kind != (#[trigger] self.edges@[b])@.kind by {
                let a0 = if a < i { a } else { a + 1 };
                let b0 = if b < i { b } else { b + 1 };
                assert(s0[a0]@.kind != s0[b0]@.kind);
            }
            assert(self@ =~= g0.remove(k)) by {
                assert forall|k2: BorrowsEdgeKindView| #[trigger] self@.contains_key(k2) == g0.remove(k).contains_key(k2) by {
                    if self@.contains_key(k2) {
                        let j = choose|j: int| 0 <= j < self.edges@.len() && (#[trigger] self.edges@[j])@.kind == k2;
                        let j0 = if j < i { j } else { j + 1 };
                        assert(s0[j0]@.kind == k2);
                        assert(j0 != i);
                        assert(s0[j0]@.kind != s0[i as int]@.kind);
                    }
                    if g0.remove(k).contains_key(k2) {
                        let j0 = choose|j0: int| 0 <= j0 < s0.len() && (#[trigger] s0[j0])@.kind == k2;
                        assert(j0 != i);
                        let j = if j0 < i { j0 } else { j0 - 1 };
                        assert(self.edges@[j]@.kind == k2);
                    }
                }
                assert forall|k2: BorrowsEdgeKindView| #[trigger] self@.contains_key(k2) implies self@[k2] == g0.remove(k)[k2] by {
                    let j = choose|j: int| 0 <= j < self.edges@.len() && (#[trigger] self.edges@[j])@.kind == k2;
                    let j0 = if j < i { j } else { j + 1 };
                    lemma_distinct_lookup(self.edges@, j);
                    lemma_distinct_lookup(s0, j0);
                }
            }
        }
    }

    /// Removes `edge` where the graph holds exactly it; returns whether it did.
    pub fn remove(&mut self, edge: &BorrowsEdge) -> (removed: bool)
        requires
            old(self).wf(),
        ensures
            final(self).wf(),
            removed == (old(self)@.contains_key(edge@.kind) && old(self)@[edge@.kind] == edge@.conditions),
            removed ==> final(self)@ == old(self)@.remove(edge@.kind),
            !removed ==> final(self)@ == old(self)@,
            removed ==> final(self).size() + 1 == old(self).size(),
            !removed ==> final(self).size() == old(self).size(),
    {
        match self.find(&edge.kind) {
            Some(i) => {
                proof {
                    lemma_distinct_lookup(self.edges@, i as int);
                }
                if self.edges[i].conditions.same_as(&edge.conditions) {
                    self.remove_at(i);
                    true
                } else {
                    false
                }
            },
            None => false,
        }
    }

    /// Removes the edge of kind `kind`, whatever its conditions; returns
    /// whether there was one.
    pub fn remove_kind(&mut self, kind: &BorrowsEdgeKind) -> (removed: bool)
        requires
            old(self).wf(),
        ensures
            final(self).wf(),
            removed == old(self)@.contains_key(kind@),
            final(self)@ == old(self)@.remove(kind@),
    {
        match self.find(kind) {
            Some(i) => {
                self.remove_at(i);
                true
            },
            None => {
                proof {
                    assert(self@.remove(kind@) =~= self@);
                }
                false
            },
        }
    }

    /// The edges that block `place`.
    pub fn edges_blocking(&self, place: &MaybeRemotePlace) -> (r: Vec<BorrowsEdge>)
        requires
            self.wf(),
        ensures
            forall|i: int| 0 <= i < r@.len() ==> self@.contains_key((#[trigger] r@[i])@.kind)
                && self@[r@[i]@.kind] == r@[i]@.conditions && r@[i]@.kind.blocked_places().contains(place@),
            forall|k: BorrowsEdgeKindView| #[trigger] self@.contains_key(k) && k.blocked_places().contains(place@)
                ==> exists|i: int| 0 <= i < r@.len() && (#[trigger] r@[i])@.kind == k,
            distinct_kinds(r@),
    {
        let mut out: Vec<BorrowsEdge> = Vec::new();
        let mut i: usize = 0;
        let ghost mut idx: Seq<int> = Seq::empty();
        while i < self.edges.len()
            invariant
                i <= self.edges@.len(),
                self.wf(),
                out@.len() == idx.len(),
                forall|j: int| 0 <= j < idx.len() ==> 0 <= #[trigger] idx[j] < i && out@[j]@ == self.edges@[idx[j]]@,
                forall|a: int, b: int| 0 <= a < b < idx.len() ==> #[trigger] idx[a] < #[trigger] idx[b],
                forall|j: int| 0 <= j < out@.len() ==> (#[trigger] out@[j])@.kind.blocked_places().contains(place@),
                forall|j: int| 0 <= j < i && (#[trigger] self.edges@[j])@.kind.blocked_places().contains(place@)
                    ==> exists|a: int| 0 <= a < out@.len() && (#[trigger] out@[a])@.kind == self.edges@[j]@.kind,
            decreases self.edges@.len() - i,
        {
            let ghost prev = out@;
            if self.edges[i].kind.blocks_place(place) {
                out.push(self.edges[i].clone());
                proof {
                    idx = idx.push(i as int);
                    assert(out@[out@.len() - 1]@.kind == self.edges@[i as int]@.kind);
                }
            }
            proof {
                assert forall|j: int| 0 <= j < i + 1 && (#[trigger] self.edges@[j])@.kind.blocked_places().contains(place@)
                    implies exists|a: int| 0 <= a < out@.len() && (#[trigger] out@[a])@.kind == self.edges@[j]@.kind by {
                    if j < i {
                        let a = choose|a: int| 0 <= a < prev.len() && (#[trigger] prev[a])@.kind == self.edges@[j]@.kind;
                        assert(out@[a] == prev[a]);
                    } else {
                        assert(out@[out@.len() - 1]@.kind == self.edges@[i as int]@.kind);
                    }
                }
            }
            i = i + 1;
        }
        proof {
            assert forall|j: int| 0 <= j < out@.len() implies self@.contains_key((#[trigger] out@[j])@.kind)
                && self@[out@[j]@.kind] == out@[j]@.conditions by {
                lemma_distinct_lookup(self.edges@, idx[j]);
            }
            assert forall|k: BorrowsEdgeKindView| #[trigger] self@.contains_key(k) && k.blocked_places().contains(place@)
                implies exists|a: int| 0 <= a < out@.len() && (#[trigger] out@[a])@.kind == k by {
                let j = choose|j: int| 0 <= j < self.edges@.len() && (#[trigger] self.edges@[j])@.kind == k;
                assert(self.edges@[j]@.kind.blocked_places().contains(place@));
            }
            assert forall|a: int, b: int| 0 <= a < out@.len() && 0 <= b < out@.len() && a != b implies
                (#[trigger] out@[a])@.kind != (#[trigger] out@[b])@.kind by {
                if a < b {
                    assert(idx[a] < idx[b]);
                } else {
                    assert(idx[b] < idx[a]);
                }
                assert(self.edges@[idx[a]]@.kind != self.edges@[idx[b]]@.kind);
            }
        }
        out
    }

    /// Some edge blocks `place`.
    pub fn has_edge_blocking(&self, place: &MaybeRemotePlace) -> (r: bool)
        requires
            self.wf(),
        ensures
            r == graph_blocks(self@, place@),
    {
        let mut i: usize = 0;
        while i < self.edges.len()
            invariant
                i <= self.edges@.len(),
                forall|j: int| 0 <= j < i ==> !(#[trigger] self.edges@[j])@.kind.blocked_places().contains(place@),
            decreases self.edges@.len() - i,
        {
            if self.edges[i].kind.blocks_place(place) {
                proof {
                    assert(self@.contains_key(self.edges@[i as int]@.kind));
                }
                return true;
            }
            i = i + 1;
        }
        proof {
            if graph_blocks(self@, place@) {
                let k = choose|k: BorrowsEdgeKindView| self@.contains_key(k) && #[trigger] k.blocked_places().contains(place@);
                let j = choose|j: int| 0 <= j < self.edges@.len() && (#[trigger] self.edges@[j])@.kind == k;
            }
        }
        false
    }
}

impl BorrowsGraph {
    /// Applies `op` to every edge kind; kinds that meet take the union of
    /// their conditions. Returns whether some kind was rewritten.
    pub fn rewrite(&mut self, op: &KindRewrite) -> (changed: bool)
        requires
            old(self).wf(),
        ensures
            final(self).wf(),
            final(self)@ == map_kinds(old(self)@, |k: BorrowsEdgeKindView| op@.apply(k)),
            changed == exists|k: BorrowsEdgeKindView| old(self)@.contains_key(k) && #[trigger] op@.apply(k) != k,
    {
        let ghost f = |k: BorrowsEdgeKindView| op@.apply(k);
        let ghost s0 = self.edges@;
        let mut result = BorrowsGraph::new();
        let mut changed = false;
        let mut i: usize = 0;
        proof {
            assert(graph_map_with(s0.take(0), f) =~= result@);
        }
        while i < self.edges.len()
            invariant
                i <= s0.len(),
                self.edges@ == s0,
                result.wf(),
                forall|x: BorrowsEdgeKindView| #[trigger] f(x) == op@.apply(x),
                result@ == graph_map_with(s0.take(i as int), f),
                changed == exists|j: int| 0 <= j < i && f((#[trigger] s0[j])@.kind) != s0[j]@.kind,
            decreases s0.len() - i,
        {
            let mut k = self.edges[i].kind.clone();
            assert(k@ == s0[i as int]@.kind);
            op.apply(&mut k);
            assert(k@ == op@.apply(s0[i as int]@.kind));
            if k != self.edges[i].kind {
                changed = true;
            }
            let e = BorrowsEdge::new(k, self.edges[i].conditions.clone());
            proof {
                lemma_map_with_step(s0, i as int, f);
                assert(f(s0[i as int]@.kind) == op@.apply(s0[i as int]@.kind));
                assert(f(s0[i as int]@.kind) == e@.kind);
                assert(e@.conditions == s0[i as int]@.conditions);
            }
            result.insert(e);
            proof {
                assert(changed == exists|j: int| 0 <= j < i + 1 && f((#[trigger] s0[j])@.kind) != s0[j]@.kind) by {
                    if f(s0[i as int]@.kind) != s0[i as int]@.kind {
                        assert(0 <= i < i + 1);
                    }
                }
            }
            i = i + 1;
        }
        proof {
            assert(s0.take(i as int) =~= s0);
            lemma_map_kinds(s0, f);
            if changed {
                let j = choose|j: int| 0 <= j < i && f((#[trigger] s0[j])@.kind) != s0[j]@.kind;
                assert(graph_map(s0).contains_key(s0[j]@.kind));
                assert(op@.apply(s0[j]@.kind) != s0[j]@.kind);
            } else {
                assert forall|k: BorrowsEdgeKindView| graph_map(s0).contains_key(k) implies #[trigger] op@.apply(k) == k by {
                    let j = choose|j: int| 0 <= j < s0.len() && (#[trigger] s0[j])@.kind == k;
                    assert(f(s0[j]@.kind) == s0[j]@.kind);
                }
            }
        }
        *self = result;
        changed
    }

    /// Adds `pc` to the conditions of every edge; returns whether any grew.
    pub fn add_path_condition(&mut self, pc: PathCondition) -> (changed: bool)
        requires
            old(self).wf(),
        ensures
            final(self).wf(),
            final(self)@ == old(self)@.map_values(|c: Set<PathCondition>| c.insert(pc)),
            changed == exists|k: BorrowsEdgeKindView| old(self)@.contains_key(k) && !(#[trigger] old(self)@[k]).contains(pc),
    {
        let ghost s0 = self.edges@;
        let ghost g0 = self@;
        let mut changed = false;
        let mut i: usize = 0;
        while i < self.edges.len()
            invariant
                i <= s0.len(),
                self.edges@.len() == s0.len(),
                distinct_kinds(s0),
                forall|j: int| 0 <= j < s0.len() ==> (#[trigger] self.edges@[j])@.kind == s0[j]@.kind,
                forall|j: int| 0 <= j < i ==> (#[trigger] self.edges@[j])@.conditions == s0[j]@.conditions.insert(pc),
                forall|j: int| i <= j < s0.len() ==> (#[trigger] self.edges@[j])@.conditions == s0[j]@.conditions,
                changed == exists|j: int| 0 <= j < i && !(#[trigger] s0[j])@.conditions.contains(pc),
            decreases s0.len() - i,
        {
            let mut e = self.edges[i].clone();
            if e.insert_path_condition(pc) {
                changed = true;
            }
            self.edges.set(i, e);
            i = i + 1;
        }
        proof {
            assert forall|a: int, b: int| 0 <= a < self.edges@.len() && 0 <= b < self.edges@.len() && a != b implies
                (#[trigger] self.edges@[a])@.kind != (#[trigger] self.edges@[b])@.kind by {
                assert(s0[a]@.kind != s0[b]@.kind);
            }
            let target = g0.map_values(|c: Set<PathCondition>| c.insert(pc));
            assert forall|k: BorrowsEdgeKindView| #[trigger] self@.contains_key(k) == target.contains_key(k) by {
                if self@.contains_key(k) {
                    let j = choose|j: int| 0 <= j < self.edges@.len() && (#[trigger] self.edges@[j])@.kind == k;
                    assert(s0[j]@.kind == k);
                }
                if g0.contains_key(k) {
                    let j = choose|j: int| 0 <= j < s0.len() && (#[trigger] s0[j])@.kind == k;
                    assert(self.edges@[j]@.kind == k);
                }
            }
            assert forall|k: BorrowsEdgeKindView| #[trigger] self@.contains_key(k) implies self@[k] == target[k] by {
                let j = choose|j: int| 0 <= j < self.edges@.len() && (#[trigger] self.edges@[j])@.kind == k;
                lemma_distinct_lookup(self.edges@, j);
                lemma_distinct_lookup(s0, j);
            }
            assert(self@ =~= target);
            if changed {
                let j = choose|j: int| 0 <= j < i && !(#[trigger] s0[j])@.conditions.contains(pc);
                lemma_distinct_lookup(s0, j);
                assert(g0.contains_key(s0[j]@.kind) && !g0[s0[j]@.kind].contains(pc));
            } else {
                assert forall|k: BorrowsEdgeKindView| g0.contains_key(k) implies (#[trigger] g0[k]).contains(pc) by {
                    let j = choose|j: int| 0 <= j < s0.len() && (#[trigger] s0[j])@.kind == k;
                    lemma_distinct_lookup(s0, j);
                }
            }
        }
        changed
    }

    /// Keeps the edges whose entry in `keep` is true.
    fn retain_marked(&mut self, keep: &Vec<bool>)
        requires
            old(self).wf(),
            keep@.len() == old(self).edges@.len(),
        ensures
            final(self).wf(),
            final(self)@ == Map::new(
                |k: BorrowsEdgeKindView| exists|i: int| 0 <= i < keep@.len() && keep@[i] && (#[trigger] old(self).edges@[i])@.kind == k,
                |k: BorrowsEdgeKindView| old(self)@[k],
            ),
    {
        let ghost s0 = self.edges@;
        let ghost g0 = self@;
        let mut out: Vec<BorrowsEdge> = Vec::new();
        let ghost mut idx: Seq<int> = Seq::empty();
        let mut i: usize = 0;
        while i < self.edges.len()
            invariant
                i <= s0.len(),
                self.edges@ == s0,
                keep@.len() == s0.len(),
                out@.len() == idx.len(),
                forall|j: int| 0 <= j < idx.len() ==> 0 <= #[trigger] idx[j] < i && keep@[idx[j]] && out@[j]@ == s0[idx[j]]@,
                forall|a: int, b: int| 0 <= a < b < idx.len() ==> #[trigger] idx[a] < #[trigger] idx[b],
                forall|j: int| 0 <= j < i && keep@[j] ==> exists|a: int| 0 <= a < idx.len() && #[trigger] idx[a] == j,
            decreases s0.len() - i,
        {
            let ghost prev_idx = idx;
            if keep[i] {
                out.push(self.edges[i].clone());
                proof {
                    idx = idx.push(i as int);
                    assert(idx[idx.len() - 1] == i);
                }
            }
            proof {
                assert forall|j: int| 0 <= j < i + 1 && keep@[j] implies exists|a: int| 0 <= a < idx.len() && #[trigger] idx[a] == j by {
                    if j == i {
                        assert(idx[idx.len() - 1] == i);
                    } else {
                        let a = choose|a: int| 0 <= a < prev_idx.len() && #[trigger] prev_idx[a] == j;
                        assert(idx[a] == prev_idx[a]);
                    }
                }
            }
            i = i + 1;
        }
        let r = BorrowsGraph { edges: out };
        proof {
            assert forall|a: int, b: int| 0 <= a < r.edges@.len() && 0 <= b < r.edges@.len() && a != b implies
                (#[trigger] r.edges@[a])@.kind != (#[trigger] r.edges@[b])@.kind by {
                if a < b {
                    assert(idx[a] < idx[b]);
                } else {
                    assert(idx[b] < idx[a]);
                }
                assert(s0[idx[a]]@.kind != s0[idx[b]]@.kind);
            }
            let target = Map::new(
                |k: BorrowsEdgeKindView| exists|i: int| 0 <= i < keep@.len() && keep@[i] && (#[trigger] s0[i])@.kind == k,
                |k: BorrowsEdgeKindView| g0[k],
            );
            assert forall|k: BorrowsEdgeKindView| #[trigger] r@.contains_key(k) == target.contains_key(k) by {
                if r@.contains_key(k) {
                    let j = choose|j: int| 0 <= j < r.edges@.len() && (#[trigger] r.edges@[j])@.kind == k;
                    assert(s0[idx[j]]@.kind == k);
                }
                if target.contains_key(k) {
                    let j = choose|j: int| 0 <= j < keep@.len() && keep@[j] && (#[trigger] s0[j])@.kind == k;
                    let a = choose|a: int| 0 <= a < idx.len() && #[trigger] idx[a] == j;
                    assert(r.edges@[a]@.kind == k);
                }
            }
            assert forall|k: BorrowsEdgeKindView| #[trigger] r@.contains_key(k) implies r@[k] == target[k] by {
                let j = choose|j: int| 0 <= j < r.edges@.len() && (#[trigger] r.edges@[j])@.kind == k;
                lemma_distinct_lookup(r.edges@, j);
                lemma_distinct_lookup(s0, idx[j]);
            }
            assert(r@ =~= target);
        }
        *self = r;
    }

    /// Removes every edge whose conditions `path` does not realise.
    pub fn filter_for_path(&mut self, path: &Vec<usize>)
        requires
            old(self).wf(),
        ensures
            final(self).wf(),
            final(self)@ == old(self)@.restrict(Set::new(|k: BorrowsEdgeKindView| old(self)@.contains_key(k) && valid_for(old(self)@[k], path@))),
    {
        let ghost s0 = self.edges@;
        let ghost g0 = self@;
        let mut keep: Vec<bool> = Vec::new();
        let mut i: usize = 0;
        while i < self.edges.len()
            invariant
                i <= s0.len(),
                self.edges@ == s0,
                keep@.len() == i,
                forall|j: int| 0 <= j < i ==> keep@[j] == valid_for((#[trigger] s0[j])@.conditions, path@),
            decreases s0.len() - i,
        {
            keep.push(self.edges[i].valid_for_path(path));
            i = i + 1;
        }
        self.retain_marked(&keep);
        proof {
            let target = g0.restrict(Set::new(|k: BorrowsEdgeKindView| g0.contains_key(k) && valid_for(g0[k], path@)));
            assert forall|k: BorrowsEdgeKindView| #[trigger] self@.contains_key(k) == target.contains_key(k) by {
                if self@.contains_key(k) {
                    let j = choose|j: int| 0 <= j < keep@.len() && keep@[j] && (#[trigger] s0[j])@.kind == k;
                    lemma_distinct_lookup(s0, j);
                }
                if target.contains_key(k) {
                    let j = choose|j: int| 0 <= j < s0.len() && (#[trigger] s0[j])@.kind == k;
                    lemma_distinct_lookup(s0, j);
                    assert(keep@[j]);
                }
            }
            assert(self@ =~= target);
        }
    }

    /// Removes every abstraction edge at `location`.
    pub fn remove_abstraction_at(&mut self, location: Location)
        requires
            old(self).wf(),
        ensures
            final(self).wf(),
            final(self)@ == old(self)@.restrict(Set::new(|k: BorrowsEdgeKindView| old(self)@.contains_key(k) && !abstraction_at(k, location))),
    {
        let ghost s0 = self.edges@;
        let ghost g0 = self@;
        let mut keep: Vec<bool> = Vec::new();
        let mut i: usize = 0;
        while i < self.edges.len()
            invariant
                i <= s0.len(),
                self.edges@ == s0,
                keep@.len() == i,
                forall|j: int| 0 <= j < i ==> keep@[j] == !abstraction_at((#[trigger] s0[j])@.kind, location),
            decreases s0.len() - i,
        {
            let k = match &self.edges[i].kind {
                BorrowsEdgeKind::Abstraction(a) => a.location() != location,
                _ => true,
            };
            keep.push(k);
            i = i + 1;
        }
        self.retain_marked(&keep);
        proof {
            let target = g0.restrict(Set::new(|k: BorrowsEdgeKindView| g0.contains_key(k) && !abstraction_at(k, location)));
            assert forall|k: BorrowsEdgeKindView| #[trigger] self@.contains_key(k) == target.contains_key(k) by {
                if self@.contains_key(k) {
                    let j = choose|j: int| 0 <= j < keep@.len() && keep@[j] && (#[trigger] s0[j])@.kind == k;
                    lemma_distinct_lookup(s0, j);
                }
                if target.contains_key(k) {
                    let j = choose|j: int| 0 <= j < s0.len() && (#[trigger] s0[j])@.kind == k;
                    assert(keep@[j]);
                }
            }
            assert(self@ =~= target);
        }
    }

    /// Some reborrow was reserved at `location`.
    pub fn has_reborrow_at_location(&self, location: Location) -> (r: bool)
        requires
            self.wf(),
        ensures
            r == exists|k: BorrowsEdgeKindView| #[trigger] self@.contains_key(k) && reborrow_at(k, location),
    {
        let mut i: usize = 0;
        while i < self.edges.len()
            invariant
                i <= self.edges@.len(),
                forall|j: int| 0 <= j < i ==> !reborrow_at((#[trigger] self.edges@[j])@.kind, location),
            decreases self.edges@.len() - i,
        {
            match &self.edges[i].kind {
                BorrowsEdgeKind::Reborrow(rb) => {
                    if rb.reserve_location() == location {
                        proof {
                            assert(self@.contains_key(self.edges@[i as int]@.kind));
                        }
                        return true;
                    }
                },
                _ => {},
            }
            i = i + 1;
        }
        proof {
            assert forall|k: BorrowsEdgeKindView| #[trigger] self@.contains_key(k) implies !reborrow_at(k, location) by {
                let j = choose|j: int| 0 <= j < self.edges@.len() && (#[trigger] self.edges@[j])@.kind == k;
            }
        }
        false
    }
}

impl BorrowsGraph {
    /// Every edge of `other` is in `self`, with the same conditions.
    pub fn includes(&self, other: &BorrowsGraph) -> (r: bool)
        requires
            self.wf(),
            other.wf(),
        ensures
            r == forall|k: BorrowsEdgeKindView| #[trigger] other@.contains_key(k) ==> self@.contains_key(k) && self@[k] == other@[k],
    {
        let mut i: usize = 0;
        while i < other.edges.len()
            invariant
                i <= other.edges@.len(),
                self.wf(),
                other.wf(),
                forall|j: int| 0 <= j < i ==> self@.contains_key((#[trigger] other.edges@[j])@.kind) && self@[other.edges@[j]@.kind] == other.edges@[j]@.conditions,
            decreases other.edges@.len() - i,
        {
            proof {
                lemma_distinct_lookup(other.edges@, i as int);
            }
            let ghost k = other.edges@[i as int]@.kind;
            match self.find(&other.edges[i].kind) {
                Some(j) => {
                    if !self.edges[j].conditions.same_as(&other.edges[i].conditions) {
                        proof {
                            assert(other@.contains_key(k) && self@[k] != other@[k]);
                        }
                        return false;
                    }
                },
                None => {
                    proof {
                        assert(other@.contains_key(k) && !self@.contains_key(k));
                    }
                    return false;
                },
            }
            i = i + 1;
        }
        proof {
            assert forall|k: BorrowsEdgeKindView| #[trigger] other@.contains_key(k) implies self@.contains_key(k) && self@[k] == other@[k] by {
                let j = choose|j: int| 0 <= j < other.edges@.len() && (#[trigger] other.edges@[j])@.kind == k;
                lemma_distinct_lookup(other.edges@, j);
            }
        }
        true
    }

    /// The two graphs hold the same edges.
    pub fn same_as(&self, other: &BorrowsGraph) -> (r: bool)
        requires
            self.wf(),
            other.wf(),
        ensures
            r == (self@ == other@),
    {
        let a = self.includes(other);
        let b = other.includes(self);
        proof {
            if a && b {
                assert(self@ =~= other@);
            }
        }
        a && b
    }

    /// Joins the graph `other` of the predecessor `other_block` into this
    /// graph of `self_block`; returns whether this graph changed.
    pub fn join(&mut self, other: &BorrowsGraph, self_block: usize, other_block: usize) -> (changed: bool)
        requires
            old(self).wf(),
            other.wf(),
        ensures
            final(self).wf(),
            final(self)@ == joined_graph(old(self)@, other@, self_block, other_block),
            changed == (final(self)@ != old(self)@),
    {
        let before = self.clone();
        let ghost a = self@;
        let ghost b = other@;
        let ghost s0 = self.edges@;
        let pc_self = PathCondition { from: self_block, to: self_block };
        let pc_other = PathCondition { from: other_block, to: self_block };
        let mut i: usize = 0;
        while i < self.edges.len()
            invariant
                i <= s0.len(),
                other.wf(),
                b == other@,
                self.edges@.len() == s0.len(),
                distinct_kinds(s0),
                forall|j: int| 0 <= j < s0.len() ==> (#[trigger] self.edges@[j])@.kind == s0[j]@.kind,
                forall|j: int| 0 <= j < i ==> (#[trigger] self.edges@[j])@.conditions == if b.contains_key(s0[j]@.kind) {
                    s0[j]@.conditions
                } else {
                    s0[j]@.conditions.insert(pc_self)
                },
                forall|j: int| i <= j < s0.len() ==> (#[trigger] self.edges@[j])@.conditions == s0[j]@.conditions,
            decreases s0.len() - i,
        {
            if other.find(&self.edges[i].kind).is_none() {
                let mut e = self.edges[i].clone();
                e.insert_path_condition(pc_self);
                self.edges.set(i, e);
            }
            i = i + 1;
        }
        proof {
            assert forall|x: int, y: int| 0 <= x < self.edges@.len() && 0 <= y < self.edges@.len() && x != y implies
                (#[trigger] self.edges@[x])@.kind != (#[trigger] self.edges@[y])@.kind by {
                assert(s0[x]@.kind != s0[y]@.kind);
            }
        }
        let ghost g1 = self@;
        proof {
            assert forall|k: BorrowsEdgeKindView| #[trigger] g1.contains_key(k) == a.contains_key(k) by {
                if g1.contains_key(k) {
                    let j = choose|j: int| 0 <= j < self.edges@.len() && (#[trigger] self.edges@[j])@.kind == k;
                    assert(s0[j]@.kind == k);
                }
                if a.contains_key(k) {
                    let j = choose|j: int| 0 <= j < s0.len() && (#[trigger] s0[j])@.kind == k;
                    assert(self.edges@[j]@.kind == k);
                }
            }
            assert forall|k: BorrowsEdgeKindView| #[trigger] g1.contains_key(k) implies g1[k] == if b.contains_key(k) { a[k] } else { a[k].insert(pc_self) } by {
                let j = choose|j: int| 0 <= j < self.edges@.len() && (#[trigger] self.edges@[j])@.kind == k;
                lemma_distinct_lookup(self.edges@, j);
                lemma_distinct_lookup(s0, j);
            }
        }
        let ghost t0 = other.edges@;
        let mut j: usize = 0;
        while j < other.edges.len()
            invariant
                j <= t0.len(),
                other.edges@ == t0,
                pc_self == (PathCondition { from: self_block, to: self_block }),
                pc_other == (PathCondition { from: other_block, to: self_block }),
                distinct_kinds(t0),
                b == graph_map(t0),
                self.wf(),
                forall|k: BorrowsEdgeKindView| #[trigger] g1.contains_key(k) == a.contains_key(k),
                forall|k: BorrowsEdgeKindView| #[trigger] g1.contains_key(k) ==> g1[k] == if b.contains_key(k) { a[k] } else { a[k].insert(pc_self) },
                self@ == join_prefix(a, b, g1, t0, j as int, self_block, other_block),
            decreases t0.len() - j,
        {
            let ghost cur = self@;
            proof {
                lemma_distinct_lookup(t0, j as int);
            }
            let mut e = other.edges[j].clone();
            let fresh = self.find(&e.kind).is_none();
            if fresh {
                e.insert_path_condition(pc_other);
            }
            proof {
                assert(cur.contains_key(t0[j as int]@.kind) == a.contains_key(t0[j as int]@.kind)) by {
                    if exists|t: int| 0 <= t < j && (#[trigger] t0[t])@.kind == t0[j as int]@.kind {
                        let t = choose|t: int| 0 <= t < j && (#[trigger] t0[t])@.kind == t0[j as int]@.kind;
                        assert(t0[t]@.kind != t0[j as int]@.kind);
                    }
                }
            }
            self.insert(e);
            proof {
                lemma_join_step(a, b, g1, t0, j as int, self_block, other_block, cur, self@);
            }
            j = j + 1;
        }
        proof {
            let target = joined_graph(a, b, self_block, other_block);
            assert(self@ == join_prefix(a, b, g1, t0, j as int, self_block, other_block));
            assert forall|k2: BorrowsEdgeKindView| #[trigger] self@.contains_key(k2) == target.contains_key(k2) by {
                if b.contains_key(k2) {
                    let t = choose|t: int| 0 <= t < t0.len() && (#[trigger] t0[t])@.kind == k2;
                }
            }
            assert forall|k2: BorrowsEdgeKindView| #[trigger] self@.contains_key(k2) implies self@[k2] == target[k2] by {
                if !(exists|t: int| 0 <= t < j && (#[trigger] t0[t])@.kind == k2) {
                    assert(!b.contains_key(k2));
                    assert(a.contains_key(k2));
                    assert(g1.contains_key(k2));
                    assert(self@[k2] == g1[k2]);
                } else {
                    assert(self@[k2] == target[k2]);
                }
            }
            assert(self@ =~= target);
        }
        let same = self.same_as(&before);
        !same
    }
}

/// The children of `base` to materialise when the step `e` is taken from it.
pub fn sibling_elems_of(base: &Place, e: ProjElem, repacker: &PlaceRepacker) -> (r: Vec<ProjElem>)
    ensures
        r@ == sibling_elems(repacker, base@, e),
{
    if let ProjElem::Field(_) = e {
        if let Some(t) = base.ty(repacker) {
            if t < repacker.tys.len() {
                if let crate::ty::TyKind::Adt { def } = repacker.tys[t] {
                    if def < repacker.adts.len() {
                        let n = repacker.adts[def].fields.len();
                        let mut out: Vec<ProjElem> = Vec::new();
                        let mut i: usize = 0;
                        while i < n
                            invariant
                                i <= n,
                                out@.len() == i,
                                forall|j: int| 0 <= j < i ==> out@[j] == ProjElem::Field(j as usize),
                            decreases n - i,
                        {
                            out.push(ProjElem::Field(i));
                            i = i + 1;
                        }
                        proof {
                            assert(out@ =~= sibling_elems(repacker, base@, e));
                        }
                        return out;
                    }
                }
            }
        }
    }
    vec![e]
}

impl BorrowsGraph {
    /// Some edge blocks by `place`.
    pub fn is_blocked_by_any(&self, place: &MaybeOldPlace, repacker: &PlaceRepacker) -> (r: bool)
        requires
            self.wf(),
        ensures
            r == graph_blocked_by(self@, place@),
    {
        let mut i: usize = 0;
        while i < self.edges.len()
            invariant
                i <= self.edges@.len(),
                forall|j: int| 0 <= j < i ==> !(#[trigger] self.edges@[j])@.kind.blocked_by_places().contains(place@),
            decreases self.edges@.len() - i,
        {
            if self.edges[i].is_blocked_by_place(place, repacker) {
                proof {
                    assert(self@.contains_key(self.edges@[i as int]@.kind));
                }
                return true;
            }
            i = i + 1;
        }
        proof {
            if graph_blocked_by(self@, place@) {
                let k = choose|k: BorrowsEdgeKindView| self@.contains_key(k) && #[trigger] k.blocked_by_places().contains(place@);
                let j = choose|j: int| 0 <= j < self.edges@.len() && (#[trigger] self.edges@[j])@.kind == k;
            }
        }
        false
    }

    /// The edges none of whose blocking places is blocked by another edge.
    pub fn leaf_edges(&self, repacker: &PlaceRepacker) -> (r: Vec<BorrowsEdge>)
        requires
            self.wf(),
        ensures
            forall|i: int| 0 <= i < r@.len() ==> self@.contains_key((#[trigger] r@[i])@.kind)
                && self@[r@[i]@.kind] == r@[i]@.conditions && is_leaf(self@, r@[i]@.kind),
            forall|k: BorrowsEdgeKindView| #[trigger] self@.contains_key(k) && is_leaf(self@, k)
                ==> exists|i: int| 0 <= i < r@.len() && (#[trigger] r@[i])@.kind == k,
    {
        let mut out: Vec<BorrowsEdge> = Vec::new();
        let mut i: usize = 0;
        while i < self.edges.len()
            invariant
                i <= self.edges@.len(),
                self.wf(),
                forall|j: int| 0 <= j < out@.len() ==> self@.contains_key((#[trigger] out@[j])@.kind)
                    && self@[out@[j]@.kind] == out@[j]@.conditions && is_leaf(self@, out@[j]@.kind),
                forall|j: int| 0 <= j < i && is_leaf(self@, (#[trigger] self.edges@[j])@.kind)
                    ==> exists|a: int| 0 <= a < out@.len() && (#[trigger] out@[a])@.kind == self.edges@[j]@.kind,
            decreases self.edges@.len() - i,
        {
            let blockers = self.edges[i].blocked_by_places(repacker);
            let mut leaf = true;
            let mut b: usize = 0;
            while b < blockers.len()
                invariant
                    b <= blockers@.len(),
                    self.wf(),
                    leaf == forall|x: int| 0 <= x < b ==> !graph_blocks(self@, MaybeRemotePlaceView::Local((#[trigger] blockers@[x])@)),
                decreases blockers@.len() - b,
            {
                if self.has_edge_blocking(&MaybeRemotePlace::Local(blockers[b].clone())) {
                    leaf = false;
                }
                b = b + 1;
            }
            let ghost prev = out@;
            proof {
                lemma_distinct_lookup(self.edges@, i as int);
                let k = self.edges@[i as int]@.kind;
                if leaf {
                    assert forall|p: MaybeOldPlaceView| #[trigger] k.blocked_by_places().contains(p) implies !graph_blocks(self@, MaybeRemotePlaceView::Local(p)) by {
                        assert(view_set(blockers@).contains(p));
                        let x = choose|x: int| 0 <= x < blockers@.len() && blockers@[x]@ == p;
                    }
                } else {
                    let x = choose|x: int| 0 <= x < b && graph_blocks(self@, MaybeRemotePlaceView::Local((#[trigger] blockers@[x])@));
                    assert(k.blocked_by_places().contains(blockers@[x]@));
                }
            }
            if leaf {
                out.push(self.edges[i].clone());
            }
            proof {
                assert forall|j: int| 0 <= j < i + 1 && is_leaf(self@, (#[trigger] self.edges@[j])@.kind)
                    implies exists|a: int| 0 <= a < out@.len() && (#[trigger] out@[a])@.kind == self.edges@[j]@.kind by {
                    if j < i {
                        let a = choose|a: int| 0 <= a < prev.len() && (#[trigger] prev[a])@.kind == self.edges@[j]@.kind;
                        assert(out@[a] == prev[a]);
                    } else {
                        assert(out@[out@.len() - 1]@.kind == self.edges@[i as int]@.kind);
                    }
                }
            }
            i = i + 1;
        }
        proof {
            assert forall|k: BorrowsEdgeKindView| #[trigger] self@.contains_key(k) && is_leaf(self@, k)
                implies exists|a: int| 0 <= a < out@.len() && (#[trigger] out@[a])@.kind == k by {
                let j = choose|j: int| 0 <= j < self.edges@.len() && (#[trigger] self.edges@[j])@.kind == k;
            }
        }
        out
    }

    /// The places that some edge blocks and that block nothing themselves.
    pub fn roots(&self, repacker: &PlaceRepacker) -> (r: Vec<MaybeRemotePlace>)
        requires
            self.wf(),
        ensures
            view_set(r@) == roots_of(self@),
    {
        let mut out: Vec<MaybeRemotePlace> = Vec::new();
        let mut i: usize = 0;
        proof {
            assert(view_set(out@) =~= roots_of(self@).intersect(blocked_upto(self.edges@, 0)));
        }
        while i < self.edges.len()
            invariant
                i <= self.edges@.len(),
                self.wf(),
                view_set(out@) == roots_of(self@).intersect(blocked_upto(self.edges@, i as int)),
            decreases self.edges@.len() - i,
        {
            let blocked = self.edges[i].blocked_places();
            let ghost before = out@;
            let mut b: usize = 0;
            proof {
                assert(blocked@.take(0) =~= Seq::<MaybeRemotePlace>::empty());
                assert(view_set(blocked@.take(0)) =~= Set::<MaybeRemotePlaceView>::empty());
                assert(view_set(out@) =~= view_set(before).union(roots_of(self@).intersect(view_set(blocked@.take(0)))));
            }
            while b < blocked.len()
                invariant
                    b <= blocked@.len(),
                    i < self.edges@.len(),
                    self.wf(),
                    view_set(blocked@) == self.edges@[i as int]@.kind.blocked_places(),
                    view_set(out@) == view_set(before).union(roots_of(self@).intersect(view_set(blocked@.take(b as int)))),
                decreases blocked@.len() - b,
            {
                let p = blocked[b].clone();
                let is_root = match &p {
                    MaybeRemotePlace::Local(q) => !self.is_blocked_by_any(q, repacker),
                    MaybeRemotePlace::Remote(_) => true,
                };
                let ghost prev = out@;
                proof {
                    assert(blocked@[b as int]@ == p@);
                    assert(view_set(blocked@).contains(p@));
                    lemma_distinct_lookup(self.edges@, i as int);
                    assert(graph_blocks(self@, p@));
                    assert(is_root == roots_of(self@).contains(p@));
                    assert(blocked@.take(b + 1) =~= blocked@.take(b as int).push(blocked@[b as int]));
                    lemma_view_set_push(blocked@.take(b as int), blocked@[b as int]);
                }
                if is_root {
                    out.push(p);
                    proof {
                        lemma_view_set_push(prev, out@.last());
                        assert(prev.push(out@.last()) =~= out@);
                    }
                }
                proof {
                    assert(view_set(out@) =~= view_set(before).union(roots_of(self@).intersect(view_set(blocked@.take(b + 1)))));
                }
                b = b + 1;
            }
            proof {
                assert(blocked@.take(b as int) =~= blocked@);
                assert(blocked_upto(self.edges@, i + 1) =~= blocked_upto(self.edges@, i as int).union(self.edges@[i as int]@.kind.blocked_places())) by {
                    assert forall|x: MaybeRemotePlaceView| #[trigger] blocked_upto(self.edges@, i + 1).contains(x) implies
                        blocked_upto(self.edges@, i as int).contains(x) || self.edges@[i as int]@.kind.blocked_places().contains(x) by {
                        let j = choose|j: int| 0 <= j < i + 1 && (#[trigger] self.edges@[j])@.kind.blocked_places().contains(x);
                    }
                }
                assert(view_set(out@) =~= roots_of(self@).intersect(blocked_upto(self.edges@, i + 1)));
            }
            i = i + 1;
        }
        proof {
            assert(view_set(out@) =~= roots_of(self@)) by {
                assert forall|x: MaybeRemotePlaceView| #[trigger] roots_of(self@).contains(x) implies blocked_upto(self.edges@, i as int).contains(x) by {
                    let k = choose|k: BorrowsEdgeKindView| self@.contains_key(k) && #[trigger] k.blocked_places().contains(x);
                    let j = choose|j: int| 0 <= j < self.edges@.len() && (#[trigger] self.edges@[j])@.kind == k;
                    assert(self.edges@[j]@.kind.blocked_places().contains(x));
                }
            }
        }
        out
    }

    /// The graph holds a deref expansion of `base`.
    pub fn has_expansion_of(&self, base: &MaybeOldPlace) -> (r: bool)
        requires
            self.wf(),
        ensures
            r == has_expansion_of(self@, base@),
    {
        let mut i: usize = 0;
        while i < self.edges.len()
            invariant
                i <= self.edges@.len(),
                forall|j: int| 0 <= j < i ==> !((#[trigger] self.edges@[j])@.kind matches BorrowsEdgeKindView::DerefExpansion(d) && d.base() == base@),
            decreases self.edges@.len() - i,
        {
            if let BorrowsEdgeKind::DerefExpansion(d) = &self.edges[i].kind {
                if d.base_ref() == base {
                    proof {
                        assert(self@.contains_key(self.edges@[i as int]@.kind));
                    }
                    return true;
                }
            }
            i = i + 1;
        }
        proof {
            if has_expansion_of(self@, base@) {
                let k = choose|k: BorrowsEdgeKindView| #[trigger] self@.contains_key(k) && (k matches BorrowsEdgeKindView::DerefExpansion(d) && d.base() == base@);
                let j = choose|j: int| 0 <= j < self.edges@.len() && (#[trigger] self.edges@[j])@.kind == k;
            }
        }
        false
    }

    /// Inserts the deref expansions that `place` needs below each prefix that
    /// is not yet expanded; the new edges hold no conditions.
    pub fn ensure_deref_expansion_to_at_least(&mut self, place: &Place, repacker: &PlaceRepacker, location: Location) -> (changed: bool)
        requires
            old(self).wf(),
        ensures
            final(self).wf(),
            expanded_to(old(self)@, final(self)@, repacker, place@, location),
            changed == (final(self)@ != old(self)@),
    {
        let ghost g0 = self@;
        let mut changed = false;
        let mut n: usize = 0;
        while n < place.projection.len()
            invariant
                n <= place@.projection.len(),
                self.wf(),
                forall|k: BorrowsEdgeKindView| #[trigger] g0.contains_key(k) ==> self@.contains_key(k) && self@[k] == g0[k],
                forall|k: BorrowsEdgeKindView| #[trigger] self@.contains_key(k) && !g0.contains_key(k)
                    ==> self@[k] == Set::<PathCondition>::empty() && exists|m: int| needs_expansion(repacker, place@, m) && k == #[trigger] expansion_for(repacker, place@, m, location),
                forall|m: int| 0 <= m < n && #[trigger] needs_expansion(repacker, place@, m) ==> has_expansion_of(self@, MaybeOldPlaceView::Current(place@.take(m))),
                !changed ==> self@ == g0,
                changed ==> exists|m: int| 0 <= m < n && #[trigger] needs_expansion(repacker, place@, m) && !has_expansion_of(g0, MaybeOldPlaceView::Current(place@.take(m))),
                changed == (self@ != g0),
            decreases place@.projection.len() - n,
        {
            let base = place.prefix_of_len(n);
            let child = place.prefix_of_len(n + 1);
            let needed = !child.is_owned(repacker);
            let base_place = MaybeOldPlace::Current { place: base.clone() };
            proof {
                assert(child@ == place@.take(n + 1));
                assert(needed == needs_expansion(repacker, place@, n as int));
            }
            if needed && !self.has_expansion_of(&base_place) {
                let e = place.projection[n];
                let kind = if base.is_owned(repacker) {
                    DerefExpansion::OwnedExpansion { base: base_place }
                } else {
                    let elems = sibling_elems_of(&base, e, repacker);
                    DerefExpansion::BorrowExpansion(crate::deref_expansion::BorrowDerefExpansion { base: base_place, expansion: elems, location })
                };
                let edge = BorrowsEdge::new(BorrowsEdgeKind::DerefExpansion(kind), PathConditions::new());
                let ghost cur = self@;
                proof {
                    assert(edge@.kind == expansion_for(repacker, place@, n as int, location));
                    assert(!cur.contains_key(edge@.kind));
                    assert(!has_expansion_of(g0, MaybeOldPlaceView::Current(place@.take(n as int)))) by {
                        if has_expansion_of(g0, MaybeOldPlaceView::Current(place@.take(n as int))) {
                            let k = choose|k: BorrowsEdgeKindView| #[trigger] g0.contains_key(k) && (k matches BorrowsEdgeKindView::DerefExpansion(d) && d.base() == MaybeOldPlaceView::Current(place@.take(n as int)));
                            assert(cur.contains_key(k));
                        }
                    }
                }
                self.insert(edge);
                changed = true;
                proof {
                    let k = expansion_for(repacker, place@, n as int, location);
                    assert(self@.contains_key(k));
                    assert(has_expansion_of(self@, MaybeOldPlaceView::Current(place@.take(n as int))));
                    assert forall|m: int| 0 <= m < n + 1 && #[trigger] needs_expansion(repacker, place@, m) implies has_expansion_of(self@, MaybeOldPlaceView::Current(place@.take(m))) by {
                        if m < n {
                            let k2 = choose|k2: BorrowsEdgeKindView| #[trigger] cur.contains_key(k2) && (k2 matches BorrowsEdgeKindView::DerefExpansion(d) && d.base() == MaybeOldPlaceView::Current(place@.take(m)));
                            assert(self@.contains_key(k2));
                        }
                    }
                    assert(!g0.contains_key(k));
                    assert(self@ != g0);
                }
            } else {
                proof {
                    assert forall|m: int| 0 <= m < n + 1 && #[trigger] needs_expansion(repacker, place@, m) implies has_expansion_of(self@, MaybeOldPlaceView::Current(place@.take(m))) by {}
                }
            }
            n = n + 1;
        }
        proof {
            if forall|m: int| #[trigger] needs_expansion(repacker, place@, m) ==> has_expansion_of(g0, MaybeOldPlaceView::Current(place@.take(m))) {
                assert(!changed);
            }
        }
        changed
    }
}

impl BorrowsGraph {
    /// The reborrow edges with their conditions.
    pub fn reborrows(&self) -> (r: Vec<Conditioned<Reborrow>>)
        requires
            self.wf(),
        ensures
            forall|i: int| 0 <= i < r@.len() ==> self@.contains_key(BorrowsEdgeKindView::Reborrow((#[trigger] r@[i]).value@))
                && self@[BorrowsEdgeKindView::Reborrow(r@[i].value@)] == r@[i].conditions@,
            forall|k: BorrowsEdgeKindView| #[trigger] self@.contains_key(k) && k is Reborrow
                ==> exists|i: int| 0 <= i < r@.len() && BorrowsEdgeKindView::Reborrow((#[trigger] r@[i]).value@) == k,
            forall|i: int, j: int| 0 <= i < j < r@.len() ==> (#[trigger] r@[i]).value@ != (#[trigger] r@[j]).value@,
    {
        let mut out: Vec<Conditioned<Reborrow>> = Vec::new();
        let mut i: usize = 0;
        while i < self.edges.len()
            invariant
                i <= self.edges@.len(),
                self.wf(),
                forall|j: int| 0 <= j < out@.len() ==> self@.contains_key(BorrowsEdgeKindView::Reborrow((#[trigger] out@[j]).value@))
                    && self@[BorrowsEdgeKindView::Reborrow(out@[j].value@)] == out@[j].conditions@,
                forall|j: int| 0 <= j < i && (#[trigger] self.edges@[j])@.kind is Reborrow
                    ==> exists|a: int| 0 <= a < out@.len() && BorrowsEdgeKindView::Reborrow((#[trigger] out@[a]).value@) == self.edges@[j]@.kind,
                forall|a: int| 0 <= a < out@.len() ==> exists|j: int| 0 <= j < i && (#[trigger] self.edges@[j])@.kind == BorrowsEdgeKindView::Reborrow((#[trigger] out@[a]).value@),
                forall|a: int, b: int| 0 <= a < b < out@.len() ==> (#[trigger] out@[a]).value@ != (#[trigger] out@[b]).value@,
            decreases self.edges@.len() - i,
        {
            let ghost prev = out@;
            proof {
                lemma_distinct_lookup(self.edges@, i as int);
            }
            if let BorrowsEdgeKind::Reborrow(v) = &self.edges[i].kind {
                proof {
                    assert forall|a: int| 0 <= a < prev.len() implies (#[trigger] prev[a]).value@ != v@ by {
                        let j = choose|j: int| 0 <= j < i && (#[trigger] self.edges@[j])@.kind == BorrowsEdgeKindView::Reborrow(prev[a].value@);
                        assert(self.edges@[j]@.kind != self.edges@[i as int]@.kind);
                    }
                }
                out.push(Conditioned { conditions: self.edges[i].conditions.clone(), value: v.clone() });
            }
            proof {
                assert forall|a: int| 0 <= a < out@.len() implies exists|j: int| 0 <= j < i + 1 && (#[trigger] self.edges@[j])@.kind == BorrowsEdgeKindView::Reborrow((#[trigger] out@[a]).value@) by {
                    if a < prev.len() {
                        assert(out@[a] == prev[a]);
                        let j = choose|j: int| 0 <= j < i && (#[trigger] self.edges@[j])@.kind == BorrowsEdgeKindView::Reborrow(prev[a].value@);
                    } else {
                        assert(self.edges@[i as int]@.kind == BorrowsEdgeKindView::Reborrow(out@[a].value@));
                    }
                }
            }
            proof {
                assert forall|j: int| 0 <= j < i + 1 && (#[trigger] self.edges@[j])@.kind is Reborrow
                    implies exists|a: int| 0 <= a < out@.len() && BorrowsEdgeKindView::Reborrow((#[trigger] out@[a]).value@) == self.edges@[j]@.kind by {
                    if j < i {
                        let a = choose|a: int| 0 <= a < prev.len() && BorrowsEdgeKindView::Reborrow((#[trigger] prev[a]).value@) == self.edges@[j]@.kind;
                        assert(out@[a] == prev[a]);
                    } else {
                        assert(BorrowsEdgeKindView::Reborrow(out@[out@.len() - 1].value@) == self.edges@[j]@.kind);
                    }
                }
            }
            i = i + 1;
        }
        proof {
            assert forall|k: BorrowsEdgeKindView| #[trigger] self@.contains_key(k) && k is Reborrow
                implies exists|a: int| 0 <= a < out@.len() && BorrowsEdgeKindView::Reborrow((#[trigger] out@[a]).value@) == k by {
                let j = choose|j: int| 0 <= j < self.edges@.len() && (#[trigger] self.edges@[j])@.kind == k;
            }
        }
        out
    }

    /// The deref expansion edges with their conditions.
    pub fn deref_expansions(&self) -> (r: Vec<Conditioned<DerefExpansion>>)
        requires
            self.wf(),
        ensures
            forall|i: int| 0 <= i < r@.len() ==> self@.contains_key(BorrowsEdgeKindView::DerefExpansion((#[trigger] r@[i]).value@))
                && self@[BorrowsEdgeKindView::DerefExpansion(r@[i].value@)] == r@[i].conditions@,
            forall|k: BorrowsEdgeKindView| #[trigger] self@.contains_key(k) && k is DerefExpansion
                ==> exists|i: int| 0 <= i < r@.len() && BorrowsEdgeKindView::DerefExpansion((#[trigger] r@[i]).value@) == k,
            forall|i: int, j: int| 0 <= i < j < r@.len() ==> (#[trigger] r@[i]).value@ != (#[trigger] r@[j]).value@,
    {
        let mut out: Vec<Conditioned<DerefExpansion>> = Vec::new();
        let mut i: usize = 0;
        while i < self.edges.len()
            invariant
                i <= self.edges@.len(),
                self.wf(),
                forall|j: int| 0 <= j < out@.len() ==> self@.contains_key(BorrowsEdgeKindView::DerefExpansion((#[trigger] out@[j]).value@))
                    && self@[BorrowsEdgeKindView::DerefExpansion(out@[j].value@)] == out@[j].conditions@,
                forall|j: int| 0 <= j < i && (#[trigger] self.edges@[j])@.kind is DerefExpansion
                    ==> exists|a: int| 0 <= a < out@.len() && BorrowsEdgeKindView::DerefExpansion((#[trigger] out@[a]).value@) == self.edges@[j]@.kind,
                forall|a: int| 0 <= a < out@.len() ==> exists|j: int| 0 <= j < i && (#[trigger] self.edges@[j])@.kind == BorrowsEdgeKindView::DerefExpansion((#[trigger] out@[a]).value@),
                forall|a: int, b: int| 0 <= a < b < out@.len() ==> (#[trigger] out@[a]).value@ != (#[trigger] out@[b]).value@,
            decreases self.edges@.len() - i,
        {
            let ghost prev = out@;
            proof {
                lemma_distinct_lookup(self.edges@, i as int);
            }
            if let BorrowsEdgeKind::DerefExpansion(v) = &self.edges[i].kind {
                proof {
                    assert forall|a: int| 0 <= a < prev.len() implies (#[trigger] prev[a]).value@ != v@ by {
                        let j = choose|j: int| 0 <= j < i && (#[trigger] self.edges@[j])@.kind == BorrowsEdgeKindView::DerefExpansion(prev[a].value@);
                        assert(self.edges@[j]@.kind != self.edges@[i as int]@.kind);
                    }
                }
                out.push(Conditioned { conditions: self.edges[i].conditions.clone(), value: v.clone() });
            }
            proof {
                assert forall|a: int| 0 <= a < out@.len() implies exists|j: int| 0 <= j < i + 1 && (#[trigger] self.edges@[j])@.kind == BorrowsEdgeKindView::DerefExpansion((#[trigger] out@[a]).value@) by {
                    if a < prev.len() {
                        assert(out@[a] == prev[a]);
                        let j = choose|j: int| 0 <= j < i && (#[trigger] self.edges@[j])@.kind == BorrowsEdgeKindView::DerefExpansion(prev[a].value@);
                    } else {
                        assert(self.edges@[i as int]@.kind == BorrowsEdgeKindView::DerefExpansion(out@[a].value@));
                    }
                }
            }
            proof {
                assert forall|j: int| 0 <= j < i + 1 && (#[trigger] self.edges@[j])@.kind is DerefExpansion
                    implies exists|a: int| 0 <= a < out@.len() && BorrowsEdgeKindView::DerefExpansion((#[trigger] out@[a]).value@) == self.edges@[j]@.kind by {
                    if j < i {
                        let a = choose|a: int| 0 <= a < prev.len() && BorrowsEdgeKindView::DerefExpansion((#[trigger] prev[a]).value@) == self.edges@[j]@.kind;
                        assert(out@[a] == prev[a]);
                    } else {
                        assert(BorrowsEdgeKindView::DerefExpansion(out@[out@.len() - 1].value@) == self.edges@[j]@.kind);
                    }
                }
            }
            i = i + 1;
        }
        proof {
            assert forall|k: BorrowsEdgeKindView| #[trigger] self@.contains_key(k) && k is DerefExpansion
                implies exists|a: int| 0 <= a < out@.len() && BorrowsEdgeKindView::DerefExpansion((#[trigger] out@[a]).value@) == k by {
                let j = choose|j: int| 0 <= j < self.edges@.len() && (#[trigger] self.edges@[j])@.kind == k;
            }
        }
        out
    }

    /// The abstraction edges with their conditions.
    pub fn abstraction_edges(&self) -> (r: Vec<Conditioned<AbstractionEdge>>)
        requires
            self.wf(),
        ensures
            forall|i: int| 0 <= i < r@.len() ==> self@.contains_key(BorrowsEdgeKindView::Abstraction((#[trigger] r@[i]).value@))
                && self@[BorrowsEdgeKindView::Abstraction(r@[i].value@)] == r@[i].conditions@,
            forall|k: BorrowsEdgeKindView| #[trigger] self@.contains_key(k) && k is Abstraction
                ==> exists|i: int| 0 <= i < r@.len() && BorrowsEdgeKindView::Abstraction((#[trigger] r@[i]).value@) == k,
            forall|i: int, j: int| 0 <= i < j < r@.len() ==> (#[trigger] r@[i]).value@ != (#[trigger] r@[j]).value@,
    {
        let mut out: Vec<Conditioned<AbstractionEdge>> = Vec::new();
        let mut i: usize = 0;
        while i < self.edges.len()
            invariant
                i <= self.edges@.len(),
                self.wf(),
                forall|j: int| 0 <= j < out@.len() ==> self@.contains_key(BorrowsEdgeKindView::Abstraction((#[trigger] out@[j]).value@))
                    && self@[BorrowsEdgeKindView::Abstraction(out@[j].value@)] == out@[j].conditions@,
                forall|j: int| 0 <= j < i && (#[trigger] self.edges@[j])@.kind is Abstraction
                    ==> exists|a: int| 0 <= a < out@.len() && BorrowsEdgeKindView::Abstraction((#[trigger] out@[a]).value@) == self.edges@[j]@.kind,
                forall|a: int| 0 <= a < out@.len() ==> exists|j: int| 0 <= j < i && (#[trigger] self.edges@[j])@.kind == BorrowsEdgeKindView::Abstraction((#[trigger] out@[a]).value@),
                forall|a: int, b: int| 0 <= a < b < out@.len() ==> (#[trigger] out@[a]).value@ != (#[trigger] out@[b]).value@,
            decreases self.edges@.len() - i,
        {
            let ghost prev = out@;
            proof {
                lemma_distinct_lookup(self.edges@, i as int);
            }
            if let BorrowsEdgeKind::Abstraction(v) = &self.edges[i].kind {
                proof {
                    assert forall|a: int| 0 <= a < prev.len() implies (#[trigger] prev[a]).value@ != v@ by {
                        let j = choose|j: int| 0 <= j < i && (#[trigger] self.edges@[j])@.kind == BorrowsEdgeKindView::Abstraction(prev[a].value@);
                        assert(self.edges@[j]@.kind != self.edges@[i as int]@.kind);
                    }
                }
                out.push(Conditioned { conditions: self.edges[i].conditions.clone(), value: v.clone() });
            }
            proof {
                assert forall|a: int| 0 <= a < out@.len() implies exists|j: int| 0 <= j < i + 1 && (#[trigger] self.edges@[j])@.kind == BorrowsEdgeKindView::Abstraction((#[trigger] out@[a]).value@) by {
                    if a < prev.len() {
                        assert(out@[a] == prev[a]);
                        let j = choose|j: int| 0 <= j < i && (#[trigger] self.edges@[j])@.kind == BorrowsEdgeKindView::Abstraction(prev[a].value@);
                    } else {
                        assert(self.edges@[i as int]@.kind == BorrowsEdgeKindView::Abstraction(out@[a].value@));
                    }
                }
            }
            proof {
                assert forall|j: int| 0 <= j < i + 1 && (#[trigger] self.edges@[j])@.kind is Abstraction
                    implies exists|a: int| 0 <= a < out@.len() && BorrowsEdgeKindView::Abstraction((#[trigger] out@[a]).value@) == self.edges@[j]@.kind by {
                    if j < i {
                        let a = choose|a: int| 0 <= a < prev.len() && BorrowsEdgeKindView::Abstraction((#[trigger] prev[a]).value@) == self.edges@[j]@.kind;
                        assert(out@[a] == prev[a]);
                    } else {
                        assert(BorrowsEdgeKindView::Abstraction(out@[out@.len() - 1].value@) == self.edges@[j]@.kind);
                    }
                }
            }
            i = i + 1;
        }
        proof {
            assert forall|k: BorrowsEdgeKindView| #[trigger] self@.contains_key(k) && k is Abstraction
                implies exists|a: int| 0 <= a < out@.len() && BorrowsEdgeKindView::Abstraction((#[trigger] out@[a]).value@) == k by {
                let j = choose|j: int| 0 <= j < self.edges@.len() && (#[trigger] self.edges@[j])@.kind == k;
            }
        }
        out
    }
}

impl BorrowsGraph {
    /// The graph holds exactly `edge`: its kind, with its conditions.
    pub fn contains_edge(&self, edge: &BorrowsEdge) -> (r: bool)
        requires
            self.wf(),
        ensures
            r == (self@.contains_key(edge@.kind) && self@[edge@.kind] == edge@.conditions),
    {
        match self.find(&edge.kind) {
            Some(i) => self.edges[i].conditions.same_as(&edge.conditions),
            None => false,
        }
    }
}

/// Every prefix of `p` that needs an expansion has one in `g`.
pub open spec fn expansions_cover(g: Map<BorrowsEdgeKindView, Set<PathCondition>>, r: &PlaceRepacker, p: PlaceView) -> bool {
    forall|n: int| #[trigger] needs_expansion(r, p, n) ==> has_expansion_of(g, MaybeOldPlaceView::Current(p.take(n)))
}

pub proof fn lemma_cover_kept(a: Map<BorrowsEdgeKindView, Set<PathCondition>>, b: Map<BorrowsEdgeKindView, Set<PathCondition>>, r: &PlaceRepacker, p: PlaceView)
    requires
        expansions_cover(a, r, p),
        forall|k: BorrowsEdgeKindView| #[trigger] a.contains_key(k) ==> b.contains_key(k),
    ensures
        expansions_cover(b, r, p),
{
    assert forall|n: int| #[trigger] needs_expansion(r, p, n) implies has_expansion_of(b, MaybeOldPlaceView::Current(p.take(n))) by {
        let k = choose|k: BorrowsEdgeKindView| #[trigger] a.contains_key(k) && (k matches BorrowsEdgeKindView::DerefExpansion(d) && d.base() == MaybeOldPlaceView::Current(p.take(n)));
        assert(b.contains_key(k));
    }
}

/// A list of distinct values, each the image under `f` of a kind of the
/// graph, is no longer than the graph.
pub proof fn lemma_image_bounded<T>(g: &BorrowsGraph, f: spec_fn(BorrowsEdgeKindView) -> T, s: Seq<T>)
    requires
        g.wf(),
        s.no_duplicates(),
        forall|i: int| #![trigger s[i]] 0 <= i < s.len() ==> exists|k: BorrowsEdgeKindView| #[trigger] g@.contains_key(k) && f(k) == s[i],
    ensures
        s.len() <= g.size(),
{
    let e = g.edges@.map_values(|x: BorrowsEdge| f(x@.kind));
    assert forall|x: T| s.to_set().contains(x) implies e.to_set().contains(x) by {
        let i = choose|i: int| 0 <= i < s.len() && s[i] == x;
        let k = choose|k: BorrowsEdgeKindView| #[trigger] g@.contains_key(k) && f(k) == s[i];
        let j = choose|j: int| 0 <= j < g.edges@.len() && (#[trigger] g.edges@[j])@.kind == k;
        assert(e[j] == x);
    }
    s.unique_seq_to_set();
    e.lemma_cardinality_of_set();
    vstd::seq_lib::seq_to_set_is_finite(e);
    vstd::set_lib::lemma_len_subset(s.to_set(), e.to_set());
}

} // verus!
