//! The type oracle: the types of the body's locals, as a table in which a
//! type refers to its components by index.
use vstd::prelude::*;
use crate::ir::{Mutability, ProjElem, RegionKind};

verus! {

#[derive(Clone, Copy, Debug, PartialEq, Eq, Hash, Structural)]
pub enum TyKind {
    /// A reference with its region and mutability, to the type `pointee`.
    Ref { region: RegionKind, mutability: Mutability, pointee: usize },
    /// An owning pointer to the type `inner`.
    Boxed { inner: usize },
    /// A struct or enum, described by the entry `def` of the ADT table.
    Adt { def: usize },
    /// A slice or array of `elem`.
    Slice { elem: usize },
    Scalar,
}

/// A struct or enum: its lifetime arguments in order, and the types of its fields.
pub struct AdtDef {
    pub regions: Vec<RegionKind>,
    pub fields: Vec<usize>,
}

/// Answers the type questions of the analysis: the type of each local, and
/// what a projection step leads to.
pub struct PlaceRepacker {
    pub tys: Vec<TyKind>,
    pub adts: Vec<AdtDef>,
    pub locals: Vec<usize>,
}

/// The type that one projection step from a value of type `t` leads to.
pub open spec fn child_ty(r: &PlaceRepacker, t: usize, e: ProjElem) -> Option<usize> {
    if t >= r.tys@.len() {
        None
    } else {
        match (r.tys@[t as int], e) {
            (TyKind::Ref { pointee, .. }, ProjElem::Deref) => Some(pointee),
            (TyKind::Boxed { inner }, ProjElem::Deref) => Some(inner),
            (TyKind::Adt { def }, ProjElem::Field(f)) => {
                if def < r.adts@.len() && f < r.adts@[def as int].fields@.len() {
                    Some(r.adts@[def as int].fields@[f as int])
                } else {
                    None
                }
            },
            (TyKind::Adt { .. }, ProjElem::Downcast(_)) => Some(t),
            (TyKind::Slice { elem }, ProjElem::Index(_)) => Some(elem),
            (TyKind::Slice { elem }, ProjElem::ConstantIndex { .. }) => Some(elem),
            (TyKind::Slice { .. }, ProjElem::Subslice { .. }) => Some(t),
            (_, ProjElem::OpaqueCast) => Some(t),
            _ => None,
        }
    }
}

/// The type of `local` projected by `proj`, if the projection is well typed.
pub open spec fn ty_of(r: &PlaceRepacker, local: u32, proj: Seq<ProjElem>) -> Option<usize>
    decreases proj.len(),
{
    if proj.len() == 0 {
        if local < r.locals@.len() {
            Some(r.locals@[local as int])
        } else {
            None
        }
    } else {
        match ty_of(r, local, proj.drop_last()) {
            Some(t) => child_ty(r, t, proj.last()),
            None => None,
        }
    }
}

pub open spec fn is_ref_ty(r: &PlaceRepacker, t: Option<usize>) -> bool {
    match t {
        Some(t) => t < r.tys@.len() && r.tys@[t as int] is Ref,
        None => false,
    }
}

pub open spec fn is_mut_ref_ty(r: &PlaceRepacker, t: Option<usize>) -> bool {
    match t {
        Some(t) => t < r.tys@.len() && (match r.tys@[t as int] {
            TyKind::Ref { mutability, .. } => mutability == Mutability::Mut,
            _ => false,
        }),
        None => false,
    }
}

/// Step `i` of `proj` dereferences a reference.
pub open spec fn derefs_ref_at(r: &PlaceRepacker, local: u32, proj: Seq<ProjElem>, i: int) -> bool {
    0 <= i < proj.len() && proj[i] == ProjElem::Deref && is_ref_ty(r, ty_of(r, local, proj.take(i)))
}

/// The lifetimes of type `t` in the order they appear in it.
pub open spec fn lifetimes(r: &PlaceRepacker, t: usize) -> Seq<RegionKind>
    decreases t,
{
    if t >= r.tys@.len() {
        Seq::empty()
    } else {
        match r.tys@[t as int] {
            TyKind::Ref { region, pointee, .. } => {
                if pointee < t {
                    seq![region] + lifetimes(r, pointee)
                } else {
                    seq![region]
                }
            },
            TyKind::Boxed { inner } => if inner < t { lifetimes(r, inner) } else { Seq::empty() },
            TyKind::Slice { elem } => if elem < t { lifetimes(r, elem) } else { Seq::empty() },
            TyKind::Adt { def } => {
                if def < r.adts@.len() {
                    r.adts@[def as int].regions@
                } else {
                    Seq::empty()
                }
            },
            TyKind::Scalar => Seq::empty(),
        }
    }
}

/// The region variables among `s`, in order; static and erased regions are dropped.
pub open spec fn region_vars(s: Seq<RegionKind>) -> Seq<usize>
    decreases s.len(),
{
    if s.len() == 0 {
        Seq::empty()
    } else {
        let rest = region_vars(s.drop_last());
        match s.last() {
            RegionKind::Var(v) => rest.push(v),
            _ => rest,
        }
    }
}

impl PlaceRepacker {
    pub fn new(tys: Vec<TyKind>, adts: Vec<AdtDef>, locals: Vec<usize>) -> (r: PlaceRepacker)
        ensures
            r.tys@ == tys@,
            r.adts@ == adts@,
            r.locals@ == locals@,
    {
        PlaceRepacker { tys, adts, locals }
    }

    pub fn child_ty(&self, t: usize, e: ProjElem) -> (res: Option<usize>)
        ensures
            res == child_ty(self, t, e),
    {
        if t >= self.tys.len() {
            return None;
        }
        match (self.tys[t], e) {
            (TyKind::Ref { pointee, .. }, ProjElem::Deref) => Some(pointee),
            (TyKind::Boxed { inner }, ProjElem::Deref) => Some(inner),
            (TyKind::Adt { def }, ProjElem::Field(f)) => {
                if def < self.adts.len() && f < self.adts[def].fields.len() {
                    Some(self.adts[def].fields[f])
                } else {
                    None
                }
            },
            (TyKind::Adt { .. }, ProjElem::Downcast(_)) => Some(t),
            (TyKind::Slice { elem }, ProjElem::Index(_)) => Some(elem),
            (TyKind::Slice { elem }, ProjElem::ConstantIndex { .. }) => Some(elem),
            (TyKind::Slice { .. }, ProjElem::Subslice { .. }) => Some(t),
            (_, ProjElem::OpaqueCast) => Some(t),
            _ => None,
        }
    }

    /// The type of `local` projected by the first `n` steps of `proj`.
    pub fn ty_of_prefix(&self, local: u32, proj: &Vec<ProjElem>, n: usize) -> (res: Option<usize>)
        requires
            n <= proj@.len(),
        ensures
            res == ty_of(self, local, proj@.take(n as int)),
    {
        let mut cur: Option<usize> = if (local as usize) < self.locals.len() {
            Some(self.locals[local as usize])
        } else {
            None
        };
        let mut i: usize = 0;
        proof {
            assert(proj@.take(0) =~= Seq::<ProjElem>::empty());
        }
        while i < n
            invariant
                i <= n,
                n <= proj@.len(),
                cur == ty_of(self, local, proj@.take(i as int)),
            decreases n - i,
        {
            proof {
                let next = proj@.take(i + 1);
                assert(next.drop_last() =~= proj@.take(i as int));
                assert(next.last() == proj@[i as int]);
            }
            cur = match cur {
                Some(t) => self.child_ty(t, proj[i]),
                None => None,
            };
            i = i + 1;
        }
        cur
    }

    pub fn is_ref_ty(&self, t: Option<usize>) -> (res: bool)
        ensures
            res == is_ref_ty(self, t),
    {
        match t {
            Some(t) => t < self.tys.len() && matches!(self.tys[t], TyKind::Ref { .. }),
            None => false,
        }
    }

    pub fn is_mut_ref_ty(&self, t: Option<usize>) -> (res: bool)
        ensures
            res == is_mut_ref_ty(self, t),
    {
        match t {
            Some(t) => {
                if t < self.tys.len() {
                    match self.tys[t] {
                        TyKind::Ref { mutability, .. } => mutability == Mutability::Mut,
                        _ => false,
                    }
                } else {
                    false
                }
            },
            None => false,
        }
    }

    /// The number of leading steps of `proj` before the first step that
    /// dereferences a reference (the whole length if there is none).
    pub fn owned_prefix_len(&self, local: u32, proj: &Vec<ProjElem>) -> (n: usize)
        ensures
            n <= proj@.len(),
            forall|i: int| 0 <= i < n ==> !derefs_ref_at(self, local, proj@, i),
            n < proj@.len() ==> derefs_ref_at(self, local, proj@, n as int),
    {
        let mut i: usize = 0;
        while i < proj.len()
            invariant
                i <= proj@.len(),
                forall|j: int| 0 <= j < i ==> !derefs_ref_at(self, local, proj@, j),
            decreases proj@.len() - i,
        {
            if proj[i] == ProjElem::Deref {
                let t = self.ty_of_prefix(local, proj, i);
                if self.is_ref_ty(t) {
                    return i;
                }
            }
            i = i + 1;
        }
        i
    }

    /// The region variables of type `t`, in the order they appear in it.
    pub fn region_vars_of(&self, t: usize) -> (res: Vec<usize>)
        ensures
            res@ == region_vars(lifetimes(self, t)),
    {
        let mut out: Vec<usize> = Vec::new();
        let mut cur: usize = t;
        let ghost mut acc: Seq<RegionKind> = Seq::empty();
        loop
            invariant
                acc + lifetimes(self, cur) == lifetimes(self, t),
                out@ == region_vars(acc),
            decreases cur,
        {
            if cur >= self.tys.len() {
                proof {
                    assert(acc + lifetimes(self, cur) =~= acc);
                }
                return out;
            }
            match self.tys[cur] {
                TyKind::Ref { region, pointee, .. } => {
                    proof {
                        lemma_region_vars_push(acc, region);
                        assert(acc.push(region) + lifetimes(self, pointee) =~= acc + (seq![region]
                            + lifetimes(self, pointee)));
                        assert(acc.push(region) =~= acc + seq![region]);
                    }
                    if let RegionKind::Var(v) = region {
                        out.push(v);
                    }
                    proof {
                        acc = acc.push(region);
                    }
                    if pointee >= cur {
                        return out;
                    }
                    cur = pointee;
                },
                TyKind::Boxed { inner } => {
                    if inner >= cur {
                        proof {
                            assert(acc + lifetimes(self, cur) =~= acc);
                        }
                        return out;
                    }
                    cur = inner;
                },
                TyKind::Slice { elem } => {
                    if elem >= cur {
                        proof {
                            assert(acc + lifetimes(self, cur) =~= acc);
                        }
                        return out;
                    }
                    cur = elem;
                },
                TyKind::Adt { def } => {
                    if def >= self.adts.len() {
                        proof {
                            assert(acc + lifetimes(self, cur) =~= acc);
                        }
                        return out;
                    }
                    let regions = &self.adts[def].regions;
                    let mut i: usize = 0;
                    while i < regions.len()
                        invariant
                            i <= regions@.len(),
                            out@ == region_vars(acc + regions@.take(i as int)),
                        decreases regions@.len() - i,
                    {
                        proof {
                            lemma_region_vars_push(acc + regions@.take(i as int), regions@[i as int]);
                            assert((acc + regions@.take(i as int)).push(regions@[i as int])
                                =~= acc + regions@.take(i + 1));
                        }
                        if let RegionKind::Var(v) = regions[i] {
                            out.push(v);
                        }
                        i = i + 1;
                    }
                    proof {
                        assert(regions@.take(i as int) =~= regions@);
                    }
                    return out;
                },
                TyKind::Scalar => {
                    proof {
                        assert(acc + lifetimes(self, cur) =~= acc);
                    }
                    return out;
                },
            }
        }
    }
}

pub proof fn lemma_region_vars_push(s: Seq<RegionKind>, r: RegionKind)
    ensures
        region_vars(s.push(r)) == match r {
            RegionKind::Var(v) => region_vars(s).push(v),
            _ => region_vars(s),
        },
{
    assert(s.push(r).drop_last() =~= s);
}

} // verus!
