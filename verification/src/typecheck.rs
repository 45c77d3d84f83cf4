//! The type checker: a pool of types that only grows, the bindings of the
//! names in scope, and the checks of expressions, statements and items.

pub mod ty_id;

use vstd::prelude::*;
use std::collections::HashMap;
use crate::{ErrSpec, FrontendErr, FrontendErrAlias, IdSize};
use crate::ast::{Ast, IdentId};
use crate::lexer::Span;
use crate::parser::{Decl, Expr, ExprId, ExprLiteral, Stmt, StmtId, StmtTopLvl, TyAnnot, TyAnnotId};

verus! {

broadcast use vstd::std_specs::hash::group_hash_axioms;

/// Index of a type in the pool.
#[derive(Debug, Clone, Copy, PartialEq, Eq, Hash, Structural)]
pub struct TypeId(pub IdSize);

#[derive(Debug)]
pub enum Type {
    Void,
    Bool,
    Int,
    Float,
    Array { inner: TypeId, len: u32 },
    Func { params: Vec<TypeId>, ret: TypeId, is_generic: bool },
    Struct { name: IdentId, fields: Vec<(IdentId, TypeId)>, is_generic: bool },
    Generic(IdentId),
}

/// What a type is, with its lists as sequences.
pub enum TypeV {
    Void,
    Bool,
    Int,
    Float,
    Array { inner: TypeId, len: u32 },
    Func { params: Seq<TypeId>, ret: TypeId, is_generic: bool },
    Struct { name: IdentId, fields: Seq<(IdentId, TypeId)>, is_generic: bool },
    Generic(IdentId),
}

impl View for Type {
    type V = TypeV;

    open spec fn view(&self) -> TypeV {
        match self {
            Type::Void => TypeV::Void,
            Type::Bool => TypeV::Bool,
            Type::Int => TypeV::Int,
            Type::Float => TypeV::Float,
            Type::Array { inner, len } => TypeV::Array { inner: *inner, len: *len },
            Type::Func { params, ret, is_generic } => TypeV::Func {
                params: params@,
                ret: *ret,
                is_generic: *is_generic,
            },
            Type::Struct { name, fields, is_generic } => TypeV::Struct {
                name: *name,
                fields: fields@,
                is_generic: *is_generic,
            },
            Type::Generic(x) => TypeV::Generic(*x),
        }
    }
}

/// Ids all below `n`.
pub open spec fn ids_below(ids: Seq<TypeId>, n: int) -> bool {
    forall|k: int| 0 <= k < ids.len() ==> #[trigger] ids[k].0 < n
}

pub open spec fn field_ids_below(fields: Seq<(IdentId, TypeId)>, n: int) -> bool {
    forall|k: int| 0 <= k < fields.len() ==> #[trigger] fields[k].1.0 < n
}

/// A type whose components all come before `n` in the pool.
pub open spec fn type_below(t: TypeV, n: int) -> bool {
    match t {
        TypeV::Array { inner, .. } => inner.0 < n,
        TypeV::Func { params, ret, .. } => ids_below(params, n) && ret.0 < n,
        TypeV::Struct { fields, .. } => field_ids_below(fields, n),
        _ => true,
    }
}

/// The pool starts with the primitive types, and every type refers only to
/// types added before it.
pub open spec fn pool_ok(pool: Seq<TypeV>) -> bool {
    &&& pool.len() >= 5
    &&& pool[0] is Void
    &&& pool[1] is Void
    &&& pool[2] is Bool
    &&& pool[3] is Int
    &&& pool[4] is Float
    &&& forall|i: int| 0 <= i < pool.len() ==> #[trigger] type_below(pool[i], i)
}

/// Every id a map holds is below `n`.
pub open spec fn map_below(m: Map<u32, TypeId>, n: int) -> bool {
    forall|k: u32| m.contains_key(k) ==> #[trigger] m[k].0 < n
}

/// `longer` keeps every type of `shorter` at its place.
pub open spec fn extends(longer: Seq<TypeV>, shorter: Seq<TypeV>) -> bool {
    &&& shorter.len() <= longer.len()
    &&& forall|i: int| 0 <= i < shorter.len() ==> #[trigger] longer[i] == shorter[i]
}

/// The id the pool gives to the type it adds next: its place, cut to the
/// width of an id as the conversion cuts it.
pub open spec fn next_id(pool: Seq<TypeV>) -> TypeId {
    TypeId(pool.len() as u32)
}

/// Structural equality of the types at `a` and `b`; array lengths count,
/// and functions compare their parameters by structure and their return
/// types by id.
pub open spec fn ty_eq_spec(pool: Seq<TypeV>, a: int, b: int) -> bool
    decreases a,
{
    if !(0 <= a < pool.len() && 0 <= b < pool.len()) {
        false
    } else {
        match (pool[a], pool[b]) {
            (TypeV::Void, TypeV::Void) => true,
            (TypeV::Bool, TypeV::Bool) => true,
            (TypeV::Int, TypeV::Int) => true,
            (TypeV::Float, TypeV::Float) => true,
            (TypeV::Generic(x), TypeV::Generic(y)) => x == y,
            (TypeV::Array { inner: ta, len: la }, TypeV::Array { inner: tb, len: lb }) => {
                la == lb && ta.0 < a && ty_eq_spec(pool, ta.0 as int, tb.0 as int)
            },
            (TypeV::Func { params: pa, ret: ra, .. }, TypeV::Func { params: pb, ret: rb, .. }) => {
                &&& pa.len() == pb.len()
                &&& forall|k: int|
                    0 <= k < pa.len() ==> pa[k].0 < a && ty_eq_spec(
                        pool,
                        pa[k].0 as int,
                        pb[k].0 as int,
                    )
                &&& ra == rb
            },
            (
                TypeV::Struct { name: na, fields: fa, .. },
                TypeV::Struct { name: nb, fields: fb, .. },
            ) => {
                &&& na == nb
                &&& fa.len() == fb.len()
                &&& forall|k: int|
                    0 <= k < fa.len() ==> fa[k].1.0 < a && ty_eq_spec(
                        pool,
                        fa[k].1.0 as int,
                        fb[k].1.0 as int,
                    )
            },
            _ => false,
        }
    }
}

/// Law: every type of a well-formed pool equals itself.
pub proof fn lemma_ty_eq_reflexive(pool: Seq<TypeV>, a: int)
    requires
        pool_ok(pool),
        0 <= a < pool.len(),
    ensures
        ty_eq_spec(pool, a, a),
    decreases a,
{
    assert(type_below(pool[a], a));
    match pool[a] {
        TypeV::Array { inner, .. } => {
            lemma_ty_eq_reflexive(pool, inner.0 as int);
        },
        TypeV::Func { params, ret, .. } => {
            assert forall|k: int| 0 <= k < params.len() implies params[k].0 < a && ty_eq_spec(
                pool,
                params[k].0 as int,
                params[k].0 as int,
            ) by {
                lemma_ty_eq_reflexive(pool, params[k].0 as int);
            }
        },
        TypeV::Struct { fields, .. } => {
            assert forall|k: int| 0 <= k < fields.len() implies fields[k].1.0 < a && ty_eq_spec(
                pool,
                fields[k].1.0 as int,
                fields[k].1.0 as int,
            ) by {
                lemma_ty_eq_reflexive(pool, fields[k].1.0 as int);
            }
        },
        _ => {},
    }
}

/// Law: type equality does not depend on the order of its arguments.
pub proof fn lemma_ty_eq_symmetric(pool: Seq<TypeV>, a: int, b: int)
    requires
        pool_ok(pool),
        0 <= a < pool.len(),
        0 <= b < pool.len(),
        ty_eq_spec(pool, a, b),
    ensures
        ty_eq_spec(pool, b, a),
    decreases a,
{
    assert(type_below(pool[a], a));
    assert(type_below(pool[b], b));
    match (pool[a], pool[b]) {
        (TypeV::Array { inner: ta, .. }, TypeV::Array { inner: tb, .. }) => {
            lemma_ty_eq_symmetric(pool, ta.0 as int, tb.0 as int);
        },
        (TypeV::Func { params: pa, ret: ra, .. }, TypeV::Func { params: pb, ret: rb, .. }) => {
            assert forall|k: int| 0 <= k < pb.len() implies pb[k].0 < b && ty_eq_spec(
                pool,
                pb[k].0 as int,
                pa[k].0 as int,
            ) by {
                assert(pa[k].0 < a && ty_eq_spec(pool, pa[k].0 as int, pb[k].0 as int));
                lemma_ty_eq_symmetric(pool, pa[k].0 as int, pb[k].0 as int);
            }
        },
        (TypeV::Struct { fields: fa, .. }, TypeV::Struct { fields: fb, .. }) => {
            assert forall|k: int| 0 <= k < fb.len() implies fb[k].1.0 < b && ty_eq_spec(
                pool,
                fb[k].1.0 as int,
                fa[k].1.0 as int,
            ) by {
                assert(fa[k].1.0 < a && ty_eq_spec(pool, fa[k].1.0 as int, fb[k].1.0 as int));
                lemma_ty_eq_symmetric(pool, fa[k].1.0 as int, fb[k].1.0 as int);
            }
        },
        _ => {},
    }
}

/// Law: two types equal to a third are equal to each other.
pub proof fn lemma_ty_eq_transitive(pool: Seq<TypeV>, a: int, b: int, c: int)
    requires
        pool_ok(pool),
        0 <= a < pool.len(),
        0 <= b < pool.len(),
        0 <= c < pool.len(),
        ty_eq_spec(pool, a, b),
        ty_eq_spec(pool, b, c),
    ensures
        ty_eq_spec(pool, a, c),
    decreases a,
{
    assert(type_below(pool[a], a));
    assert(type_below(pool[b], b));
    assert(type_below(pool[c], c));
    match (pool[a], pool[b], pool[c]) {
        (TypeV::Array { inner: ta, .. }, TypeV::Array { inner: tb, .. }, TypeV::Array { inner: tc, .. }) => {
            lemma_ty_eq_transitive(pool, ta.0 as int, tb.0 as int, tc.0 as int);
        },
        (
            TypeV::Func { params: pa, ret: ra, .. },
            TypeV::Func { params: pb, ret: rb, .. },
            TypeV::Func { params: pc, ret: rc, .. },
        ) => {
            assert forall|k: int| 0 <= k < pa.len() implies pa[k].0 < a && ty_eq_spec(
                pool,
                pa[k].0 as int,
                pc[k].0 as int,
            ) by {
                assert(pa[k].0 < a && ty_eq_spec(pool, pa[k].0 as int, pb[k].0 as int));
                assert(pb[k].0 < b && ty_eq_spec(pool, pb[k].0 as int, pc[k].0 as int));
                lemma_ty_eq_transitive(pool, pa[k].0 as int, pb[k].0 as int, pc[k].0 as int);
            }
        },
        (TypeV::Struct { fields: fa, .. }, TypeV::Struct { fields: fb, .. }, TypeV::Struct { fields: fc, .. }) => {
            assert forall|k: int| 0 <= k < fa.len() implies fa[k].1.0 < a && ty_eq_spec(
                pool,
                fa[k].1.0 as int,
                fc[k].1.0 as int,
            ) by {
                assert(fa[k].1.0 < a && ty_eq_spec(pool, fa[k].1.0 as int, fb[k].1.0 as int));
                assert(fb[k].1.0 < b && ty_eq_spec(pool, fb[k].1.0 as int, fc[k].1.0 as int));
                lemma_ty_eq_transitive(
                    pool,
                    fa[k].1.0 as int,
                    fb[k].1.0 as int,
                    fc[k].1.0 as int,
                );
            }
        },
        _ => {},
    }
}

/// Law of type equality: two struct types are equal only when they carry
/// the same name, whatever their fields.
pub proof fn lemma_ty_eq_struct_names(pool: Seq<TypeV>, a: int, b: int)
    requires
        ty_eq_spec(pool, a, b),
    ensures
        0 <= a < pool.len(),
        0 <= b < pool.len(),
        pool[a] matches TypeV::Struct { name: na, .. } ==> (pool[b] matches TypeV::Struct {
            name: nb,
            ..
        } ==> na == nb),
{
}

/// Law of type equality: equal types are of the same kind; arrays have
/// the same length, generic parameters the same name, functions as many
/// parameters and the same result, and structs the same name and as many
/// fields.
pub proof fn lemma_ty_eq_shape(pool: Seq<TypeV>, a: int, b: int)
    requires
        ty_eq_spec(pool, a, b),
    ensures
        0 <= a < pool.len(),
        0 <= b < pool.len(),
        match (pool[a], pool[b]) {
            (TypeV::Void, TypeV::Void) => true,
            (TypeV::Bool, TypeV::Bool) => true,
            (TypeV::Int, TypeV::Int) => true,
            (TypeV::Float, TypeV::Float) => true,
            (TypeV::Generic(x), TypeV::Generic(y)) => x == y,
            (TypeV::Array { len: la, .. }, TypeV::Array { len: lb, .. }) => la == lb,
            (TypeV::Func { params: pa, ret: ra, .. }, TypeV::Func { params: pb, ret: rb, .. }) => pa.len()
                == pb.len() && ra == rb,
            (
                TypeV::Struct { name: na, fields: fa, .. },
                TypeV::Struct { name: nb, fields: fb, .. },
            ) => na == nb && fa.len() == fb.len(),
            _ => false,
        },
{
}

/// Law of generic matching: a match succeeds only where the generic side
/// is a generic parameter, or both sides are of the same kind, functions
/// with as many parameters and structs of the same name with as many
/// fields.
pub proof fn lemma_gen_match_shape(pool: Seq<TypeV>, g: int, c: int, m: Map<u32, TypeId>)
    ensures
        gen_match(pool, g, c, m) is Some ==> {
            &&& 0 <= g < pool.len()
            &&& 0 <= c < pool.len()
            &&& pool[g] is Generic || match (pool[g], pool[c]) {
                (TypeV::Void, TypeV::Void) => true,
                (TypeV::Bool, TypeV::Bool) => true,
                (TypeV::Int, TypeV::Int) => true,
                (TypeV::Float, TypeV::Float) => true,
                (TypeV::Array { .. }, TypeV::Array { .. }) => true,
                (TypeV::Func { params: pa, .. }, TypeV::Func { params: pb, .. }) => pa.len()
                    == pb.len(),
                (
                    TypeV::Struct { name: na, fields: fa, .. },
                    TypeV::Struct { name: nb, fields: fb, .. },
                ) => na == nb && fa.len() == fb.len(),
                _ => false,
            }
        },
{
}

/// Law of generic matching: a successful match keeps every binding it
/// was given; it only adds bindings.
pub proof fn lemma_gen_match_extends(pool: Seq<TypeV>, g: int, c: int, m: Map<u32, TypeId>)
    ensures
        gen_match(pool, g, c, m) matches Some(m2) ==> m.submap_of(m2),
    decreases g, 1int, 0int,
{
    if 0 <= g < pool.len() && 0 <= c < pool.len() {
        match (pool[g], pool[c]) {
            (TypeV::Generic(x), _) => {
                if !m.contains_key(x.0) {
                    let m2 = m.insert(x.0, TypeId(c as u32));
                    assert forall|k: u32| #[trigger] m.dom().contains(k) implies m2.dom().contains(k)
                        && m[k] == m2[k] by {}
                }
            },
            (TypeV::Array { inner: ta, .. }, TypeV::Array { inner: tb, .. }) => {
                if ta.0 < g {
                    lemma_gen_match_extends(pool, ta.0 as int, tb.0 as int, m);
                }
            },
            (TypeV::Func { params: pa, ret: ra, .. }, TypeV::Func { params: pb, ret: rb, .. }) => {
                if pa.len() == pb.len() && ra.0 < g {
                    lemma_gen_match_list_extends(pool, g, pa, pb, pa.len() as int, m);
                    if let Some(m2) = gen_match_list(pool, g, pa, pb, pa.len() as int, m) {
                        lemma_gen_match_extends(pool, ra.0 as int, rb.0 as int, m2);
                        if let Some(m3) = gen_match(pool, ra.0 as int, rb.0 as int, m2) {
                            vstd::map_lib::lemma_submap_of_trans(m, m2, m3);
                        }
                    }
                }
            },
            (TypeV::Struct { fields: fa, .. }, TypeV::Struct { fields: fb, .. }) => {
                lemma_gen_match_list_extends(
                    pool,
                    g,
                    field_ids(fa),
                    field_ids(fb),
                    fa.len() as int,
                    m,
                );
            },
            _ => {},
        }
    }
}

/// Matching a list keeps every binding it was given.
pub proof fn lemma_gen_match_list_extends(
    pool: Seq<TypeV>,
    owner: int,
    gs: Seq<TypeId>,
    cs: Seq<TypeId>,
    n: int,
    m: Map<u32, TypeId>,
)
    ensures
        gen_match_list(pool, owner, gs, cs, n, m) matches Some(m2) ==> m.submap_of(m2),
    decreases owner, 0int, n,
{
    if n <= 0 {
        assert forall|k: u32| #[trigger] m.dom().contains(k) implies m.dom().contains(k) && m[k]
            == m[k] by {}
    } else {
        lemma_gen_match_list_extends(pool, owner, gs, cs, n - 1, m);
        if let Some(m1) = gen_match_list(pool, owner, gs, cs, n - 1, m) {
            if 0 <= gs[n - 1].0 < owner {
                lemma_gen_match_extends(pool, gs[n - 1].0 as int, cs[n - 1].0 as int, m1);
                if let Some(m2) = gen_match(pool, gs[n - 1].0 as int, cs[n - 1].0 as int, m1) {
                    vstd::map_lib::lemma_submap_of_trans(m, m1, m2);
                }
            }
        }
    }
}

/// Law of generic matching on a generic parameter: where it succeeds,
/// the parameter is bound to a type structurally equal to the concrete
/// one, and every earlier binding is kept.
pub proof fn lemma_gen_match_binds(pool: Seq<TypeV>, g: int, c: int, m: Map<u32, TypeId>)
    requires
        pool_ok(pool),
        pool.len() <= u32::MAX,
        0 <= g < pool.len(),
        pool[g] is Generic,
    ensures
        gen_match(pool, g, c, m) matches Some(m2) ==> ({
            let x = pool[g]->Generic_0;
            &&& m2.contains_key(x.0)
            &&& ty_eq_spec(pool, m2[x.0].0 as int, c)
            &&& forall|y: u32| #[trigger] m.contains_key(y) ==> m2.contains_key(y) && m2[y] == m[y]
        }),
{
    if 0 <= c < pool.len() {
        lemma_ty_eq_reflexive(pool, c);
    }
}

/// Law of generic matching: a generic parameter already bound matches a
/// concrete type exactly when the bound type is structurally equal to it,
/// leaving the mapping as it was; so two structurally equal concrete types
/// match alike, whatever their ids.
pub proof fn lemma_gen_match_bound(pool: Seq<TypeV>, g: int, c: int, c2: int, m: Map<u32, TypeId>)
    requires
        pool_ok(pool),
        0 <= g < pool.len(),
        0 <= c < pool.len(),
        0 <= c2 < pool.len(),
        pool[g] matches TypeV::Generic(x) && m.contains_key(x.0) && m[x.0].0 < pool.len(),
        ty_eq_spec(pool, c, c2),
    ensures
        pool[g] matches TypeV::Generic(x) && (gen_match(pool, g, c, m) == if ty_eq_spec(
            pool,
            m[x.0].0 as int,
            c,
        ) {
            Some(m)
        } else {
            None::<Map<u32, TypeId>>
        }),
        gen_match(pool, g, c, m) == gen_match(pool, g, c2, m),
{
    if let TypeV::Generic(x) = pool[g] {
        let b = m[x.0].0 as int;
        lemma_ty_eq_symmetric(pool, c, c2);
        if ty_eq_spec(pool, b, c) {
            lemma_ty_eq_transitive(pool, b, c, c2);
        }
        if ty_eq_spec(pool, b, c2) {
            lemma_ty_eq_transitive(pool, b, c2, c);
        }
    }
}

/// The ids of a list of fields.
pub open spec fn field_ids(fields: Seq<(IdentId, TypeId)>) -> Seq<TypeId> {
    fields.map_values(|f: (IdentId, TypeId)| f.1)
}

/// Matches the generic type at `g` against the concrete type at `c`:
/// a generic name seen for the first time is mapped to the concrete id, one
/// seen before must be mapped to a type equal to it; other types must have
/// the same shape (array lengths aside) and matching parts. `None` where
/// they do not match, else the extended mapping.
pub open spec fn gen_match(pool: Seq<TypeV>, g: int, c: int, m: Map<u32, TypeId>) -> Option<
    Map<u32, TypeId>,
>
    decreases g, 1int, 0int,
{
    if !(0 <= g < pool.len() && 0 <= c < pool.len()) {
        None
    } else {
        match (pool[g], pool[c]) {
            (TypeV::Generic(x), _) => if m.contains_key(x.0) {
                if ty_eq_spec(pool, m[x.0].0 as int, c) {
                    Some(m)
                } else {
                    None
                }
            } else {
                Some(m.insert(x.0, TypeId(c as u32)))
            },
            (TypeV::Void, TypeV::Void) => Some(m),
            (TypeV::Bool, TypeV::Bool) => Some(m),
            (TypeV::Int, TypeV::Int) => Some(m),
            (TypeV::Float, TypeV::Float) => Some(m),
            (TypeV::Array { inner: ta, .. }, TypeV::Array { inner: tb, .. }) => if ta.0 < g {
                gen_match(pool, ta.0 as int, tb.0 as int, m)
            } else {
                None
            },
            (TypeV::Func { params: pa, ret: ra, .. }, TypeV::Func { params: pb, ret: rb, .. }) => {
                if pa.len() != pb.len() || !(ra.0 < g) {
                    None
                } else {
                    match gen_match_list(pool, g, pa, pb, pa.len() as int, m) {
                        Some(m2) => gen_match(pool, ra.0 as int, rb.0 as int, m2),
                        None => None,
                    }
                }
            },
            (
                TypeV::Struct { name: na, fields: fa, .. },
                TypeV::Struct { name: nb, fields: fb, .. },
            ) => {
                if na != nb || fa.len() != fb.len() {
                    None
                } else {
                    gen_match_list(pool, g, field_ids(fa), field_ids(fb), fa.len() as int, m)
                }
            },
            _ => None,
        }
    }
}

/// Matches the first `n` of `gs` against the first `n` of `cs`, in order,
/// threading the mapping.
pub open spec fn gen_match_list(
    pool: Seq<TypeV>,
    owner: int,
    gs: Seq<TypeId>,
    cs: Seq<TypeId>,
    n: int,
    m: Map<u32, TypeId>,
) -> Option<Map<u32, TypeId>>
    decreases owner, 0int, n,
{
    if n <= 0 {
        Some(m)
    } else {
        match gen_match_list(pool, owner, gs, cs, n - 1, m) {
            Some(m1) => if 0 <= gs[n - 1].0 < owner {
                gen_match(pool, gs[n - 1].0 as int, cs[n - 1].0 as int, m1)
            } else {
                None
            },
            None => None,
        }
    }
}

/// The mapping a match of `g` against `c` leaves, whether it succeeds or
/// not: the names mapped before the part that failed stay mapped.
pub open spec fn gen_map(pool: Seq<TypeV>, g: int, c: int, m: Map<u32, TypeId>) -> Map<u32, TypeId>
    decreases g, 1int, 0int,
{
    if !(0 <= g < pool.len() && 0 <= c < pool.len()) {
        m
    } else {
        match (pool[g], pool[c]) {
            (TypeV::Generic(x), _) => if m.contains_key(x.0) {
                m
            } else {
                m.insert(x.0, TypeId(c as u32))
            },
            (TypeV::Array { inner: ta, .. }, TypeV::Array { inner: tb, .. }) => if ta.0 < g {
                gen_map(pool, ta.0 as int, tb.0 as int, m)
            } else {
                m
            },
            (TypeV::Func { params: pa, ret: ra, .. }, TypeV::Func { params: pb, ret: rb, .. }) => {
                if pa.len() != pb.len() || !(ra.0 < g) {
                    m
                } else {
                    match gen_match_list(pool, g, pa, pb, pa.len() as int, m) {
                        Some(m2) => gen_map(pool, ra.0 as int, rb.0 as int, m2),
                        None => gen_map_list(pool, g, pa, pb, pa.len() as int, m),
                    }
                }
            },
            (
                TypeV::Struct { name: na, fields: fa, .. },
                TypeV::Struct { name: nb, fields: fb, .. },
            ) => {
                if na != nb || fa.len() != fb.len() {
                    m
                } else {
                    gen_map_list(pool, g, field_ids(fa), field_ids(fb), fa.len() as int, m)
                }
            },
            _ => m,
        }
    }
}

/// The mapping matching the first `n` of `gs` against those of `cs` leaves,
/// up to and including the first part that fails.
pub open spec fn gen_map_list(
    pool: Seq<TypeV>,
    owner: int,
    gs: Seq<TypeId>,
    cs: Seq<TypeId>,
    n: int,
    m: Map<u32, TypeId>,
) -> Map<u32, TypeId>
    decreases owner, 0int, n,
{
    if n <= 0 {
        m
    } else {
        match gen_match_list(pool, owner, gs, cs, n - 1, m) {
            Some(m1) => if 0 <= gs[n - 1].0 < owner {
                gen_map(pool, gs[n - 1].0 as int, cs[n - 1].0 as int, m1)
            } else {
                m1
            },
            None => gen_map_list(pool, owner, gs, cs, n - 1, m),
        }
    }
}

/// Past the part that failed, matching more of a list leaves the same
/// mapping.
pub proof fn lemma_gen_map_list_stuck(
    pool: Seq<TypeV>,
    owner: int,
    gs: Seq<TypeId>,
    cs: Seq<TypeId>,
    i: int,
    n: int,
    m: Map<u32, TypeId>,
)
    requires
        0 <= i < n,
        gen_match_list(pool, owner, gs, cs, i + 1, m) is None,
    ensures
        gen_map_list(pool, owner, gs, cs, n, m) == gen_map_list(pool, owner, gs, cs, i + 1, m),
    decreases n - i,
{
    if i + 1 < n {
        lemma_gen_match_list_none(pool, owner, gs, cs, i + 1, n - 1, m);
        lemma_gen_map_list_stuck(pool, owner, gs, cs, i, n - 1, m);
    }
}

/// The instance of the type at `g` under the mapping `m`, and the pool it
/// leaves: a mapped generic name gives its id; a function or struct that
/// is not generic is its own instance; any other type is rebuilt from the
/// instances of its parts and added. `None` where a generic name is not
/// mapped; the types built before that stay in the pool.
pub open spec fn inst(pool: Seq<TypeV>, g: int, m: Map<u32, TypeId>) -> (Option<TypeId>, Seq<TypeV>)
    decreases g, 1int, 0int,
{
    if !(0 <= g < pool.len()) {
        (None, pool)
    } else {
        match pool[g] {
            TypeV::Generic(x) => if m.contains_key(x.0) {
                (Some(m[x.0]), pool)
            } else {
                (None, pool)
            },
            TypeV::Void => (Some(next_id(pool)), pool.push(TypeV::Void)),
            TypeV::Bool => (Some(next_id(pool)), pool.push(TypeV::Bool)),
            TypeV::Int => (Some(next_id(pool)), pool.push(TypeV::Int)),
            TypeV::Float => (Some(next_id(pool)), pool.push(TypeV::Float)),
            TypeV::Array { inner, len } => if inner.0 < g {
                let (i1, p1) = inst(pool, inner.0 as int, m);
                match i1 {
                    Some(i1) => (Some(next_id(p1)), p1.push(TypeV::Array { inner: i1, len })),
                    None => (None, p1),
                }
            } else {
                (None, pool)
            },
            TypeV::Func { params, ret, is_generic } => if !is_generic {
                (Some(TypeId(g as u32)), pool)
            } else if !(ret.0 < g) {
                (None, pool)
            } else {
                let (ps, p1) = inst_list(pool, g, params, params.len() as int, m);
                match ps {
                    Some(ps) => {
                        let (r2, p2) = inst(p1, ret.0 as int, m);
                        match r2 {
                            Some(r2) => (
                                Some(next_id(p2)),
                                p2.push(TypeV::Func { params: ps, ret: r2, is_generic: false }),
                            ),
                            None => (None, p2),
                        }
                    },
                    None => (None, p1),
                }
            },
            TypeV::Struct { name, fields, is_generic } => if !is_generic {
                (Some(TypeId(g as u32)), pool)
            } else {
                let (ts, p1) = inst_list(pool, g, field_ids(fields), fields.len() as int, m);
                match ts {
                    Some(ts) => (
                        Some(next_id(p1)),
                        p1.push(
                            TypeV::Struct { name, fields: with_ids(fields, ts), is_generic: false },
                        ),
                    ),
                    None => (None, p1),
                }
            },
        }
    }
}

/// Instances of the first `n` of `gs`, in order, threading the pool.
pub open spec fn inst_list(pool: Seq<TypeV>, owner: int, gs: Seq<TypeId>, n: int, m: Map<u32, TypeId>) -> (
    Option<Seq<TypeId>>,
    Seq<TypeV>,
)
    decreases owner, 0int, n,
{
    if n <= 0 {
        (Some(Seq::empty()), pool)
    } else {
        let (ts, p1) = inst_list(pool, owner, gs, n - 1, m);
        match ts {
            Some(ts) => if 0 <= gs[n - 1].0 < owner {
                let (t, p2) = inst(p1, gs[n - 1].0 as int, m);
                match t {
                    Some(t) => (Some(ts.push(t)), p2),
                    None => (None, p2),
                }
            } else {
                (None, p1)
            },
            None => (None, p1),
        }
    }
}

/// The fields with their ids replaced by `ids`, names kept.
pub open spec fn with_ids<A>(fields: Seq<(IdentId, A)>, ids: Seq<TypeId>) -> Seq<(IdentId, TypeId)> {
    Seq::new(fields.len(), |k: int| (fields[k].0, ids[k]))
}

/// The id the next added type gets is at most its place.
pub proof fn lemma_next_id_below(pool: Seq<TypeV>)
    ensures
        next_id(pool).0 <= pool.len(),
        pool.len() <= u32::MAX ==> next_id(pool).0 == pool.len(),
{
}

/// Once a list match fails, matching more of the list fails too.
pub proof fn lemma_gen_match_list_none(
    pool: Seq<TypeV>,
    owner: int,
    gs: Seq<TypeId>,
    cs: Seq<TypeId>,
    i: int,
    j: int,
    m: Map<u32, TypeId>,
)
    requires
        0 <= i <= j,
        gen_match_list(pool, owner, gs, cs, i, m) is None,
    ensures
        gen_match_list(pool, owner, gs, cs, j, m) is None,
    decreases j - i,
{
    if i < j {
        lemma_gen_match_list_none(pool, owner, gs, cs, i, j - 1, m);
    }
}

/// Once a list instance fails, instances of more of the list fail the
/// same way.
pub proof fn lemma_inst_list_none(
    pool: Seq<TypeV>,
    owner: int,
    gs: Seq<TypeId>,
    i: int,
    j: int,
    m: Map<u32, TypeId>,
)
    requires
        0 <= i <= j,
        inst_list(pool, owner, gs, i, m).0 is None,
    ensures
        inst_list(pool, owner, gs, j, m) == inst_list(pool, owner, gs, i, m),
    decreases j - i,
{
    if i < j {
        lemma_inst_list_none(pool, owner, gs, i, j - 1, m);
    }
}


/// The span of the expression at `id`.
pub open spec fn expr_span(ast: &Ast, id: int) -> Span {
    ast.exprs@[id].1
}

/// The expression at `id` and every expression under it are of the kinds
/// the checker handles: literals of numbers, booleans and structs,
/// variables and calls. This does not depend on the checker's state, and
/// it makes checking safe from any state (`lemma_expr_safe`).
pub open spec fn expr_supported(ast: &Ast, id: int) -> bool
    decreases id,
{
    if !(0 <= id < ast.exprs@.len()) {
        false
    } else {
        match ast.exprs@[id].0 {
            Expr::Literal(lit) => match lit {
                ExprLiteral::Array(_) => false,
                ExprLiteral::Struct(_, ms) => forall|k: int|
                    0 <= k < ms@.len() ==> ms@[k].0 < id && expr_supported(ast, ms@[k].0 as int),
                _ => true,
            },
            Expr::Variable(_) => true,
            Expr::Call { callee, args } => {
                &&& callee.0 < id
                &&& expr_supported(ast, callee.0 as int)
                &&& forall|k: int|
                    0 <= k < args@.len() ==> args@[k].0 < id && expr_supported(
                        ast,
                        args@[k].0 as int,
                    )
            },
            _ => false,
        }
    }
}

/// Every user-defined type named in the annotation at `id`, where the
/// checker looks (array elements, parameters and results of functions),
/// is one of `names`.
pub open spec fn annot_declared(ast: &Ast, names: Set<u32>, id: int) -> bool
    decreases id,
{
    if !(0 <= id < ast.annots@.len()) {
        false
    } else {
        match ast.annots@[id].0 {
            TyAnnot::Array { inner, .. } => inner.0 < id && annot_declared(ast, names, inner.0 as int),
            TyAnnot::Func { params, ret } => {
                &&& forall|k: int|
                    0 <= k < params@.len() ==> params@[k].0 < id && annot_declared(
                        ast,
                        names,
                        params@[k].0 as int,
                    )
                &&& ret matches Some(r) ==> r.0 < id && annot_declared(ast, names, r.0 as int)
            },
            TyAnnot::UserDef { name, .. } => names.contains(name.0),
            _ => true,
        }
    }
}

/// The type the annotation at `id` denotes, and the pool after the types
/// it built were added: primitive names give the primitive ids, a generic
/// name and every array and function type are added anew, a user-defined
/// name gives the type registered under it.
pub open spec fn annot_s(ast: &Ast, pool: Seq<TypeV>, ud: Map<u32, TypeId>, id: int) -> (
    Seq<TypeV>,
    TypeId,
)
    decreases id, 1int, 0int,
{
    if !(0 <= id < ast.annots@.len()) {
        (pool, TypeId(ty_id::VOID))
    } else {
        match ast.annots@[id].0 {
            TyAnnot::Bool => (pool, TypeId(ty_id::BOOL)),
            TyAnnot::Int => (pool, TypeId(ty_id::INT)),
            TyAnnot::Float => (pool, TypeId(ty_id::FLOAT)),
            TyAnnot::Generic(x) => (pool.push(TypeV::Generic(x)), next_id(pool)),
            TyAnnot::Array { inner, .. } => if inner.0 < id {
                let (p1, i1) = annot_s(ast, pool, ud, inner.0 as int);
                (p1.push(TypeV::Array { inner: i1, len: 0 }), next_id(p1))
            } else {
                (pool, TypeId(ty_id::VOID))
            },
            TyAnnot::Func { params, ret } => {
                let (p1, ps) = annot_list_s(ast, pool, ud, id, params@, params@.len() as int);
                let (p2, r2) = match ret {
                    Some(r) => if r.0 < id {
                        annot_s(ast, p1, ud, r.0 as int)
                    } else {
                        (p1, TypeId(ty_id::VOID))
                    },
                    None => (p1, TypeId(ty_id::VOID)),
                };
                (p2.push(TypeV::Func { params: ps, ret: r2, is_generic: false }), next_id(p2))
            },
            TyAnnot::UserDef { name, .. } => (pool, ud[name.0]),
        }
    }
}

/// The types of the first `n` annotations of `ids`, in order, threading
/// the pool.
pub open spec fn annot_list_s(
    ast: &Ast,
    pool: Seq<TypeV>,
    ud: Map<u32, TypeId>,
    owner: int,
    ids: Seq<TyAnnotId>,
    n: int,
) -> (Seq<TypeV>, Seq<TypeId>)
    decreases owner, 0int, n,
{
    if n <= 0 {
        (pool, Seq::empty())
    } else {
        let (p1, ts) = annot_list_s(ast, pool, ud, owner, ids, n - 1);
        if 0 <= ids[n - 1].0 < owner {
            let (p2, t) = annot_s(ast, p1, ud, ids[n - 1].0 as int);
            (p2, ts.push(t))
        } else {
            (p1, ts.push(TypeId(ty_id::VOID)))
        }
    }
}

/// What checking the expression at `id` gives: its type or the first
/// error met, and the pool after the instances it built were added.
/// `binds` are the types of the names in scope, `ud` the user-defined
/// types.
pub open spec fn expr_s(ast: &Ast, pool: Seq<TypeV>, ud: Map<u32, TypeId>, binds: Map<u32, TypeId>, id: int) -> (
    Result<TypeId, ErrSpec>,
    Seq<TypeV>,
)
    decreases id, 1int, 0int,
{
    if !(0 <= id < ast.exprs@.len()) {
        (Err((Seq::empty(), Span { start: 0, end: 0 })), pool)
    } else {
        let span = expr_span(ast, id);
        match ast.exprs@[id].0 {
            Expr::Literal(lit) => match lit {
                ExprLiteral::Bool(_) => (Ok(TypeId(ty_id::BOOL)), pool),
                ExprLiteral::Int(_) => (Ok(TypeId(ty_id::INT)), pool),
                ExprLiteral::Float(_) => (Ok(TypeId(ty_id::FLOAT)), pool),
                ExprLiteral::Struct(ident, members) => if !ud.contains_key(ident.0) {
                    (Err(("undeclared struct name"@, span)), pool)
                } else {
                    match pool[ud[ident.0].0 as int] {
                        TypeV::Struct { name, fields, is_generic } => if fields.len()
                            != members@.len() {
                            (Err(("wrong fields count in struct literal"@, span)), pool)
                        } else if is_generic {
                            let (rm, p2) = args_gen_s(
                                ast,
                                pool,
                                ud,
                                binds,
                                id,
                                field_ids(fields),
                                members@,
                                members@.len() as int,
                                Map::empty(),
                                "impossible to instantiate generic struct"@,
                            );
                            match rm {
                                Err(e) => (Err(e), p2),
                                Ok(m) => match inst(p2, ud[name.0].0 as int, m) {
                                    (Some(t), p3) => (Ok(t), p3),
                                    (None, p3) => (
                                        Err(("impossible to instantiate generic struct"@, span)),
                                        p3,
                                    ),
                                },
                            }
                        } else {
                            let (re, p2) = args_eq_s(
                                ast,
                                pool,
                                ud,
                                binds,
                                id,
                                field_ids(fields),
                                members@,
                                members@.len() as int,
                                "invalid members in struct literal"@,
                            );
                            match re {
                                Err(e) => (Err(e), p2),
                                Ok(_) => (Ok(ud[name.0]), p2),
                            }
                        },
                        _ => (Err(("wrong name type for struct literal"@, span)), pool),
                    }
                },
                // not reached: `expr_safe` rules array literals out
                ExprLiteral::Array(_) => (Ok(TypeId(ty_id::VOID)), pool),
            },
            Expr::Variable(x) => match prior(binds, x.0) {
                Some(t) => (Ok(t), pool),
                None => (Err(("undeclared variable"@, span)), pool),
            },
            Expr::Call { callee, args } => if !(callee.0 < id) {
                (Ok(TypeId(ty_id::VOID)), pool)
            } else {
                let (rc, p1) = expr_s(ast, pool, ud, binds, callee.0 as int);
                match rc {
                    Err(e) => (Err(e), p1),
                    Ok(cid) => match p1[cid.0 as int] {
                        TypeV::Func { params, ret, is_generic } => if params.len() != args@.len() {
                            (Err(("wrong arguments count in function call"@, span)), p1)
                        } else if is_generic {
                            let (rm, p2) = args_gen_s(
                                ast,
                                p1,
                                ud,
                                binds,
                                id,
                                params,
                                args@,
                                args@.len() as int,
                                Map::empty(),
                                "impossible to instantiate generic function"@,
                            );
                            match rm {
                                Err(e) => (Err(e), p2),
                                Ok(m) => match inst(p2, cid.0 as int, m) {
                                    (Some(t), p3) => match p3[t.0 as int] {
                                        TypeV::Func { ret: r3, .. } => (Ok(r3), p3),
                                        _ => (
                                            Err(("impossible to infer function return type"@, span)),
                                            p3,
                                        ),
                                    },
                                    (None, p3) => (
                                        Err(("impossible to infer function return type"@, span)),
                                        p3,
                                    ),
                                },
                            }
                        } else {
                            let (re, p2) = args_eq_s(
                                ast,
                                p1,
                                ud,
                                binds,
                                id,
                                params,
                                args@,
                                args@.len() as int,
                                "invalid arguments in function call"@,
                            );
                            match re {
                                Err(e) => (Err(e), p2),
                                Ok(_) => (Ok(ret), p2),
                            }
                        },
                        _ => (Err(("can't do function call on non function type"@, span)), p1),
                    },
                }
            },
            // not reached: `expr_safe` rules the other kinds out
            _ => (Ok(TypeId(ty_id::VOID)), pool),
        }
    }
}

/// Checks the first `n` of `es` against the types `ts` they must equal, in
/// order; the first mismatch is reported with `msg` at the expression
/// `owner`.
pub open spec fn args_eq_s(
    ast: &Ast,
    pool: Seq<TypeV>,
    ud: Map<u32, TypeId>,
    binds: Map<u32, TypeId>,
    owner: int,
    ts: Seq<TypeId>,
    es: Seq<ExprId>,
    n: int,
    msg: Seq<char>,
) -> (Result<(), ErrSpec>, Seq<TypeV>)
    decreases owner, 0int, n,
{
    if n <= 0 {
        (Ok(()), pool)
    } else {
        let (r1, p1) = args_eq_s(ast, pool, ud, binds, owner, ts, es, n - 1, msg);
        match r1 {
            Err(e) => (Err(e), p1),
            Ok(_) => if !(0 <= es[n - 1].0 < owner) {
                (Ok(()), p1)
            } else {
                let (ra, p2) = expr_s(ast, p1, ud, binds, es[n - 1].0 as int);
                match ra {
                    Err(e) => (Err(e), p2),
                    Ok(at) => if ty_eq_spec(p2, ts[n - 1].0 as int, at.0 as int) {
                        (Ok(()), p2)
                    } else {
                        (Err((msg, expr_span(ast, owner))), p2)
                    },
                }
            },
        }
    }
}

/// Law of argument checking: the arguments check only if each one in
/// reach of the owner checks and has a type structurally equal to the
/// type it is checked against, each checked in the pool the ones before
/// it left.
pub proof fn lemma_args_eq_ok(
    ast: &Ast,
    pool: Seq<TypeV>,
    ud: Map<u32, TypeId>,
    binds: Map<u32, TypeId>,
    owner: int,
    ts: Seq<TypeId>,
    es: Seq<ExprId>,
    n: int,
    msg: Seq<char>,
)
    ensures
        args_eq_s(ast, pool, ud, binds, owner, ts, es, n, msg).0 is Ok ==> forall|k: int|
            #![trigger es[k]]
            0 <= k < n && 0 <= es[k].0 < owner ==> ({
                let pk = args_eq_s(ast, pool, ud, binds, owner, ts, es, k, msg).1;
                let (ra, p2) = expr_s(ast, pk, ud, binds, es[k].0 as int);
                ra matches Ok(t) && ty_eq_spec(p2, ts[k].0 as int, t.0 as int)
            }),
    decreases n,
{
    if n > 0 {
        lemma_args_eq_ok(ast, pool, ud, binds, owner, ts, es, n - 1, msg);
        let (r1, p1) = args_eq_s(ast, pool, ud, binds, owner, ts, es, n - 1, msg);
        if args_eq_s(ast, pool, ud, binds, owner, ts, es, n, msg).0 is Ok {
            assert(r1 is Ok);
            assert forall|k: int|
                #![trigger es[k]]
                0 <= k < n && 0 <= es[k].0 < owner implies ({
                    let pk = args_eq_s(ast, pool, ud, binds, owner, ts, es, k, msg).1;
                    let (ra, p2) = expr_s(ast, pk, ud, binds, es[k].0 as int);
                    ra matches Ok(t) && ty_eq_spec(p2, ts[k].0 as int, t.0 as int)
                }) by {
                if k == n - 1 {
                    let (ra, p2) = expr_s(ast, p1, ud, binds, es[k].0 as int);
                    assert(ra is Ok);
                }
            }
        }
    }
}

/// Matches the first `n` of the generic types `ts` against the types of
/// `es`, in order, threading the mapping; the first failed match is
/// reported with `msg` at the expression `owner`.
pub open spec fn args_gen_s(
    ast: &Ast,
    pool: Seq<TypeV>,
    ud: Map<u32, TypeId>,
    binds: Map<u32, TypeId>,
    owner: int,
    ts: Seq<TypeId>,
    es: Seq<ExprId>,
    n: int,
    m: Map<u32, TypeId>,
    msg: Seq<char>,
) -> (Result<Map<u32, TypeId>, ErrSpec>, Seq<TypeV>)
    decreases owner, 0int, n,
{
    if n <= 0 {
        (Ok(m), pool)
    } else {
        let (r1, p1) = args_gen_s(ast, pool, ud, binds, owner, ts, es, n - 1, m, msg);
        match r1 {
            Err(e) => (Err(e), p1),
            Ok(m1) => if !(0 <= es[n - 1].0 < owner) {
                (Ok(m1), p1)
            } else {
                let (ra, p2) = expr_s(ast, p1, ud, binds, es[n - 1].0 as int);
                match ra {
                    Err(e) => (Err(e), p2),
                    Ok(at) => match gen_match(p2, ts[n - 1].0 as int, at.0 as int, m1) {
                        Some(m2) => (Ok(m2), p2),
                        None => (Err((msg, expr_span(ast, owner))), p2),
                    },
                }
            },
        }
    }
}

/// Checking the expression at `id` from this state reaches only kinds of
/// expressions the checker handles: literals of numbers, booleans and
/// structs, variables and calls. What an earlier error stops the checker
/// before is not reached.
pub open spec fn expr_safe(ast: &Ast, pool: Seq<TypeV>, ud: Map<u32, TypeId>, binds: Map<u32, TypeId>, id: int) -> bool
    decreases id, 1int, 0int,
{
    if !(0 <= id < ast.exprs@.len()) {
        false
    } else {
        match ast.exprs@[id].0 {
            Expr::Literal(lit) => match lit {
                ExprLiteral::Array(_) => false,
                ExprLiteral::Struct(ident, members) => if !ud.contains_key(ident.0) {
                    true
                } else {
                    match pool[ud[ident.0].0 as int] {
                        TypeV::Struct { fields, is_generic, .. } => if fields.len()
                            != members@.len() {
                            true
                        } else if is_generic {
                            args_gen_safe(
                                ast,
                                pool,
                                ud,
                                binds,
                                id,
                                field_ids(fields),
                                members@,
                                members@.len() as int,
                                Map::empty(),
                                "impossible to instantiate generic struct"@,
                            )
                        } else {
                            args_eq_safe(
                                ast,
                                pool,
                                ud,
                                binds,
                                id,
                                field_ids(fields),
                                members@,
                                members@.len() as int,
                                "invalid members in struct literal"@,
                            )
                        },
                        _ => true,
                    }
                },
                _ => true,
            },
            Expr::Variable(_) => true,
            Expr::Call { callee, args } => if !(callee.0 < id) {
                true
            } else {
                &&& expr_safe(ast, pool, ud, binds, callee.0 as int)
                &&& match expr_s(ast, pool, ud, binds, callee.0 as int) {
                    (Err(_), _) => true,
                    (Ok(cid), p1) => match p1[cid.0 as int] {
                        TypeV::Func { params, is_generic, .. } => if params.len() != args@.len() {
                            true
                        } else if is_generic {
                            args_gen_safe(
                                ast,
                                p1,
                                ud,
                                binds,
                                id,
                                params,
                                args@,
                                args@.len() as int,
                                Map::empty(),
                                "impossible to instantiate generic function"@,
                            )
                        } else {
                            args_eq_safe(
                                ast,
                                p1,
                                ud,
                                binds,
                                id,
                                params,
                                args@,
                                args@.len() as int,
                                "invalid arguments in function call"@,
                            )
                        },
                        _ => true,
                    },
                }
            },
            _ => false,
        }
    }
}

/// Law of generic argument matching: the arguments match only if each one
/// in reach of the owner checks and its type matches the generic type it
/// is matched against, with the mapping the ones before it left.
pub proof fn lemma_args_gen_ok(
    ast: &Ast,
    pool: Seq<TypeV>,
    ud: Map<u32, TypeId>,
    binds: Map<u32, TypeId>,
    owner: int,
    ts: Seq<TypeId>,
    es: Seq<ExprId>,
    n: int,
    m: Map<u32, TypeId>,
    msg: Seq<char>,
)
    ensures
        args_gen_s(ast, pool, ud, binds, owner, ts, es, n, m, msg).0 is Ok ==> forall|k: int|
            #![trigger es[k]]
            0 <= k < n && 0 <= es[k].0 < owner ==> ({
                let (rk, pk) = args_gen_s(ast, pool, ud, binds, owner, ts, es, k, m, msg);
                let (ra, p2) = expr_s(ast, pk, ud, binds, es[k].0 as int);
                &&& rk is Ok
                &&& ra matches Ok(t) && gen_match(p2, ts[k].0 as int, t.0 as int, rk->Ok_0) is Some
            }),
    decreases n,
{
    if n > 0 {
        lemma_args_gen_ok(ast, pool, ud, binds, owner, ts, es, n - 1, m, msg);
        if args_gen_s(ast, pool, ud, binds, owner, ts, es, n, m, msg).0 is Ok {
            assert(args_gen_s(ast, pool, ud, binds, owner, ts, es, n - 1, m, msg).0 is Ok);
        }
    }
}

/// Law of variables: a variable has the type it is bound to, and is
/// reported undeclared exactly when it is not bound.
pub proof fn lemma_variable_type(
    ast: &Ast,
    pool: Seq<TypeV>,
    ud: Map<u32, TypeId>,
    binds: Map<u32, TypeId>,
    id: int,
)
    requires
        0 <= id < ast.exprs@.len(),
        ast.exprs@[id].0 is Variable,
    ensures
        ({
            let x = ast.exprs@[id].0->Variable_0;
            let (r, p) = expr_s(ast, pool, ud, binds, id);
            &&& p == pool
            &&& binds.contains_key(x.0) ==> r == Ok::<TypeId, ErrSpec>(binds[x.0])
            &&& !binds.contains_key(x.0) ==> (r matches Err(e) && e.0 == "undeclared variable"@)
        }),
{
}

/// Law of calls: a call checks only if its callee checks to a function
/// type with as many parameters as there are arguments; a call of a
/// function that is not generic then has the function's result type, and
/// its arguments check against the parameter types (see
/// `lemma_args_eq_ok`).
pub proof fn lemma_call_ok(
    ast: &Ast,
    pool: Seq<TypeV>,
    ud: Map<u32, TypeId>,
    binds: Map<u32, TypeId>,
    id: int,
)
    requires
        0 <= id < ast.exprs@.len(),
        ast.exprs@[id].0 matches Expr::Call { callee, .. } && callee.0 < id,
    ensures
        expr_s(ast, pool, ud, binds, id).0 matches Ok(t) ==> ({
            let callee = ast.exprs@[id].0->callee;
            let args = ast.exprs@[id].0->args;
            let (rc, p1) = expr_s(ast, pool, ud, binds, callee.0 as int);
            &&& rc is Ok
            &&& p1[rc->Ok_0.0 as int] matches TypeV::Func { params, ret, is_generic }
            &&& params.len() == args@.len()
            &&& !is_generic ==> (t == ret && args_eq_s(
                ast,
                p1,
                ud,
                binds,
                id,
                params,
                args@,
                args@.len() as int,
                "invalid arguments in function call"@,
            ).0 is Ok)
        }),
{
}

/// Checking the first `n` of `es` as `args_eq_s` does reaches only
/// expressions the checker handles.
pub open spec fn args_eq_safe(
    ast: &Ast,
    pool: Seq<TypeV>,
    ud: Map<u32, TypeId>,
    binds: Map<u32, TypeId>,
    owner: int,
    ts: Seq<TypeId>,
    es: Seq<ExprId>,
    n: int,
    msg: Seq<char>,
) -> bool
    decreases owner, 0int, n,
{
    if n <= 0 {
        true
    } else {
        &&& args_eq_safe(ast, pool, ud, binds, owner, ts, es, n - 1, msg)
        &&& match args_eq_s(ast, pool, ud, binds, owner, ts, es, n - 1, msg) {
            (Err(_), _) => true,
            (Ok(_), p1) => 0 <= es[n - 1].0 < owner ==> expr_safe(
                ast,
                p1,
                ud,
                binds,
                es[n - 1].0 as int,
            ),
        }
    }
}

/// Matching the first `n` of `es` as `args_gen_s` does reaches only
/// expressions the checker handles.
pub open spec fn args_gen_safe(
    ast: &Ast,
    pool: Seq<TypeV>,
    ud: Map<u32, TypeId>,
    binds: Map<u32, TypeId>,
    owner: int,
    ts: Seq<TypeId>,
    es: Seq<ExprId>,
    n: int,
    m: Map<u32, TypeId>,
    msg: Seq<char>,
) -> bool
    decreases owner, 0int, n,
{
    if n <= 0 {
        true
    } else {
        &&& args_gen_safe(ast, pool, ud, binds, owner, ts, es, n - 1, m, msg)
        &&& match args_gen_s(ast, pool, ud, binds, owner, ts, es, n - 1, m, msg) {
            (Err(_), _) => true,
            (Ok(_), p1) => 0 <= es[n - 1].0 < owner ==> expr_safe(
                ast,
                p1,
                ud,
                binds,
                es[n - 1].0 as int,
            ),
        }
    }
}

/// Safety of the first `n` checks gives that of the first `k`.
pub proof fn lemma_args_eq_safe_prefix(
    ast: &Ast,
    pool: Seq<TypeV>,
    ud: Map<u32, TypeId>,
    binds: Map<u32, TypeId>,
    owner: int,
    ts: Seq<TypeId>,
    es: Seq<ExprId>,
    k: int,
    n: int,
    msg: Seq<char>,
)
    requires
        0 <= k <= n,
        args_eq_safe(ast, pool, ud, binds, owner, ts, es, n, msg),
    ensures
        args_eq_safe(ast, pool, ud, binds, owner, ts, es, k, msg),
    decreases n - k,
{
    if k < n {
        lemma_args_eq_safe_prefix(ast, pool, ud, binds, owner, ts, es, k, n - 1, msg);
    }
}

/// Safety of the first `n` matches gives that of the first `k`.
pub proof fn lemma_args_gen_safe_prefix(
    ast: &Ast,
    pool: Seq<TypeV>,
    ud: Map<u32, TypeId>,
    binds: Map<u32, TypeId>,
    owner: int,
    ts: Seq<TypeId>,
    es: Seq<ExprId>,
    k: int,
    n: int,
    m: Map<u32, TypeId>,
    msg: Seq<char>,
)
    requires
        0 <= k <= n,
        args_gen_safe(ast, pool, ud, binds, owner, ts, es, n, m, msg),
    ensures
        args_gen_safe(ast, pool, ud, binds, owner, ts, es, k, m, msg),
    decreases n - k,
{
    if k < n {
        lemma_args_gen_safe_prefix(ast, pool, ud, binds, owner, ts, es, k, n - 1, m, msg);
    }
}

/// Maps names of user-defined types to their ids, and holds every type.
pub struct TypeEnv {
    user_ident_to_id: HashMap<u32, TypeId>,
    pub types_pool: Vec<Type>,
}

impl TypeEnv {
    /// The user-defined types, by the number of their name.
    pub closed spec fn userdefs(&self) -> Map<u32, TypeId> {
        self.user_ident_to_id@
    }

    /// The types in the pool, in order.
    pub closed spec fn pool(&self) -> Seq<TypeV> {
        self.types_pool@.map_values(|t: Type| t@)
    }

    /// The pool is well formed, every user-defined name maps into it, and
    /// every struct type in it has a name registered as a user-defined type.
    pub open spec fn wf(&self) -> bool {
        &&& pool_ok(self.pool())
        &&& map_below(self.userdefs(), self.pool().len() as int)
        &&& forall|i: int|
            #![trigger self.pool()[i]]
            0 <= i < self.pool().len() ==> (self.pool()[i] matches TypeV::Struct { name, .. }
                ==> self.userdefs().contains_key(name.0))
    }
}

impl Default for TypeEnv {
    fn default() -> (r: Self)
        ensures
            r.wf(),
            r.userdefs() == Map::<u32, TypeId>::empty(),
            r.pool() == seq![TypeV::Void, TypeV::Void, TypeV::Bool, TypeV::Int, TypeV::Float],
    {
        let mut pool: Vec<Type> = Vec::new();
        pool.push(Type::Void);
        pool.push(Type::Void);
        pool.push(Type::Bool);
        pool.push(Type::Int);
        pool.push(Type::Float);
        let r = TypeEnv { user_ident_to_id: HashMap::new(), types_pool: pool };
        assert(r.pool() =~= seq![TypeV::Void, TypeV::Void, TypeV::Bool, TypeV::Int, TypeV::Float]);
        r
    }
}

impl TypeEnv {
    pub fn lookup_id(&self, id: IdentId) -> (r: Option<TypeId>)
        ensures
            r == (if self.userdefs().contains_key(id.0) {
                Some(self.userdefs()[id.0])
            } else {
                None
            }),
    {
        match self.user_ident_to_id.get(&id.0) {
            Some(t) => Some(*t),
            None => None,
        }
    }

    pub fn lookup_ty(&self, id: IdentId) -> (r: Option<&Type>)
        requires
            self.wf(),
        ensures
            match r {
                Some(t) => self.userdefs().contains_key(id.0) && t@ == self.pool()[self.userdefs()[
                    id.0].0 as int],
                None => !self.userdefs().contains_key(id.0),
            },
    {
        match self.user_ident_to_id.get(&id.0) {
            Some(t) => Some(&self.types_pool[t.0 as usize]),
            None => None,
        }
    }

    pub fn get(&self, id: TypeId) -> (r: &Type)
        requires
            id.0 < self.pool().len(),
        ensures
            r@ == self.pool()[id.0 as int],
    {
        &self.types_pool[id.0 as usize]
    }

    /// The type of a user-defined name, to change in place.
    pub fn lookup_ty_mut(&mut self, id: IdentId) -> (r: Option<&mut Type>)
        requires
            old(self).wf(),
        ensures
            final(self).userdefs() == old(self).userdefs(),
            match r {
                Some(t) => {
                    let k = old(self).userdefs()[id.0].0 as int;
                    &&& old(self).userdefs().contains_key(id.0)
                    &&& t@ == old(self).pool()[k]
                    &&& final(self).pool() == old(self).pool().update(k, final(t)@)
                },
                None => !old(self).userdefs().contains_key(id.0) && final(self).pool() == old(
                    self,
                ).pool(),
            },
    {
        match self.user_ident_to_id.get(&id.0) {
            Some(t) => {
                let k = t.0 as usize;
                Some(&mut self.types_pool[k])
            },
            None => None,
        }
    }

    /// The type `id`, to change in place.
    pub fn get_mut(&mut self, id: TypeId) -> (r: &mut Type)
        requires
            id.0 < old(self).pool().len(),
        ensures
            r@ == old(self).pool()[id.0 as int],
            final(self).pool() == old(self).pool().update(id.0 as int, final(r)@),
            final(self).userdefs() == old(self).userdefs(),
    {
        &mut self.types_pool[id.0 as usize]
    }

    /// Adds a type; its id is its place in the pool.
    pub fn add_ty(&mut self, ty: Type) -> (r: TypeId)
        ensures
            final(self).pool() == old(self).pool().push(ty@),
            final(self).userdefs() == old(self).userdefs(),
            r == next_id(old(self).pool()),
    {
        let id = self.types_pool.len() as IdSize;
        self.types_pool.push(ty);
        TypeId(id)
    }

    /// Adds a type under a user-defined name; `None` if the name was
    /// already there (it then names the new type all the same).
    pub fn add_userdef(&mut self, name: IdentId, ty: Type) -> (r: Option<TypeId>)
        ensures
            final(self).pool() == old(self).pool().push(ty@),
            final(self).userdefs() == old(self).userdefs().insert(name.0, next_id(old(self).pool())),
            r == (if old(self).userdefs().contains_key(name.0) {
                None
            } else {
                Some(next_id(old(self).pool()))
            }),
    {
        let id = self.add_ty(ty);
        match self.user_ident_to_id.insert(name.0, id) {
            Some(_) => None,
            None => Some(id),
        }
    }

    /// Structural equality of two types of the pool.
    pub fn ty_eq(&self, a: TypeId, b: TypeId) -> (r: bool)
        requires
            self.wf(),
            a.0 < self.pool().len(),
            b.0 < self.pool().len(),
        ensures
            r == ty_eq_spec(self.pool(), a.0 as int, b.0 as int),
        decreases a.0,
    {
        let ghost pool = self.pool();
        assert(type_below(pool[a.0 as int], a.0 as int));
        match (self.get(a), self.get(b)) {
            (Type::Void, Type::Void) => true,
            (Type::Bool, Type::Bool) => true,
            (Type::Int, Type::Int) => true,
            (Type::Float, Type::Float) => true,
            (Type::Generic(x), Type::Generic(y)) => x.0 == y.0,
            (Type::Array { inner: ta, len: la }, Type::Array { inner: tb, len: lb }) => {
                assert(type_below(pool[b.0 as int], b.0 as int));
                *la == *lb && self.ty_eq(*ta, *tb)
            },
            (Type::Func { params: pa, ret: ra, .. }, Type::Func { params: pb, ret: rb, .. }) => {
                if !(ra.0 == rb.0 && pa.len() == pb.len()) {
                    return false;
                }
                assert(type_below(pool[b.0 as int], b.0 as int));
                let mut i: usize = 0;
                while i < pa.len()
                    invariant
                        self.wf(),
                        pool == self.pool(),
                        a.0 < pool.len(),
                        ids_below(pa@, a.0 as int),
                        ids_below(pb@, pool.len() as int),
                        pa@.len() == pb@.len(),
                        0 <= i <= pa@.len(),
                        forall|k: int| 0 <= k < i ==> ty_eq_spec(pool, pa@[k].0 as int, pb@[k].0 as int),
                        ty_eq_spec(pool, a.0 as int, b.0 as int) == ((forall|k: int|
                            0 <= k < pa@.len() ==> pa@[k].0 < a.0 && ty_eq_spec(
                                pool,
                                pa@[k].0 as int,
                                pb@[k].0 as int,
                            )) && ra == rb),
                    decreases pa@.len() - i,
                {
                    if !self.ty_eq(pa[i], pb[i]) {
                        assert(!(pa@[i as int].0 < a.0 && ty_eq_spec(
                            pool,
                            pa@[i as int].0 as int,
                            pb@[i as int].0 as int,
                        )));
                        return false;
                    }
                    i = i + 1;
                }
                assert forall|k: int| 0 <= k < pa@.len() implies pa@[k].0 < a.0 && ty_eq_spec(
                    pool,
                    pa@[k].0 as int,
                    pb@[k].0 as int,
                ) by {
                    assert(pa@[k].0 < a.0);
                }
                true
            },
            (
                Type::Struct { name: na, fields: fa, .. },
                Type::Struct { name: nb, fields: fb, .. },
            ) => {
                if !(na.0 == nb.0 && fa.len() == fb.len()) {
                    return false;
                }
                assert(type_below(pool[b.0 as int], b.0 as int));
                let mut i: usize = 0;
                while i < fa.len()
                    invariant
                        self.wf(),
                        pool == self.pool(),
                        a.0 < pool.len(),
                        field_ids_below(fa@, a.0 as int),
                        field_ids_below(fb@, pool.len() as int),
                        fa@.len() == fb@.len(),
                        0 <= i <= fa@.len(),
                        forall|k: int| 0 <= k < i ==> ty_eq_spec(pool, fa@[k].1.0 as int, fb@[k].1.0 as int),
                        ty_eq_spec(pool, a.0 as int, b.0 as int) == (forall|k: int|
                            0 <= k < fa@.len() ==> fa@[k].1.0 < a.0 && ty_eq_spec(
                                pool,
                                fa@[k].1.0 as int,
                                fb@[k].1.0 as int,
                            )),
                    decreases fa@.len() - i,
                {
                    if !self.ty_eq(fa[i].1, fb[i].1) {
                        assert(!(fa@[i as int].1.0 < a.0 && ty_eq_spec(
                            pool,
                            fa@[i as int].1.0 as int,
                            fb@[i as int].1.0 as int,
                        )));
                        return false;
                    }
                    i = i + 1;
                }
                assert forall|k: int| 0 <= k < fa@.len() implies fa@[k].1.0 < a.0 && ty_eq_spec(
                    pool,
                    fa@[k].1.0 as int,
                    fb@[k].1.0 as int,
                ) by {
                    assert(fa@[k].1.0 < a.0);
                }
                true
            },
            _ => false,
        }
    }

    /// Matches the generic type `gen_id` against the concrete `conc_id`,
    /// extending `mapping` (see `gen_match`); on success gives the concrete
    /// id for a generic name and `gen_id` otherwise.
    pub fn generic_eq(&self, gen_id: TypeId, conc_id: TypeId, mapping: &mut HashMap<u32, TypeId>) -> (r:
        Option<TypeId>)
        requires
            self.wf(),
            gen_id.0 < self.pool().len(),
            conc_id.0 < self.pool().len(),
            map_below(old(mapping)@, self.pool().len() as int),
        ensures
            map_below(final(mapping)@, self.pool().len() as int),
            final(mapping)@ == gen_map(self.pool(), gen_id.0 as int, conc_id.0 as int, old(mapping)@),
            match gen_match(self.pool(), gen_id.0 as int, conc_id.0 as int, old(mapping)@) {
                Some(m) => final(mapping)@ == m && r == Some(
                    if self.pool()[gen_id.0 as int] is Generic {
                        conc_id
                    } else {
                        gen_id
                    },
                ),
                None => r is None,
            },
        decreases gen_id.0,
    {
        let ghost pool = self.pool();
        let ghost m0 = mapping@;
        assert(type_below(pool[gen_id.0 as int], gen_id.0 as int));
        assert(type_below(pool[conc_id.0 as int], conc_id.0 as int));
        let id = match (self.get(gen_id), self.get(conc_id)) {
            (Type::Generic(ident), _) => match mapping.get(&ident.0) {
                Some(a_ty) => {
                    let a = *a_ty;
                    if self.ty_eq(a, conc_id) {
                        conc_id
                    } else {
                        return None;
                    }
                },
                None => {
                    mapping.insert(ident.0, conc_id);
                    conc_id
                },
            },
            (Type::Void, Type::Void) => gen_id,
            (Type::Bool, Type::Bool) => gen_id,
            (Type::Int, Type::Int) => gen_id,
            (Type::Float, Type::Float) => gen_id,
            (Type::Array { inner: ta, .. }, Type::Array { inner: tb, .. }) => {
                if self.generic_eq(*ta, *tb, mapping).is_none() {
                    return None;
                }
                gen_id
            },
            (Type::Func { params: pa, ret: ra, .. }, Type::Func { params: pb, ret: rb, .. }) => {
                if pa.len() != pb.len() {
                    return None;
                }
                let mut i: usize = 0;
                while i < pa.len()
                    invariant
                        self.wf(),
                        pool == self.pool(),
                        gen_id.0 < pool.len(),
                        ids_below(pa@, gen_id.0 as int),
                        ids_below(pb@, pool.len() as int),
                        pa@.len() == pb@.len(),
                        0 <= i <= pa@.len(),
                        map_below(mapping@, pool.len() as int),
                        gen_match_list(pool, gen_id.0 as int, pa@, pb@, i as int, m0) == Some(
                            mapping@,
                        ),
                        gen_map_list(pool, gen_id.0 as int, pa@, pb@, i as int, m0) == mapping@,
                        gen_map(pool, gen_id.0 as int, conc_id.0 as int, m0) == (match gen_match_list(
                            pool,
                            gen_id.0 as int,
                            pa@,
                            pb@,
                            pa@.len() as int,
                            m0,
                        ) {
                            Some(m2) => gen_map(pool, ra.0 as int, rb.0 as int, m2),
                            None => gen_map_list(pool, gen_id.0 as int, pa@, pb@, pa@.len() as int, m0),
                        }),
                        m0 == old(mapping)@,
                        gen_match(pool, gen_id.0 as int, conc_id.0 as int, m0) == (match gen_match_list(
                            pool,
                            gen_id.0 as int,
                            pa@,
                            pb@,
                            pa@.len() as int,
                            m0,
                        ) {
                            Some(m2) => gen_match(pool, ra.0 as int, rb.0 as int, m2),
                            None => None,
                        }),
                    decreases pa@.len() - i,
                {
                    proof {
                        assert(pa@[i as int].0 < gen_id.0);
                    }
                    if self.generic_eq(pa[i], pb[i], mapping).is_none() {
                        proof {
                            lemma_gen_match_list_none(
                                pool,
                                gen_id.0 as int,
                                pa@,
                                pb@,
                                i + 1,
                                pa@.len() as int,
                                m0,
                            );
                            lemma_gen_map_list_stuck(
                                pool,
                                gen_id.0 as int,
                                pa@,
                                pb@,
                                i as int,
                                pa@.len() as int,
                                m0,
                            );
                        }
                        return None;
                    }
                    i = i + 1;
                }
                if self.generic_eq(*ra, *rb, mapping).is_none() {
                    return None;
                }
                gen_id
            },
            (
                Type::Struct { name: na, fields: fa, .. },
                Type::Struct { name: nb, fields: fb, .. },
            ) => {
                if na.0 != nb.0 {
                    return None;
                }
                if fa.len() != fb.len() {
                    return None;
                }
                let ghost ga = field_ids(fa@);
                let ghost gb = field_ids(fb@);
                let mut i: usize = 0;
                while i < fa.len()
                    invariant
                        self.wf(),
                        pool == self.pool(),
                        gen_id.0 < pool.len(),
                        field_ids_below(fa@, gen_id.0 as int),
                        field_ids_below(fb@, pool.len() as int),
                        ga == field_ids(fa@),
                        gb == field_ids(fb@),
                        fa@.len() == fb@.len(),
                        0 <= i <= fa@.len(),
                        map_below(mapping@, pool.len() as int),
                        gen_match_list(pool, gen_id.0 as int, ga, gb, i as int, m0) == Some(
                            mapping@,
                        ),
                        gen_map_list(pool, gen_id.0 as int, ga, gb, i as int, m0) == mapping@,
                        gen_map(pool, gen_id.0 as int, conc_id.0 as int, m0) == gen_map_list(
                            pool,
                            gen_id.0 as int,
                            ga,
                            gb,
                            fa@.len() as int,
                            m0,
                        ),
                        m0 == old(mapping)@,
                        gen_match(pool, gen_id.0 as int, conc_id.0 as int, m0) == gen_match_list(
                            pool,
                            gen_id.0 as int,
                            ga,
                            gb,
                            fa@.len() as int,
                            m0,
                        ),
                    decreases fa@.len() - i,
                {
                    assert(ga[i as int] == fa@[i as int].1 && gb[i as int] == fb@[i as int].1);
                    assert(ga[i as int].0 < gen_id.0);
                    if self.generic_eq(fa[i].1, fb[i].1, mapping).is_none() {
                        proof {
                            lemma_gen_match_list_none(
                                pool,
                                gen_id.0 as int,
                                ga,
                                gb,
                                i + 1,
                                fa@.len() as int,
                                m0,
                            );
                            lemma_gen_map_list_stuck(
                                pool,
                                gen_id.0 as int,
                                ga,
                                gb,
                                i as int,
                                fa@.len() as int,
                                m0,
                            );
                        }
                        return None;
                    }
                    i = i + 1;
                }
                gen_id
            },
            _ => {
                return None;
            },
        };
        Some(id)
    }

    /// The instance of the type `id` under `mapping` (see `inst`): the
    /// types it rebuilds are added to the pool.
    fn instantiate_generic(&mut self, id: TypeId, mapping: &HashMap<u32, TypeId>) -> (r: Option<
        TypeId,
    >)
        requires
            old(self).wf(),
            id.0 < old(self).pool().len(),
            map_below(mapping@, old(self).pool().len() as int),
        ensures
            final(self).wf(),
            extends(final(self).pool(), old(self).pool()),
            final(self).userdefs() == old(self).userdefs(),
            r matches Some(t) ==> t.0 < final(self).pool().len(),
            (r, final(self).pool()) == inst(old(self).pool(), id.0 as int, mapping@),
        decreases id.0,
    {
        let ghost pool0 = self.pool();
        let ghost m = mapping@;
        assert(type_below(pool0[id.0 as int], id.0 as int));
        let new = match self.get(id) {
            Type::Generic(ident) => {
                return match mapping.get(&ident.0) {
                    Some(t) => Some(*t),
                    None => None,
                };
            },
            Type::Void => Type::Void,
            Type::Bool => Type::Bool,
            Type::Int => Type::Int,
            Type::Float => Type::Float,
            Type::Array { inner, len } => {
                let inner = *inner;
                let len = *len;
                match self.instantiate_generic(inner, mapping) {
                    Some(i) => Type::Array { inner: i, len },
                    None => {
                        return None;
                    },
                }
            },
            Type::Func { params, ret, is_generic } => {
                if !*is_generic {
                    return Some(id);
                }
                let ret = *ret;
                let mut gs: Vec<TypeId> = Vec::new();
                let mut k: usize = 0;
                while k < params.len()
                    invariant
                        0 <= k <= params@.len(),
                        gs@ == params@.subrange(0, k as int),
                    decreases params@.len() - k,
                {
                    gs.push(params[k]);
                    k = k + 1;
                }
                assert(gs@ == params@);
                let mut ps: Vec<TypeId> = Vec::new();
                let mut i: usize = 0;
                while i < gs.len()
                    invariant
                        self.wf(),
                        extends(self.pool(), pool0),
                        self.userdefs() == old(self).userdefs(),
                        m == mapping@,
                        map_below(m, pool0.len() as int),
                        id.0 < pool0.len(),
                        ids_below(gs@, id.0 as int),
                        0 <= i <= gs@.len(),
                        ids_below(ps@, self.pool().len() as int),
                        inst_list(pool0, id.0 as int, gs@, i as int, m) == (
                            Some(ps@),
                            self.pool(),
                        ),
                        pool0 == old(self).pool(),
                        inst_list(pool0, id.0 as int, gs@, gs@.len() as int, m).0 is None ==> inst(
                            pool0,
                            id.0 as int,
                            m,
                        ) == (None::<TypeId>, inst_list(pool0, id.0 as int, gs@, gs@.len() as int, m).1),
                    decreases gs@.len() - i,
                {
                    match self.instantiate_generic(gs[i], mapping) {
                        Some(t) => {
                            ps.push(t);
                        },
                        None => {
                            proof {
                                lemma_inst_list_none(
                                    pool0,
                                    id.0 as int,
                                    gs@,
                                    i + 1,
                                    gs@.len() as int,
                                    m,
                                );
                            }
                            return None;
                        },
                    }
                    i = i + 1;
                }
                match self.instantiate_generic(ret, mapping) {
                    Some(r2) => Type::Func { params: ps, ret: r2, is_generic: false },
                    None => {
                        return None;
                    },
                }
            },
            Type::Struct { name, fields, is_generic } => {
                if !*is_generic {
                    return Some(id);
                }
                let name = *name;
                let ghost fields_v = fields@;
                let mut names: Vec<IdentId> = Vec::new();
                let mut gs: Vec<TypeId> = Vec::new();
                let mut k: usize = 0;
                while k < fields.len()
                    invariant
                        0 <= k <= fields@.len(),
                        gs@ == field_ids(fields@).subrange(0, k as int),
                        names@.len() == k,
                        forall|j: int| 0 <= j < k ==> #[trigger] names@[j] == fields@[j].0,
                    decreases fields@.len() - k,
                {
                    names.push(fields[k].0);
                    gs.push(fields[k].1);
                    k = k + 1;
                }
                assert(gs@ == field_ids(fields@));
                let mut fs: Vec<(IdentId, TypeId)> = Vec::new();
                let mut i: usize = 0;
                while i < gs.len()
                    invariant
                        self.wf(),
                        extends(self.pool(), pool0),
                        self.userdefs() == old(self).userdefs(),
                        m == mapping@,
                        map_below(m, pool0.len() as int),
                        id.0 < pool0.len(),
                        ids_below(gs@, id.0 as int),
                        names@.len() == gs@.len(),
                        fields_v.len() == gs@.len(),
                        forall|j: int| 0 <= j < names@.len() ==> #[trigger] names@[j] == fields_v[j].0,
                        pool0[id.0 as int] == (TypeV::Struct { name, fields: fields_v, is_generic: true }),
                        0 <= i <= gs@.len(),
                        fs@.len() == i,
                        field_ids_below(fs@, self.pool().len() as int),
                        forall|j: int| 0 <= j < i ==> #[trigger] fs@[j].0 == names@[j],
                        inst_list(pool0, id.0 as int, gs@, i as int, m) == (
                            Some(field_ids(fs@)),
                            self.pool(),
                        ),
                        pool0 == old(self).pool(),
                        inst_list(pool0, id.0 as int, gs@, gs@.len() as int, m).0 is None ==> inst(
                            pool0,
                            id.0 as int,
                            m,
                        ) == (None::<TypeId>, inst_list(pool0, id.0 as int, gs@, gs@.len() as int, m).1),
                    decreases gs@.len() - i,
                {
                    match self.instantiate_generic(gs[i], mapping) {
                        Some(t) => {
                            let ghost before = fs@;
                            fs.push((names[i], t));
                            assert(field_ids(fs@) =~= field_ids(before).push(t));
                            assert forall|k: int| 0 <= k < fs@.len() implies #[trigger] fs@[k].1.0
                                < self.pool().len() by {
                                if k < before.len() {
                                    assert(fs@[k] == before[k]);
                                }
                            }
                        },
                        None => {
                            proof {
                                lemma_inst_list_none(
                                    pool0,
                                    id.0 as int,
                                    gs@,
                                    i + 1,
                                    gs@.len() as int,
                                    m,
                                );
                            }
                            return None;
                        },
                    }
                    i = i + 1;
                }
                assert forall|j: int| 0 <= j < fs@.len() implies #[trigger] fs@[j] == with_ids(
                    fields_v,
                    field_ids(fs@),
                )[j] by {
                    assert(fs@[j].0 == names@[j]);
                }
                assert(fs@ =~= with_ids(fields_v, field_ids(fs@)));
                Type::Struct { name, fields: fs, is_generic: false }
            },
        };
        proof {
            lemma_next_id_below(self.pool());
        }
        Some(self.add_ty(new))
    }
}

/// The table a binding of `x` replaced: its earlier type, or nothing.
pub open spec fn prior(tbl: Map<u32, TypeId>, x: u32) -> Option<TypeId> {
    if tbl.contains_key(x) {
        Some(tbl[x])
    } else {
        None
    }
}

/// The names in scope with their types. Each binding is recorded with
/// what it replaced, most recent last, so that leaving a scope brings back
/// the bindings of the scopes around it.
pub struct Bindings {
    tbl: HashMap<u32, TypeId>,
    stack: Vec<(IdentId, Option<TypeId>)>,
    history: Ghost<Seq<Map<u32, TypeId>>>,
}

impl Bindings {
    /// The type each name in scope has, by the number of the name.
    pub closed spec fn table(&self) -> Map<u32, TypeId> {
        self.tbl@
    }

    /// How many bindings were made and not undone yet.
    pub closed spec fn depth(&self) -> nat {
        self.stack@.len()
    }

    /// The table as it was when `k` bindings were on record.
    pub closed spec fn saved(&self, k: int) -> Map<u32, TypeId> {
        self.history@[k]
    }

    /// Each recorded binding turned the table before it into the table
    /// after it, and remembers what it replaced.
    pub closed spec fn wf(&self) -> bool {
        &&& self.history@.len() == self.stack@.len() + 1
        &&& self.history@.last() == self.tbl@
        &&& forall|k: int|
            #![trigger self.stack@[k]]
            0 <= k < self.stack@.len() ==> {
                let x = self.stack@[k].0.0;
                &&& self.history@[k + 1].contains_key(x)
                &&& self.history@[k + 1] == self.history@[k].insert(x, self.history@[k + 1][x])
                &&& self.stack@[k].1 == prior(self.history@[k], x)
            }
    }

    /// The latest table on record is the current one.
    pub proof fn lemma_saved_last(&self)
        requires
            self.wf(),
        ensures
            self.saved(self.depth() as int) == self.table(),
    {
    }

    pub fn get(&self, id: IdentId) -> (r: Option<TypeId>)
        ensures
            r == prior(self.table(), id.0),
    {
        match self.tbl.get(&id.0) {
            Some(t) => Some(*t),
            None => None,
        }
    }

    /// Binds `id` to `ty`, shadowing any binding it had; `true` if it had
    /// none.
    pub fn add(&mut self, id: IdentId, ty: TypeId) -> (r: bool)
        requires
            old(self).wf(),
        ensures
            final(self).wf(),
            final(self).table() == old(self).table().insert(id.0, ty),
            final(self).depth() == old(self).depth() + 1,
            forall|k: int| 0 <= k <= old(self).depth() ==> #[trigger] final(self).saved(k) == old(self).saved(k),
            r == !old(self).table().contains_key(id.0),
    {
        let old_ty = self.tbl.insert(id.0, ty);
        self.stack.push((id, old_ty));
        proof {
            let h = self.history@;
            self.history = Ghost(h.push(self.tbl@));
            let n = self.stack@.len() - 1;
            assert(self.stack@[n] == (id, old_ty));
            assert forall|k: int| #![trigger self.stack@[k]] 0 <= k < self.stack@.len() implies {
                let x = self.stack@[k].0.0;
                &&& self.history@[k + 1].contains_key(x)
                &&& self.history@[k + 1] == self.history@[k].insert(x, self.history@[k + 1][x])
                &&& self.stack@[k].1 == prior(self.history@[k], x)
            } by {
                if k < n {
                    assert(self.stack@[k] == old(self).stack@[k]);
                } else {
                    assert(self.history@[k + 1] =~= self.history@[k].insert(id.0, ty));
                }
            }
        }
        old_ty.is_none()
    }

    /// Undoes the latest bindings until `amount` are left on record,
    /// bringing back the table of that time.
    pub fn unwind(&mut self, amount: usize)
        requires
            old(self).wf(),
        ensures
            final(self).wf(),
            amount < old(self).depth() ==> final(self).table() == old(self).saved(amount as int)
                && final(self).depth() == amount,
            amount >= old(self).depth() ==> final(self).table() == old(self).table()
                && final(self).depth() == old(self).depth(),
            forall|k: int| 0 <= k <= final(self).depth() ==> #[trigger] final(self).saved(k) == old(self).saved(k),
    {
        assert(self.history@ =~= old(self).history@.subrange(0, self.stack@.len() + 1 as int));
        while self.stack.len() > amount
            invariant
                self.wf(),
                self.stack@.len() <= old(self).stack@.len(),
                amount < old(self).stack@.len() ==> amount <= self.stack@.len(),
                amount >= old(self).stack@.len() ==> self.stack@.len() == old(self).stack@.len(),
                self.stack@ == old(self).stack@.subrange(0, self.stack@.len() as int),
                self.history@ == old(self).history@.subrange(0, self.stack@.len() + 1 as int),
                old(self).wf(),
            decreases self.stack@.len(),
        {
            let ghost n = (self.stack@.len() - 1) as int;
            let ghost before = self.history@;
            assert(self.stack@[n] == self.stack@[n]);
            let (ident, ty) = self.stack.pop().unwrap();
            match ty {
                Some(t) => {
                    self.tbl.insert(ident.0, t);
                },
                None => {
                    self.tbl.remove(&ident.0);
                },
            };
            proof {
                self.history = Ghost(before.subrange(0, n + 1));
                assert(self.history@ =~= old(self).history@.subrange(0, self.stack@.len() + 1 as int));
                assert(self.tbl@ =~= before[n]);
                assert forall|k: int| #![trigger self.stack@[k]] 0 <= k < self.stack@.len() implies {
                    let x = self.stack@[k].0.0;
                    &&& self.history@[k + 1].contains_key(x)
                    &&& self.history@[k + 1] == self.history@[k].insert(x, self.history@[k + 1][x])
                    &&& self.stack@[k].1 == prior(self.history@[k], x)
                } by {
                    assert(self.stack@[k] == old(self).stack@[k]);
                    assert(old(self).stack@[k] == old(self).stack@[k]);
                }
            }
        }
    }
}

/// Law of scopes: whatever names were bound since the bindings stood at
/// `before`, shadowing outer ones or not, and whatever inner scopes were
/// entered and left, the table on record at the depth of `before` is the
/// table `before` had. Unwinding to that depth (what leaving a scope does)
/// therefore forgets the names bound in the scope and brings back the ones
/// they shadowed.
pub proof fn lemma_scope_restores(before: Bindings, after: Bindings)
    requires
        before.wf(),
        binds_kept(after, before),
    ensures
        after.saved(before.depth() as int) == before.table(),
{
    before.lemma_saved_last();
}

impl Default for Bindings {
    fn default() -> (r: Self)
        ensures
            r.wf(),
            r.table() == Map::<u32, TypeId>::empty(),
            r.depth() == 0,
    {
        let history: Ghost<Seq<Map<u32, TypeId>>> = Ghost(Seq::empty().push(Map::empty()));
        Bindings { tbl: HashMap::new(), stack: Vec::new(), history }
    }
}

/// `e` reports the error `spec` in the program `ast`.
pub open spec fn reports(e: FrontendErr, ast: &Ast, spec: ErrSpec) -> bool {
    e.describes(ast.lexer.src@, ast.lexer.line_offsets@, spec.0, spec.1)
}

/// `after` is `before` with one more error, which reports `spec`.
pub open spec fn logged(after: Seq<FrontendErr>, before: Seq<FrontendErr>, ast: &Ast, spec: ErrSpec) -> bool {
    &&& after.len() == before.len() + 1
    &&& after.drop_last() == before
    &&& reports(after.last(), ast, spec)
}

/// A check gave `r` where the model gives `res`: the same value, or an
/// error that reports the model's error and was also logged.
pub open spec fn outcome<T>(
    r: Result<T, FrontendErr>,
    res: Result<T, ErrSpec>,
    after: Seq<FrontendErr>,
    before: Seq<FrontendErr>,
    ast: &Ast,
) -> bool {
    match res {
        Ok(t) => r == Ok::<T, FrontendErr>(t) && after == before,
        Err(e) => r matches Err(x) && reports(x, ast, e) && logged(after, before, ast, e),
    }
}

/// What the checker has when it goes from one statement to the next: the
/// pool, the type of each name in scope, and the errors reported so far.
pub struct CheckState {
    pub pool: Seq<TypeV>,
    pub table: Map<u32, TypeId>,
    pub errs: Seq<ErrSpec>,
}

/// The state with one more error.
pub open spec fn with_err(st: CheckState, pool: Seq<TypeV>, e: ErrSpec) -> CheckState {
    CheckState { pool, table: st.table, errs: st.errs.push(e) }
}

/// The statement at `id`, and every statement and expression under it, are
/// of the kinds the checker handles, and the annotations it converts name
/// only types among `names` (see `expr_supported`).
pub open spec fn stmt_supported(ast: &Ast, names: Set<u32>, id: int) -> bool
    decreases id,
{
    if !(0 <= id < ast.stmts@.len()) {
        false
    } else {
        match ast.stmts@[id].0 {
            Stmt::Decl(d) => decl_supported(ast, names, d),
            Stmt::Assign { lhs, rhs } => expr_supported(ast, lhs.0 as int) && expr_supported(
                ast,
                rhs.0 as int,
            ),
            Stmt::Block(ids) => forall|k: int|
                0 <= k < ids@.len() ==> ids@[k].0 < id && stmt_supported(ast, names, ids@[k].0 as int),
            Stmt::Expr(e) => expr_supported(ast, e.0 as int),
            _ => false,
        }
    }
}

pub open spec fn decl_supported(ast: &Ast, names: Set<u32>, d: Decl) -> bool {
    &&& expr_supported(ast, d.rhs.0 as int)
    &&& d.annot matches Some(a) ==> annot_declared(ast, names, a.0 as int)
}

/// Checking a declaration: the right side is checked, then compared with
/// the annotation if there is one; without one, a generic function or
/// struct cannot be assigned. On success the name is bound to the type of
/// the right side.
pub open spec fn decl_s(ast: &Ast, ud: Map<u32, TypeId>, st: CheckState, d: Decl, span: Span) -> (
    Result<(), ErrSpec>,
    CheckState,
)
{
    let (rr, p1) = expr_s(ast, st.pool, ud, st.table, d.rhs.0 as int);
    match rr {
        Err(e) => (Err(e), with_err(st, p1, e)),
        Ok(rt) => match d.annot {
            Some(a) => {
                let (p2, at) = annot_s(ast, p1, ud, a.0 as int);
                if ty_eq_spec(p2, at.0 as int, rt.0 as int) {
                    (Ok(()), CheckState { pool: p2, table: st.table.insert(d.ident.0, rt), errs: st.errs })
                } else {
                    let e = ("different types provided in declaration"@, span);
                    (Err(e), with_err(st, p2, e))
                }
            },
            None => {
                let bound = CheckState { pool: p1, table: st.table.insert(d.ident.0, rt), errs: st.errs };
                match p1[rt.0 as int] {
                    TypeV::Func { is_generic, .. } => if is_generic {
                        let e = ("can't assign generic function"@, span);
                        (Err(e), with_err(st, p1, e))
                    } else {
                        (Ok(()), bound)
                    },
                    TypeV::Struct { is_generic, .. } => if is_generic {
                        let e = ("can't assign generic struct"@, span);
                        (Err(e), with_err(st, p1, e))
                    } else {
                        (Ok(()), bound)
                    },
                    _ => (Ok(()), bound),
                }
            },
        },
    }
}

/// Checking the statement at `id` from the state `st`: its outcome and the
/// state after it. A block checks its statements in order, ignoring their
/// outcomes, and then forgets the names bound in it.
pub open spec fn stmt_s(ast: &Ast, ud: Map<u32, TypeId>, st: CheckState, id: int) -> (
    Result<(), ErrSpec>,
    CheckState,
)
    decreases id, 1int, 0int,
{
    if !(0 <= id < ast.stmts@.len()) {
        (Ok(()), st)
    } else {
        let span = ast.stmts@[id].1;
        match ast.stmts@[id].0 {
            Stmt::Decl(d) => decl_s(ast, ud, st, d, span),
            Stmt::Assign { lhs, rhs } => {
                let (rl, p1) = expr_s(ast, st.pool, ud, st.table, lhs.0 as int);
                match rl {
                    Err(e) => (Err(e), with_err(st, p1, e)),
                    Ok(lt) => {
                        let (rr, p2) = expr_s(ast, p1, ud, st.table, rhs.0 as int);
                        match rr {
                            Err(e) => (Err(e), with_err(st, p2, e)),
                            Ok(rt) => if ty_eq_spec(p2, lt.0 as int, rt.0 as int) {
                                (Ok(()), CheckState { pool: p2, ..st })
                            } else {
                                let e = ("assigning value of different type"@, span);
                                (Err(e), with_err(st, p2, e))
                            },
                        }
                    },
                }
            },
            Stmt::Block(ids) => {
                let s1 = block_s(ast, ud, st, id, ids@, ids@.len() as int);
                (Ok(()), CheckState { table: st.table, ..s1 })
            },
            Stmt::Expr(e) => {
                let (r, p1) = expr_s(ast, st.pool, ud, st.table, e.0 as int);
                match r {
                    Err(e) => (Err(e), with_err(st, p1, e)),
                    Ok(_) => (Ok(()), CheckState { pool: p1, ..st }),
                }
            },
            // not reached: `stmt_safe` rules the other kinds out
            _ => (Ok(()), st),
        }
    }
}

/// The state after checking the first `n` statements of `ids` in order.
pub open spec fn block_s(
    ast: &Ast,
    ud: Map<u32, TypeId>,
    st: CheckState,
    owner: int,
    ids: Seq<StmtId>,
    n: int,
) -> CheckState
    decreases owner, 0int, n,
{
    if n <= 0 {
        st
    } else {
        let s1 = block_s(ast, ud, st, owner, ids, n - 1);
        if 0 <= ids[n - 1].0 < owner {
            stmt_s(ast, ud, s1, ids[n - 1].0 as int).1
        } else {
            s1
        }
    }
}

/// Law of declarations: a declaration checks only if its right side
/// checks, and, where it is annotated, the annotation denotes a type
/// structurally equal to the right side's; the name is then bound to the
/// right side's type.
pub proof fn lemma_decl_ok(ast: &Ast, ud: Map<u32, TypeId>, st: CheckState, d: Decl, span: Span)
    ensures
        decl_s(ast, ud, st, d, span).0 is Ok ==> ({
            let (rr, p1) = expr_s(ast, st.pool, ud, st.table, d.rhs.0 as int);
            &&& rr is Ok
            &&& decl_s(ast, ud, st, d, span).1.table == st.table.insert(d.ident.0, rr->Ok_0)
            &&& d.annot matches Some(a) ==> ({
                let (p2, at) = annot_s(ast, p1, ud, a.0 as int);
                ty_eq_spec(p2, at.0 as int, rr->Ok_0.0 as int)
            })
        }),
{
}

/// Law of assignments: an assignment checks only if both sides check, the
/// right side in the pool the left side left, to structurally equal
/// types; it binds nothing.
pub proof fn lemma_assign_ok(ast: &Ast, ud: Map<u32, TypeId>, st: CheckState, id: int)
    requires
        0 <= id < ast.stmts@.len(),
        ast.stmts@[id].0 is Assign,
    ensures
        stmt_s(ast, ud, st, id).0 is Ok ==> ({
            let lhs = ast.stmts@[id].0->lhs;
            let rhs = ast.stmts@[id].0->rhs;
            let (rl, p1) = expr_s(ast, st.pool, ud, st.table, lhs.0 as int);
            let (rr, p2) = expr_s(ast, p1, ud, st.table, rhs.0 as int);
            &&& rl is Ok
            &&& rr is Ok
            &&& ty_eq_spec(p2, rl->Ok_0.0 as int, rr->Ok_0.0 as int)
            &&& stmt_s(ast, ud, st, id).1.table == st.table
        }),
{
}

/// Checking a declaration from `st` reaches only expressions the checker
/// handles, and its annotation, converted once the right side checked,
/// names only types in `ud`.
pub open spec fn decl_safe(ast: &Ast, ud: Map<u32, TypeId>, st: CheckState, d: Decl) -> bool {
    &&& expr_safe(ast, st.pool, ud, st.table, d.rhs.0 as int)
    &&& expr_s(ast, st.pool, ud, st.table, d.rhs.0 as int).0 is Ok ==> (d.annot matches Some(a)
        ==> annot_declared(ast, ud.dom(), a.0 as int))
}

/// Checking the statement at `id` from `st` reaches only statements,
/// expressions and annotations the checker handles (see `expr_safe`).
pub open spec fn stmt_safe(ast: &Ast, ud: Map<u32, TypeId>, st: CheckState, id: int) -> bool
    decreases id, 1int, 0int,
{
    if !(0 <= id < ast.stmts@.len()) {
        false
    } else {
        match ast.stmts@[id].0 {
            Stmt::Decl(d) => decl_safe(ast, ud, st, d),
            Stmt::Assign { lhs, rhs } => {
                &&& expr_safe(ast, st.pool, ud, st.table, lhs.0 as int)
                &&& match expr_s(ast, st.pool, ud, st.table, lhs.0 as int) {
                    (Err(_), _) => true,
                    (Ok(_), p1) => expr_safe(ast, p1, ud, st.table, rhs.0 as int),
                }
            },
            Stmt::Block(ids) => block_safe(ast, ud, st, id, ids@, ids@.len() as int),
            Stmt::Expr(e) => expr_safe(ast, st.pool, ud, st.table, e.0 as int),
            _ => false,
        }
    }
}

/// Checking the first `n` statements of `ids` in order, as `block_s` does,
/// reaches only what the checker handles.
pub open spec fn block_safe(
    ast: &Ast,
    ud: Map<u32, TypeId>,
    st: CheckState,
    owner: int,
    ids: Seq<StmtId>,
    n: int,
) -> bool
    decreases owner, 0int, n,
{
    if n <= 0 {
        true
    } else {
        &&& block_safe(ast, ud, st, owner, ids, n - 1)
        &&& 0 <= ids[n - 1].0 < owner ==> stmt_safe(
            ast,
            ud,
            block_s(ast, ud, st, owner, ids, n - 1),
            ids[n - 1].0 as int,
        )
    }
}

/// Safety of the first `n` statements gives that of the first `k`.
pub proof fn lemma_block_safe_prefix(
    ast: &Ast,
    ud: Map<u32, TypeId>,
    st: CheckState,
    owner: int,
    ids: Seq<StmtId>,
    k: int,
    n: int,
)
    requires
        0 <= k <= n,
        block_safe(ast, ud, st, owner, ids, n),
    ensures
        block_safe(ast, ud, st, owner, ids, k),
    decreases n - k,
{
    if k < n {
        lemma_block_safe_prefix(ast, ud, st, owner, ids, k, n - 1);
    }
}

/// The state after binding the first `n` parameters to the types of their
/// annotations, in order.
pub open spec fn params_s(
    ast: &Ast,
    ud: Map<u32, TypeId>,
    st: CheckState,
    params: Seq<(IdentId, TyAnnotId)>,
    n: int,
) -> CheckState
    decreases n,
{
    if n <= 0 {
        st
    } else {
        let s1 = params_s(ast, ud, st, params, n - 1);
        let (p2, t) = annot_s(ast, s1.pool, ud, params[n - 1].1.0 as int);
        CheckState { pool: p2, table: s1.table.insert(params[n - 1].0.0, t), errs: s1.errs }
    }
}

/// What the checker runs inside a nested scope.
pub enum ScopeBody {
    /// The statements of the block statement at this index.
    Block(StmtId),
    /// The parameters and the body of the function declared by the
    /// top-level item at this index.
    FnBody(StmtId),
}

/// The state after running `body` in a nested scope: the names bound in it
/// are forgotten at its end.
pub open spec fn scope_s(ast: &Ast, ud: Map<u32, TypeId>, st: CheckState, body: ScopeBody) -> CheckState {
    match body {
        ScopeBody::Block(o) => match ast.stmts@[o.0 as int].0 {
            Stmt::Block(ids) => {
                let s1 = block_s(ast, ud, st, o.0 as int, ids@, ids@.len() as int);
                CheckState { table: st.table, ..s1 }
            },
            _ => st,
        },
        ScopeBody::FnBody(t) => match ast.toplvl@[t.0 as int].0 {
            StmtTopLvl::FnDecl { params, block, .. } => {
                let s1 = params_s(ast, ud, st, params@, params@.len() as int);
                let s2 = stmt_s(ast, ud, s1, block.0 as int).1;
                CheckState { table: st.table, ..s2 }
            },
            _ => st,
        },
    }
}

/// Running `body` in a scope from `st` reaches only what the checker
/// handles: the block statement's statements, or the function's
/// parameter annotations and its body.
pub open spec fn scope_safe(ast: &Ast, ud: Map<u32, TypeId>, st: CheckState, body: ScopeBody) -> bool {
    match body {
        ScopeBody::Block(o) => {
            &&& 0 <= o.0 < ast.stmts@.len()
            &&& ast.stmts@[o.0 as int].0 is Block
            &&& stmt_safe(ast, ud, st, o.0 as int)
        },
        ScopeBody::FnBody(t) => {
            &&& 0 <= t.0 < ast.toplvl@.len()
            &&& match ast.toplvl@[t.0 as int].0 {
                StmtTopLvl::FnDecl { params, block, .. } => {
                    &&& forall|k: int|
                        0 <= k < params@.len() ==> #[trigger] annot_declared(
                            ast,
                            ud.dom(),
                            params@[k].1.0 as int,
                        )
                    &&& stmt_safe(
                        ast,
                        ud,
                        params_s(ast, ud, st, params@, params@.len() as int),
                        block.0 as int,
                    )
                },
                _ => false,
            }
        },
    }
}

/// A function declaration whose annotations name declared types and whose
/// body the checker handles.
pub open spec fn fn_supported(ast: &Ast, names: Set<u32>, item: StmtTopLvl) -> bool {
    match item {
        StmtTopLvl::FnDecl { params, ret, block, .. } => {
            &&& forall|k: int|
                0 <= k < params@.len() ==> #[trigger] annot_declared(ast, names, params@[k].1.0 as int)
            &&& ret matches Some(r) ==> annot_declared(ast, names, r.0 as int)
            &&& stmt_supported(ast, names, block.0 as int)
        },
        _ => false,
    }
}

/// The checker's state between top-level items: the user-defined types and
/// the rest of its state.
pub struct TopState {
    pub ud: Map<u32, TypeId>,
    pub st: CheckState,
}

/// The annotations of a list of named entries.
pub open spec fn pair_annots(ps: Seq<(IdentId, TyAnnotId)>) -> Seq<TyAnnotId> {
    ps.map_values(|p: (IdentId, TyAnnotId)| p.1)
}

/// The item declares a struct named `x`.
pub open spec fn declares_struct(item: StmtTopLvl, x: u32) -> bool {
    item matches StmtTopLvl::StructDecl { name, .. } && name.0 == x
}

/// The names the first `n` top-level items declare as structs.
pub open spec fn struct_names_upto(ast: &Ast, n: int) -> Set<u32> {
    Set::new(|x: u32| exists|i: int| 0 <= i < n && #[trigger] declares_struct(ast.toplvl@[i].0, x))
}

/// The names the top-level items declare as structs.
pub open spec fn struct_names(ast: &Ast) -> Set<u32> {
    struct_names_upto(ast, ast.toplvl@.len() as int)
}

/// The checker handles the item, and its annotations name only types
/// among `names`.
pub open spec fn item_supported(ast: &Ast, names: Set<u32>, item: StmtTopLvl) -> bool {
    match item {
        StmtTopLvl::Decl(d) => decl_supported(ast, names, d),
        StmtTopLvl::FnDecl { .. } => fn_supported(ast, names, item),
        StmtTopLvl::StructDecl { fields, .. } => forall|k: int|
            0 <= k < fields@.len() ==> #[trigger] annot_declared(ast, names, fields@[k].1.0 as int),
    }
}

/// The checker handles every part of every top-level item, whatever
/// happens before it is reached (see `lemma_toplvl_safe`).
pub open spec fn toplvl_supported(ast: &Ast, names: Set<u32>) -> bool {
    forall|i: int| 0 <= i < ast.toplvl@.len() ==> #[trigger] item_supported(ast, names, ast.toplvl@[i].0)
}

/// First pass over the first `n` items: each struct is registered under
/// its name, with no fields yet; a name registered before is reported.
pub open spec fn declare_structs_s(ast: &Ast, ts: TopState, n: int) -> TopState
    decreases n,
{
    if n <= 0 {
        ts
    } else {
        let t1 = declare_structs_s(ast, ts, n - 1);
        match ast.toplvl@[n - 1].0 {
            StmtTopLvl::StructDecl { name, generics, .. } => {
                let pool = t1.st.pool;
                let ty = TypeV::Struct { name, fields: Seq::empty(), is_generic: generics@.len() > 0 };
                let st = CheckState { pool: pool.push(ty), ..t1.st };
                let ud = t1.ud.insert(name.0, next_id(pool));
                if t1.ud.contains_key(name.0) {
                    TopState {
                        ud,
                        st: CheckState {
                            errs: st.errs.push(("already declared struct"@, ast.toplvl@[n - 1].1)),
                            ..st
                        },
                    }
                } else {
                    TopState { ud, st }
                }
            },
            _ => t1,
        }
    }
}

/// Second pass over the first `n` items: the fields of each struct and the
/// signature of each function get their types, in order; the struct is
/// registered again with its fields, the function's name is bound to its
/// type.
pub open spec fn declare_items_s(ast: &Ast, ts: TopState, n: int) -> TopState
    decreases n,
{
    if n <= 0 {
        ts
    } else {
        let t1 = declare_items_s(ast, ts, n - 1);
        let owner = ast.annots@.len() as int;
        match ast.toplvl@[n - 1].0 {
            StmtTopLvl::StructDecl { name, fields, generics } => {
                let (p1, fts) = annot_list_s(
                    ast,
                    t1.st.pool,
                    t1.ud,
                    owner,
                    pair_annots(fields@),
                    fields@.len() as int,
                );
                let ty = TypeV::Struct {
                    name,
                    fields: with_ids(fields@, fts),
                    is_generic: generics@.len() > 0,
                };
                TopState {
                    ud: t1.ud.insert(name.0, next_id(p1)),
                    st: CheckState { pool: p1.push(ty), ..t1.st },
                }
            },
            StmtTopLvl::FnDecl { name, params, ret, is_generic, .. } => {
                let (p1, ps) = annot_list_s(
                    ast,
                    t1.st.pool,
                    t1.ud,
                    owner,
                    pair_annots(params@),
                    params@.len() as int,
                );
                let (p2, r) = match ret {
                    Some(r) => annot_s(ast, p1, t1.ud, r.0 as int),
                    None => (p1, TypeId(ty_id::VOID)),
                };
                TopState {
                    ud: t1.ud,
                    st: CheckState {
                        pool: p2.push(TypeV::Func { params: ps, ret: r, is_generic }),
                        table: t1.st.table.insert(name.0, next_id(p2)),
                        errs: t1.st.errs,
                    },
                }
            },
            _ => t1,
        }
    }
}

/// Third pass over the first `n` items: top-level declarations are
/// checked in order.
pub open spec fn check_decls_s(ast: &Ast, ts: TopState, n: int) -> TopState
    decreases n,
{
    if n <= 0 {
        ts
    } else {
        let t1 = check_decls_s(ast, ts, n - 1);
        match ast.toplvl@[n - 1].0 {
            StmtTopLvl::Decl(d) => TopState {
                ud: t1.ud,
                st: decl_s(ast, t1.ud, t1.st, d, ast.toplvl@[n - 1].1).1,
            },
            _ => t1,
        }
    }
}

/// Last pass over the first `n` items: the body of each function is
/// checked in a scope of its own.
pub open spec fn check_bodies_s(ast: &Ast, ts: TopState, n: int) -> TopState
    decreases n,
{
    if n <= 0 {
        ts
    } else {
        let t1 = check_bodies_s(ast, ts, n - 1);
        match ast.toplvl@[n - 1].0 {
            StmtTopLvl::FnDecl { .. } => TopState {
                ud: t1.ud,
                st: scope_s(ast, t1.ud, t1.st, ScopeBody::FnBody(StmtId((n - 1) as u32))),
            },
            _ => t1,
        }
    }
}

/// Checking a whole program from the state `ts`: the four passes in turn.
pub open spec fn toplvl_s(ast: &Ast, ts: TopState) -> TopState {
    let n = ast.toplvl@.len() as int;
    check_bodies_s(
        ast,
        check_decls_s(ast, declare_items_s(ast, declare_structs_s(ast, ts, n), n), n),
        n,
    )
}

/// The annotations of the item that the second pass converts (the fields
/// of a struct, the parameters and result of a function) name only types
/// among `names`.
pub open spec fn sig_declared(ast: &Ast, names: Set<u32>, item: StmtTopLvl) -> bool {
    match item {
        StmtTopLvl::StructDecl { fields, .. } => forall|k: int|
            0 <= k < fields@.len() ==> #[trigger] annot_declared(ast, names, fields@[k].1.0 as int),
        StmtTopLvl::FnDecl { params, ret, .. } => {
            &&& forall|k: int|
                0 <= k < params@.len() ==> #[trigger] annot_declared(
                    ast,
                    names,
                    params@[k].1.0 as int,
                )
            &&& ret matches Some(r) ==> annot_declared(ast, names, r.0 as int)
        },
        StmtTopLvl::Decl(_) => true,
    }
}

/// The third pass over the first `n` items, from `ts`, reaches only what
/// the checker handles.
pub open spec fn decls_safe(ast: &Ast, ts: TopState, n: int) -> bool
    decreases n,
{
    if n <= 0 {
        true
    } else {
        &&& decls_safe(ast, ts, n - 1)
        &&& match ast.toplvl@[n - 1].0 {
            StmtTopLvl::Decl(d) => {
                let t1 = check_decls_s(ast, ts, n - 1);
                decl_safe(ast, t1.ud, t1.st, d)
            },
            _ => true,
        }
    }
}

/// The last pass over the first `n` items, from `ts`, reaches only what
/// the checker handles.
pub open spec fn bodies_safe(ast: &Ast, ts: TopState, n: int) -> bool
    decreases n,
{
    if n <= 0 {
        true
    } else {
        &&& bodies_safe(ast, ts, n - 1)
        &&& match ast.toplvl@[n - 1].0 {
            StmtTopLvl::FnDecl { .. } => {
                let t1 = check_bodies_s(ast, ts, n - 1);
                scope_safe(ast, t1.ud, t1.st, ScopeBody::FnBody(StmtId((n - 1) as u32)))
            },
            _ => true,
        }
    }
}

/// Checking a whole program from `ts` reaches only what the checker
/// handles: in the second pass every annotation names a declared type,
/// and the declarations and function bodies of the last two passes reach
/// only what the checker handles from the states they are checked in.
pub open spec fn toplvl_safe(ast: &Ast, ts: TopState) -> bool {
    let n = ast.toplvl@.len() as int;
    let t1 = declare_structs_s(ast, ts, n);
    let t2 = declare_items_s(ast, t1, n);
    let t3 = check_decls_s(ast, t2, n);
    &&& forall|i: int| 0 <= i < n ==> #[trigger] sig_declared(ast, t1.ud.dom(), ast.toplvl@[i].0)
    &&& decls_safe(ast, t2, n)
    &&& bodies_safe(ast, t3, n)
}

/// Safety of the third pass over `n` items gives it over the first `k`.
pub proof fn lemma_decls_safe_prefix(ast: &Ast, ts: TopState, k: int, n: int)
    requires
        0 <= k <= n,
        decls_safe(ast, ts, n),
    ensures
        decls_safe(ast, ts, k),
    decreases n - k,
{
    if k < n {
        lemma_decls_safe_prefix(ast, ts, k, n - 1);
    }
}

/// Safety of the last pass over `n` items gives it over the first `k`.
pub proof fn lemma_bodies_safe_prefix(ast: &Ast, ts: TopState, k: int, n: int)
    requires
        0 <= k <= n,
        bodies_safe(ast, ts, n),
    ensures
        bodies_safe(ast, ts, k),
    decreases n - k,
{
    if k < n {
        lemma_bodies_safe_prefix(ast, ts, k, n - 1);
    }
}

/// The state a check starts from: the primitive types only, no names.
pub open spec fn initial_state() -> TopState {
    TopState {
        ud: Map::empty(),
        st: CheckState {
            pool: seq![TypeV::Void, TypeV::Void, TypeV::Bool, TypeV::Int, TypeV::Float],
            table: Map::empty(),
            errs: Seq::empty(),
        },
    }
}

/// The ids of the errors as the model writes them: message and span.
pub open spec fn errs_of(v: Seq<FrontendErr>) -> Seq<ErrSpec> {
    v.map_values(|e: FrontendErr| (e.msg@, e.span))
}

/// Every error carries the text, line and column of its span.
pub open spec fn all_reported(v: Seq<FrontendErr>, ast: &Ast) -> bool {
    forall|k: int| 0 <= k < v.len() ==> #[trigger] reports(v[k], ast, (v[k].msg@, v[k].span))
}

/// `after` was reached from `before` by bindings and scopes that ended:
/// no fewer bindings on record, and the tables of the earlier ones kept.
pub open spec fn binds_kept(after: Bindings, before: Bindings) -> bool {
    &&& after.wf()
    &&& after.depth() >= before.depth()
    &&& forall|k: int| 0 <= k <= before.depth() ==> #[trigger] after.saved(k) == before.saved(k)
}

/// A check gave `r` where the model gives `res`: both succeed, or both fail
/// and `r` reports the model's error.
pub open spec fn result_matches(r: Result<(), FrontendErr>, res: Result<(), ErrSpec>, ast: &Ast) -> bool {
    match res {
        Ok(_) => r is Ok,
        Err(e) => r matches Err(x) && reports(x, ast, e),
    }
}

/// An error logged after errors that all report their own message and
/// span extends the model's list of errors by the error it reports.
pub proof fn lemma_logged(after: Seq<FrontendErr>, before: Seq<FrontendErr>, ast: &Ast)
    requires
        all_reported(before, ast),
        after == before || exists|e: ErrSpec| logged(after, before, ast, e),
    ensures
        all_reported(after, ast),
        after == before ==> errs_of(after) == errs_of(before),
        forall|e: ErrSpec| logged(after, before, ast, e) ==> errs_of(after) == errs_of(before).push(e),
{
    if after != before {
        let e = choose|e: ErrSpec| logged(after, before, ast, e);
        assert(after.drop_last() == before);
        assert forall|k: int| 0 <= k < after.len() implies #[trigger] reports(
            after[k],
            ast,
            (after[k].msg@, after[k].span),
        ) by {
            if k < before.len() {
                assert(after[k] == before[k]);
            }
        }
        assert forall|e2: ErrSpec| logged(after, before, ast, e2) implies errs_of(after) == errs_of(
            before,
        ).push(e2) by {
            assert(errs_of(after) =~= errs_of(before).push(e2));
        }
    }
}

/// Copies a list of ids.
fn copy_ids(ids: &Vec<TypeId>) -> (r: Vec<TypeId>)
    ensures
        r@ == ids@,
{
    let mut r: Vec<TypeId> = Vec::new();
    let mut k: usize = 0;
    while k < ids.len()
        invariant
            0 <= k <= ids@.len(),
            r@ == ids@.subrange(0, k as int),
        decreases ids@.len() - k,
    {
        r.push(ids[k]);
        k = k + 1;
    }
    r
}

/// The ids of a list of fields.
fn field_type_ids(fields: &Vec<(IdentId, TypeId)>) -> (r: Vec<TypeId>)
    ensures
        r@ == field_ids(fields@),
{
    let mut r: Vec<TypeId> = Vec::new();
    let mut k: usize = 0;
    while k < fields.len()
        invariant
            0 <= k <= fields@.len(),
            r@ == field_ids(fields@).subrange(0, k as int),
        decreases fields@.len() - k,
    {
        r.push(fields[k].1);
        k = k + 1;
    }
    r
}

/// Once checking a list fails, checking more of it fails the same way.
pub proof fn lemma_args_eq_err(
    ast: &Ast,
    pool: Seq<TypeV>,
    ud: Map<u32, TypeId>,
    binds: Map<u32, TypeId>,
    owner: int,
    ts: Seq<TypeId>,
    es: Seq<ExprId>,
    i: int,
    j: int,
    msg: Seq<char>,
)
    requires
        0 <= i <= j,
        args_eq_s(ast, pool, ud, binds, owner, ts, es, i, msg).0 is Err,
    ensures
        args_eq_s(ast, pool, ud, binds, owner, ts, es, j, msg) == args_eq_s(
            ast,
            pool,
            ud,
            binds,
            owner,
            ts,
            es,
            i,
            msg,
        ),
    decreases j - i,
{
    if i < j {
        lemma_args_eq_err(ast, pool, ud, binds, owner, ts, es, i, j - 1, msg);
    }
}

/// Once matching a list fails, matching more of it fails the same way.
pub proof fn lemma_args_gen_err(
    ast: &Ast,
    pool: Seq<TypeV>,
    ud: Map<u32, TypeId>,
    binds: Map<u32, TypeId>,
    owner: int,
    ts: Seq<TypeId>,
    es: Seq<ExprId>,
    i: int,
    j: int,
    m: Map<u32, TypeId>,
    msg: Seq<char>,
)
    requires
        0 <= i <= j,
        args_gen_s(ast, pool, ud, binds, owner, ts, es, i, m, msg).0 is Err,
    ensures
        args_gen_s(ast, pool, ud, binds, owner, ts, es, j, m, msg) == args_gen_s(
            ast,
            pool,
            ud,
            binds,
            owner,
            ts,
            es,
            i,
            m,
            msg,
        ),
    decreases j - i,
{
    if i < j {
        lemma_args_gen_err(ast, pool, ud, binds, owner, ts, es, i, j - 1, m, msg);
    }
}

/// Checks a program's types, keeping the bindings of the names in scope
/// and every error found, in order.
pub struct Typechecker {
    binds: Bindings,
    pub errors: Vec<FrontendErr>,
}

impl Default for Typechecker {
    fn default() -> (r: Self)
        ensures
            r.wf(5),
            r.table() == Map::<u32, TypeId>::empty(),
            r.reported() == Seq::<FrontendErr>::empty(),
    {
        Typechecker { binds: Bindings::default(), errors: Vec::new() }
    }
}

impl Typechecker {
    pub closed spec fn bindings(&self) -> Bindings {
        self.binds
    }

    /// The errors reported so far, in order.
    pub closed spec fn reported(&self) -> Seq<FrontendErr> {
        self.errors@
    }

    /// The type of each name in scope.
    pub closed spec fn table(&self) -> Map<u32, TypeId> {
        self.binds.table()
    }

    /// The bindings are well formed, and every table they held maps into a
    /// pool of `n` types.
    pub closed spec fn wf(&self, n: int) -> bool {
        &&& self.binds.wf()
        &&& forall|k: int| 0 <= k <= self.binds.depth() ==> #[trigger] map_below(self.binds.saved(k), n)
    }

    /// A pool that grew keeps the bindings within it.
    proof fn lemma_wf_grow(&self, n: int, n2: int)
        requires
            self.wf(n),
            n <= n2,
        ensures
            self.wf(n2),
            map_below(self.table(), n2),
    {
        self.binds.lemma_saved_last();
        assert(map_below(self.binds.saved(self.binds.depth() as int), n));
        assert forall|k: int| 0 <= k <= self.binds.depth() implies #[trigger] map_below(
            self.binds.saved(k),
            n2,
        ) by {
            assert(map_below(self.binds.saved(k), n));
        }
    }

    /// Reports `msg` at `span`: the error is logged and returned.
    fn err(&mut self, ast: &Ast, msg: &str, span: Span) -> (r: FrontendErrAlias)
        requires
            ast.wf(),
            span.start <= span.end <= ast.lexer.src@.len(),
        ensures
            reports(r, ast, (msg@, span)),
            logged(final(self).errors@, old(self).errors@, ast, (msg@, span)),
            final(self).binds == old(self).binds,
    {
        let e = FrontendErr::new(&ast.lexer, msg, span);
        self.errors.push(FrontendErr::new(&ast.lexer, msg, span));
        assert(self.errors@.drop_last() =~= old(self).errors@);
        e
    }

    /// The state the model sees: the pool `pool`, the table of the names in
    /// scope and the errors so far.
    pub closed spec fn state(&self, pool: Seq<TypeV>) -> CheckState {
        CheckState { pool, table: self.binds.table(), errs: errs_of(self.errors@) }
    }

    /// Binds `ident` to `ty` in the current scope.
    fn bind(&mut self, ident: IdentId, ty: TypeId, Ghost(n): Ghost<int>)
        requires
            old(self).wf(n),
            ty.0 < n,
        ensures
            final(self).wf(n),
            final(self).table() == old(self).table().insert(ident.0, ty),
            final(self).errors == old(self).errors,
            binds_kept(final(self).bindings(), old(self).bindings()),
            final(self).bindings().depth() == old(self).bindings().depth() + 1,
    {
        proof {
            self.lemma_wf_grow(n, n);
        }
        self.binds.add(ident, ty);
        proof {
            self.binds.lemma_saved_last();
            assert forall|k: int| 0 <= k <= self.binds.depth() implies #[trigger] map_below(
                self.binds.saved(k),
                n,
            ) by {
                if k < self.binds.depth() {
                    assert(self.binds.saved(k) == old(self).binds.saved(k));
                }
            }
        }
    }

    /// Checks a declaration (see `decl_s`).
    fn check_decl(&mut self, ast: &Ast, types: &mut TypeEnv, decl: &Decl, span: Span) -> (r: Result<
        (),
        FrontendErrAlias,
    >)
        requires
            ast.wf(),
            old(types).wf(),
            old(self).wf(old(types).pool().len() as int),
            all_reported(old(self).errors@, ast),
            decl_safe(ast, old(types).userdefs(), old(self).state(old(types).pool()), *decl),
            span.start <= span.end <= ast.lexer.src@.len(),
        ensures
            final(types).wf(),
            final(types).userdefs() == old(types).userdefs(),
            extends(final(types).pool(), old(types).pool()),
            final(self).wf(final(types).pool().len() as int),
            all_reported(final(self).errors@, ast),
            binds_kept(final(self).bindings(), old(self).bindings()),
            ({
                let (res, st) = decl_s(
                    ast,
                    old(types).userdefs(),
                    old(self).state(old(types).pool()),
                    *decl,
                    span,
                );
                &&& final(self).state(final(types).pool()) == st
                &&& result_matches(r, res, ast)
            }),
    {
        let ghost errs0 = self.errors@;
        let rhs_id = match self.check_expr(ast, types, decl.rhs) {
            Ok(t) => t,
            Err(e) => {
                proof {
                    lemma_logged(self.errors@, errs0, ast);
                }
                return Err(e);
            },
        };
        match decl.annot {
            Some(annot) => {
                let ghost before = types.pool().len();
                let decl_id = self.annot_to_ty(ast, types, annot);
                proof {
                    self.lemma_wf_grow(before as int, types.pool().len() as int);
                }
                if !types.ty_eq(decl_id, rhs_id) {
                    let e = self.err(ast, "different types provided in declaration", span);
                    proof {
                        lemma_logged(self.errors@, errs0, ast);
                    }
                    return Err(e);
                } else {
                    self.bind(decl.ident, rhs_id, Ghost(types.pool().len() as int));
                }
            },
            None => {
                let generic_fn = match types.get(rhs_id) {
                    Type::Func { is_generic, .. } => *is_generic,
                    _ => false,
                };
                let generic_struct = match types.get(rhs_id) {
                    Type::Struct { is_generic, .. } => *is_generic,
                    _ => false,
                };
                if generic_fn {
                    let e = self.err(ast, "can't assign generic function", span);
                    proof {
                        lemma_logged(self.errors@, errs0, ast);
                    }
                    return Err(e);
                }
                if generic_struct {
                    let e = self.err(ast, "can't assign generic struct", span);
                    proof {
                        lemma_logged(self.errors@, errs0, ast);
                    }
                    return Err(e);
                }
                self.bind(decl.ident, rhs_id, Ghost(types.pool().len() as int));
            },
        }
        Ok(())
    }

    /// Checks the statement at `id` (see `stmt_s`).
    fn check_stmt(&mut self, ast: &Ast, types: &mut TypeEnv, id: StmtId) -> (r: Result<
        (),
        FrontendErrAlias,
    >)
        requires
            ast.wf(),
            old(types).wf(),
            old(self).wf(old(types).pool().len() as int),
            all_reported(old(self).errors@, ast),
            stmt_safe(ast, old(types).userdefs(), old(self).state(old(types).pool()), id.0 as int),
        ensures
            final(types).wf(),
            final(types).userdefs() == old(types).userdefs(),
            extends(final(types).pool(), old(types).pool()),
            final(self).wf(final(types).pool().len() as int),
            all_reported(final(self).errors@, ast),
            binds_kept(final(self).bindings(), old(self).bindings()),
            ({
                let (res, st) = stmt_s(
                    ast,
                    old(types).userdefs(),
                    old(self).state(old(types).pool()),
                    id.0 as int,
                );
                &&& final(self).state(final(types).pool()) == st
                &&& result_matches(r, res, ast)
            }),
        decreases id.0, 2int,
    {
        let ghost errs0 = self.errors@;
        let span = ast.stmts[id.0 as usize].1;
        match ast.get_stmt(id) {
            Stmt::Decl(decl) => self.check_decl(ast, types, decl, span),
            Stmt::Assign { lhs, rhs } => {
                let lty = match self.check_expr(ast, types, *lhs) {
                    Ok(t) => t,
                    Err(e) => {
                        proof {
                            lemma_logged(self.errors@, errs0, ast);
                        }
                        return Err(e);
                    },
                };
                let rty = match self.check_expr(ast, types, *rhs) {
                    Ok(t) => t,
                    Err(e) => {
                        proof {
                            lemma_logged(self.errors@, errs0, ast);
                        }
                        return Err(e);
                    },
                };
                if !types.ty_eq(lty, rty) {
                    let e = self.err(ast, "assigning value of different type", span);
                    proof {
                        lemma_logged(self.errors@, errs0, ast);
                    }
                    return Err(e);
                }
                Ok(())
            },
            Stmt::Block(_) => self.check_block(ast, types, id),
            Stmt::Expr(e) => match self.check_expr(ast, types, *e) {
                Ok(_) => Ok(()),
                Err(x) => {
                    proof {
                        lemma_logged(self.errors@, errs0, ast);
                    }
                    Err(x)
                },
            },
            _ => {
                proof {
                    assert(false);
                }
                Ok(())
            },
        }
    }

    /// Checks the block statement at `id` in a scope of its own: the
    /// outcomes of its statements are dropped (their errors stay
    /// reported).
    fn check_block(&mut self, ast: &Ast, types: &mut TypeEnv, id: StmtId) -> (r: Result<
        (),
        FrontendErrAlias,
    >)
        requires
            ast.wf(),
            old(types).wf(),
            old(self).wf(old(types).pool().len() as int),
            all_reported(old(self).errors@, ast),
            scope_safe(
                ast,
                old(types).userdefs(),
                old(self).state(old(types).pool()),
                ScopeBody::Block(id),
            ),
        ensures
            final(types).wf(),
            final(types).userdefs() == old(types).userdefs(),
            extends(final(types).pool(), old(types).pool()),
            final(self).wf(final(types).pool().len() as int),
            all_reported(final(self).errors@, ast),
            binds_kept(final(self).bindings(), old(self).bindings()),
            final(self).bindings().depth() == old(self).bindings().depth(),
            final(self).state(final(types).pool()) == scope_s(
                ast,
                old(types).userdefs(),
                old(self).state(old(types).pool()),
                ScopeBody::Block(id),
            ),
            r is Ok,
        decreases id.0, 1int,
    {
        self.scope(ast, types, ScopeBody::Block(id));
        Ok(())
    }

    /// Runs `body` in a nested scope: the names it binds are forgotten at
    /// its end, and the bindings they shadowed come back.
    pub fn scope(&mut self, ast: &Ast, types: &mut TypeEnv, body: ScopeBody)
        requires
            ast.wf(),
            old(types).wf(),
            old(self).wf(old(types).pool().len() as int),
            all_reported(old(self).reported(), ast),
            scope_safe(ast, old(types).userdefs(), old(self).state(old(types).pool()), body),
        ensures
            final(types).wf(),
            final(types).userdefs() == old(types).userdefs(),
            extends(final(types).pool(), old(types).pool()),
            final(self).wf(final(types).pool().len() as int),
            all_reported(final(self).reported(), ast),
            binds_kept(final(self).bindings(), old(self).bindings()),
            final(self).bindings().depth() == old(self).bindings().depth(),
            final(self).table() == old(self).table(),
            final(self).state(final(types).pool()) == scope_s(
                ast,
                old(types).userdefs(),
                old(self).state(old(types).pool()),
                body,
            ),
        decreases (match body {
            ScopeBody::Block(o) => o.0 as int,
            ScopeBody::FnBody(_) => ast.stmts@.len() as int,
        }), 0int,
    {
        let ghost ud = types.userdefs();
        let ghost st0 = self.state(types.pool());
        let ghost b0 = self.binds;
        let sp = self.binds.stack.len();
        match body {
            ScopeBody::Block(owner) => {
                match ast.get_stmt(owner) {
                    Stmt::Block(ids) => {
                        proof {
                            assert(crate::parser::stmt_ok(
                                ast.stmts@[owner.0 as int].0,
                                owner.0 as int,
                                ast.exprs@.len() as int,
                                ast.annots@.len() as int,
                                ast.idents@.len() as int,
                            ));
                        }
                        let mut i: usize = 0;
                        while i < ids.len()
                            invariant
                                ast.wf(),
                                types.wf(),
                                types.userdefs() == ud,
                                ud == old(types).userdefs(),
                                extends(types.pool(), old(types).pool()),
                                self.wf(types.pool().len() as int),
                                all_reported(self.errors@, ast),
                                binds_kept(self.binds, b0),
                                b0 == old(self).binds,
                                sp == b0.depth(),
                                st0 == old(self).state(old(types).pool()),
                                owner.0 < ast.stmts@.len(),
                                body == ScopeBody::Block(owner),
                                forall|k: int| 0 <= k < ids@.len() ==> ids@[k].0 < owner.0,
                                block_safe(ast, ud, st0, owner.0 as int, ids@, ids@.len() as int),
                                0 <= i <= ids@.len(),
                                self.state(types.pool()) == block_s(
                                    ast,
                                    ud,
                                    st0,
                                    owner.0 as int,
                                    ids@,
                                    i as int,
                                ),
                            decreases ids@.len() - i,
                        {
                            proof {
                                lemma_block_safe_prefix(
                                    ast,
                                    ud,
                                    st0,
                                    owner.0 as int,
                                    ids@,
                                    i + 1,
                                    ids@.len() as int,
                                );
                            }
                            let _ = self.check_stmt(ast, types, ids[i]);
                            i = i + 1;
                        }
                    },
                    _ => {
                        proof {
                            assert(false);
                        }
                    },
                }
            },
            ScopeBody::FnBody(t) => {
                match ast.get_toplvl(t) {
                    StmtTopLvl::FnDecl { params, block, .. } => {
                        let mut i: usize = 0;
                        while i < params.len()
                            invariant
                                ast.wf(),
                                types.wf(),
                                types.userdefs() == ud,
                                ud == old(types).userdefs(),
                                extends(types.pool(), old(types).pool()),
                                self.wf(types.pool().len() as int),
                                all_reported(self.errors@, ast),
                                binds_kept(self.binds, b0),
                                b0 == old(self).binds,
                                sp == b0.depth(),
                                st0 == old(self).state(old(types).pool()),
                                forall|k: int|
                                    0 <= k < params@.len() ==> #[trigger] annot_declared(
                                        ast,
                                        ud.dom(),
                                        params@[k].1.0 as int,
                                    ),
                                0 <= i <= params@.len(),
                                self.state(types.pool()) == params_s(
                                    ast,
                                    ud,
                                    st0,
                                    params@,
                                    i as int,
                                ),
                            decreases params@.len() - i,
                        {
                            let ghost before = types.pool().len();
                            let ty = self.annot_to_ty(ast, types, params[i].1);
                            proof {
                                self.lemma_wf_grow(before as int, types.pool().len() as int);
                            }
                            self.bind(params[i].0, ty, Ghost(types.pool().len() as int));
                            i = i + 1;
                        }
                        let _ = self.check_stmt(ast, types, *block);
                    },
                    _ => {
                        proof {
                            assert(false);
                        }
                    },
                }
            },
        }
        self.binds.unwind(sp);
        proof {
            b0.lemma_saved_last();
            self.binds.lemma_saved_last();
        }
    }

    /// The type the annotation `id` denotes (see `annot_s`).
    pub fn annot_to_ty(&mut self, ast: &Ast, types: &mut TypeEnv, id: TyAnnotId) -> (r: TypeId)
        requires
            ast.wf(),
            old(types).wf(),
            annot_declared(ast, old(types).userdefs().dom(), id.0 as int),
        ensures
            final(types).wf(),
            final(types).userdefs() == old(types).userdefs(),
            extends(final(types).pool(), old(types).pool()),
            *final(self) == *old(self),
            r.0 < final(types).pool().len(),
            (final(types).pool(), r) == annot_s(ast, old(types).pool(), old(types).userdefs(), id.0 as int),
        decreases id.0, 1int,
    {
        let ghost pool0 = types.pool();
        let ghost ud = types.userdefs();
        let t = match ast.get_annot(id) {
            TyAnnot::Bool => {
                return TypeId(ty_id::BOOL);
            },
            TyAnnot::Int => {
                return TypeId(ty_id::INT);
            },
            TyAnnot::Float => {
                return TypeId(ty_id::FLOAT);
            },
            TyAnnot::UserDef { name, .. } => {
                return types.lookup_id(*name).unwrap();
            },
            TyAnnot::Generic(ident) => Type::Generic(*ident),
            TyAnnot::Array { inner, .. } => {
                let inner_id = self.annot_to_ty(ast, types, *inner);
                Type::Array { inner: inner_id, len: 0 }
            },
            TyAnnot::Func { params, ret } => {
                let mut ps: Vec<TypeId> = Vec::new();
                let mut i: usize = 0;
                while i < params.len()
                    invariant
                        ast.wf(),
                        types.wf(),
                        types.userdefs() == ud,
                        ud == old(types).userdefs(),
                        pool0 == old(types).pool(),
                        extends(types.pool(), pool0),
                        *self == *old(self),
                        id.0 < ast.annots@.len(),
                        forall|k: int|
                            0 <= k < params@.len() ==> params@[k].0 < id.0 && annot_declared(
                                ast,
                                ud.dom(),
                                params@[k].0 as int,
                            ),
                        0 <= i <= params@.len(),
                        ids_below(ps@, types.pool().len() as int),
                        annot_list_s(ast, pool0, ud, id.0 as int, params@, i as int) == (
                            types.pool(),
                            ps@,
                        ),
                    decreases params@.len() - i,
                {
                    let t = self.annot_to_ty(ast, types, params[i]);
                    ps.push(t);
                    i = i + 1;
                }
                let ret_id = match ret {
                    Some(r) => self.annot_to_ty(ast, types, *r),
                    None => TypeId(ty_id::VOID),
                };
                Type::Func { params: ps, ret: ret_id, is_generic: false }
            },
        };
        proof {
            lemma_next_id_below(types.pool());
        }
        types.add_ty(t)
    }

    /// Checks the expression at `id` (see `expr_s`).
    fn check_expr(&mut self, ast: &Ast, types: &mut TypeEnv, id: ExprId) -> (r: Result<TypeId, FrontendErrAlias>)
        requires
            ast.wf(),
            old(types).wf(),
            old(self).wf(old(types).pool().len() as int),
            expr_safe(
                ast,
                old(types).pool(),
                old(types).userdefs(),
                old(self).table(),
                id.0 as int,
            ),
        ensures
            final(types).wf(),
            final(types).userdefs() == old(types).userdefs(),
            extends(final(types).pool(), old(types).pool()),
            final(self).bindings() == old(self).bindings(),
            final(self).wf(final(types).pool().len() as int),
            r matches Ok(t) ==> t.0 < final(types).pool().len(),
            ({
                let (res, p) = expr_s(
                    ast,
                    old(types).pool(),
                    old(types).userdefs(),
                    old(self).table(),
                    id.0 as int,
                );
                &&& final(types).pool() == p
                &&& outcome(r, res, final(self).errors@, old(self).errors@, ast)
            }),
        decreases id.0, 2int,
    {
        proof {
            self.lemma_wf_grow(types.pool().len() as int, types.pool().len() as int);
        }
        let span = ast.exprs[id.0 as usize].1;
        match ast.get_expr(id) {
            Expr::Literal(lit) => match lit {
                ExprLiteral::Bool(_) => Ok(TypeId(ty_id::BOOL)),
                ExprLiteral::Int(_) => Ok(TypeId(ty_id::INT)),
                ExprLiteral::Float(_) => Ok(TypeId(ty_id::FLOAT)),
                ExprLiteral::Struct(ident, members) => self.check_struct_lit(
                    ast,
                    types,
                    id,
                    *ident,
                    members,
                ),
                ExprLiteral::Array(_) => {
                    proof {
                        assert(false);
                    }
                    Ok(TypeId(ty_id::VOID))
                },
            },
            Expr::Variable(ident) => match self.binds.get(*ident) {
                Some(t) => Ok(t),
                None => Err(self.err(ast, "undeclared variable", span)),
            },
            Expr::Call { callee, args } => self.check_call(ast, types, id, *callee, args),
            _ => {
                proof {
                    assert(false);
                }
                Ok(TypeId(ty_id::VOID))
            },
        }
    }
    /// Checks the expressions `es` against the types `ts` they must equal
    /// (see `args_eq_s`).
    fn check_args_eq(
        &mut self,
        ast: &Ast,
        types: &mut TypeEnv,
        owner: ExprId,
        ts: &Vec<TypeId>,
        es: &Vec<ExprId>,
        msg: &str,
    ) -> (r: Result<(), FrontendErrAlias>)
        requires
            ast.wf(),
            old(types).wf(),
            old(self).wf(old(types).pool().len() as int),
            owner.0 < ast.exprs@.len(),
            ts@.len() == es@.len(),
            ids_below(ts@, old(types).pool().len() as int),
            forall|k: int| 0 <= k < es@.len() ==> es@[k].0 < owner.0,
            args_eq_safe(
                ast,
                old(types).pool(),
                old(types).userdefs(),
                old(self).table(),
                owner.0 as int,
                ts@,
                es@,
                es@.len() as int,
                msg@,
            ),
        ensures
            final(types).wf(),
            final(types).userdefs() == old(types).userdefs(),
            extends(final(types).pool(), old(types).pool()),
            final(self).bindings() == old(self).bindings(),
            final(self).wf(final(types).pool().len() as int),
            ({
                let (res, p) = args_eq_s(
                    ast,
                    old(types).pool(),
                    old(types).userdefs(),
                    old(self).table(),
                    owner.0 as int,
                    ts@,
                    es@,
                    es@.len() as int,
                    msg@,
                );
                &&& final(types).pool() == p
                &&& outcome(r, res, final(self).errors@, old(self).errors@, ast)
            }),
        decreases owner.0, 0int,
    {
        let ghost pool0 = types.pool();
        let ghost ud = types.userdefs();
        let ghost tbl = self.table();
        let span = ast.exprs[owner.0 as usize].1;
        let mut i: usize = 0;
        while i < es.len()
            invariant
                ast.wf(),
                types.wf(),
                types.userdefs() == ud,
                extends(types.pool(), pool0),
                self.bindings() == old(self).bindings(),
                self.wf(types.pool().len() as int),
                tbl == old(self).table(),
                ud == old(types).userdefs(),
                pool0 == old(types).pool(),
                self.errors@ == old(self).errors@,
                owner.0 < ast.exprs@.len(),
                span == expr_span(ast, owner.0 as int),
                ts@.len() == es@.len(),
                ids_below(ts@, pool0.len() as int),
                forall|k: int| 0 <= k < es@.len() ==> es@[k].0 < owner.0,
                args_eq_safe(ast, pool0, ud, tbl, owner.0 as int, ts@, es@, es@.len() as int, msg@),
                0 <= i <= es@.len(),
                args_eq_s(ast, pool0, ud, tbl, owner.0 as int, ts@, es@, i as int, msg@) == (
                    Ok::<(), ErrSpec>(()),
                    types.pool(),
                ),
            decreases es@.len() - i,
        {
            proof {
                lemma_args_eq_safe_prefix(ast, pool0, ud, tbl, owner.0 as int, ts@, es@, i + 1, es@.len() as int, msg@);
            }
            let t = match self.check_expr(ast, types, es[i]) {
                Ok(t) => t,
                Err(e) => {
                    proof {
                        lemma_args_eq_err(
                            ast,
                            pool0,
                            ud,
                            tbl,
                            owner.0 as int,
                            ts@,
                            es@,
                            i + 1,
                            es@.len() as int,
                            msg@,
                        );
                    }
                    return Err(e);
                },
            };
            if !types.ty_eq(ts[i], t) {
                let e = self.err(ast, msg, span);
                proof {
                    lemma_args_eq_err(
                        ast,
                        pool0,
                        ud,
                        tbl,
                        owner.0 as int,
                        ts@,
                        es@,
                        i + 1,
                        es@.len() as int,
                        msg@,
                    );
                }
                return Err(e);
            }
            i = i + 1;
        }
        Ok(())
    }

    /// Matches the generic types `ts` against the types of the expressions
    /// `es`, extending `map` (see `args_gen_s`).
    fn check_args_gen(
        &mut self,
        ast: &Ast,
        types: &mut TypeEnv,
        owner: ExprId,
        ts: &Vec<TypeId>,
        es: &Vec<ExprId>,
        map: &mut HashMap<u32, TypeId>,
        msg: &str,
    ) -> (r: Result<(), FrontendErrAlias>)
        requires
            ast.wf(),
            old(types).wf(),
            old(self).wf(old(types).pool().len() as int),
            owner.0 < ast.exprs@.len(),
            ts@.len() == es@.len(),
            ids_below(ts@, old(types).pool().len() as int),
            map_below(old(map)@, old(types).pool().len() as int),
            forall|k: int| 0 <= k < es@.len() ==> es@[k].0 < owner.0,
            args_gen_safe(
                ast,
                old(types).pool(),
                old(types).userdefs(),
                old(self).table(),
                owner.0 as int,
                ts@,
                es@,
                es@.len() as int,
                old(map)@,
                msg@,
            ),
        ensures
            final(types).wf(),
            final(types).userdefs() == old(types).userdefs(),
            extends(final(types).pool(), old(types).pool()),
            final(self).bindings() == old(self).bindings(),
            final(self).wf(final(types).pool().len() as int),
            map_below(final(map)@, final(types).pool().len() as int),
            ({
                let (res, p) = args_gen_s(
                    ast,
                    old(types).pool(),
                    old(types).userdefs(),
                    old(self).table(),
                    owner.0 as int,
                    ts@,
                    es@,
                    es@.len() as int,
                    old(map)@,
                    msg@,
                );
                &&& final(types).pool() == p
                &&& res matches Ok(m) ==> final(map)@ == m
                &&& outcome(
                    match r {
                        Ok(_) => Ok::<(), FrontendErr>(()),
                        Err(e) => Err(e),
                    },
                    match res {
                        Ok(_) => Ok::<(), ErrSpec>(()),
                        Err(e) => Err(e),
                    },
                    final(self).errors@,
                    old(self).errors@,
                    ast,
                )
            }),
        decreases owner.0, 0int,
    {
        let ghost pool0 = types.pool();
        let ghost ud = types.userdefs();
        let ghost tbl = self.table();
        let ghost m0 = map@;
        let span = ast.exprs[owner.0 as usize].1;
        let mut i: usize = 0;
        while i < es.len()
            invariant
                ast.wf(),
                types.wf(),
                types.userdefs() == ud,
                extends(types.pool(), pool0),
                self.bindings() == old(self).bindings(),
                self.wf(types.pool().len() as int),
                tbl == old(self).table(),
                ud == old(types).userdefs(),
                pool0 == old(types).pool(),
                self.errors@ == old(self).errors@,
                owner.0 < ast.exprs@.len(),
                span == expr_span(ast, owner.0 as int),
                ts@.len() == es@.len(),
                ids_below(ts@, pool0.len() as int),
                forall|k: int| 0 <= k < es@.len() ==> es@[k].0 < owner.0,
                args_gen_safe(ast, pool0, ud, tbl, owner.0 as int, ts@, es@, es@.len() as int, m0, msg@),
                0 <= i <= es@.len(),
                m0 == old(map)@,
                map_below(map@, types.pool().len() as int),
                args_gen_s(ast, pool0, ud, tbl, owner.0 as int, ts@, es@, i as int, m0, msg@) == (
                    Ok::<Map<u32, TypeId>, ErrSpec>(map@),
                    types.pool(),
                ),
            decreases es@.len() - i,
        {
            proof {
                lemma_args_gen_safe_prefix(ast, pool0, ud, tbl, owner.0 as int, ts@, es@, i + 1, es@.len() as int, m0, msg@);
            }
            let t = match self.check_expr(ast, types, es[i]) {
                Ok(t) => t,
                Err(e) => {
                    proof {
                        lemma_args_gen_err(
                            ast,
                            pool0,
                            ud,
                            tbl,
                            owner.0 as int,
                            ts@,
                            es@,
                            i + 1,
                            es@.len() as int,
                            m0,
                            msg@,
                        );
                    }
                    return Err(e);
                },
            };
            if types.generic_eq(ts[i], t, map).is_none() {
                let e = self.err(ast, msg, span);
                proof {
                    lemma_args_gen_err(
                        ast,
                        pool0,
                        ud,
                        tbl,
                        owner.0 as int,
                        ts@,
                        es@,
                        i + 1,
                        es@.len() as int,
                        m0,
                        msg@,
                    );
                }
                return Err(e);
            }
            i = i + 1;
        }
        Ok(())
    }

    /// Checks the struct literal at `id` (see `expr_s`).
    fn check_struct_lit(
        &mut self,
        ast: &Ast,
        types: &mut TypeEnv,
        id: ExprId,
        ident: IdentId,
        members: &Vec<ExprId>,
    ) -> (r: Result<TypeId, FrontendErrAlias>)
        requires
            ast.wf(),
            old(types).wf(),
            old(self).wf(old(types).pool().len() as int),
            expr_safe(
                ast,
                old(types).pool(),
                old(types).userdefs(),
                old(self).table(),
                id.0 as int,
            ),
            ast.exprs@[id.0 as int].0 == Expr::Literal(ExprLiteral::Struct(ident, *members)),
        ensures
            final(types).wf(),
            final(types).userdefs() == old(types).userdefs(),
            extends(final(types).pool(), old(types).pool()),
            final(self).bindings() == old(self).bindings(),
            final(self).wf(final(types).pool().len() as int),
            r matches Ok(t) ==> t.0 < final(types).pool().len(),
            ({
                let (res, p) = expr_s(
                    ast,
                    old(types).pool(),
                    old(types).userdefs(),
                    old(self).table(),
                    id.0 as int,
                );
                &&& final(types).pool() == p
                &&& outcome(r, res, final(self).errors@, old(self).errors@, ast)
            }),
        decreases id.0, 1int,
    {
        let span = ast.exprs[id.0 as usize].1;
        let (name, fids, is_generic) = match types.lookup_ty(ident) {
            None => {
                return Err(self.err(ast, "undeclared struct name", span));
            },
            Some(Type::Struct { name, fields, is_generic }) => {
                if fields.len() != members.len() {
                    return Err(self.err(ast, "wrong fields count in struct literal", span));
                }
                (*name, field_type_ids(fields), *is_generic)
            },
            Some(_) => {
                return Err(self.err(ast, "wrong name type for struct literal", span));
            },
        };
        let ghost sid = types.userdefs()[ident.0];
        assert(type_below(types.pool()[sid.0 as int], sid.0 as int));
        if is_generic {
            let mut map: HashMap<u32, TypeId> = HashMap::new();
            match self.check_args_gen(
                ast,
                types,
                id,
                &fids,
                members,
                &mut map,
                "impossible to instantiate generic struct",
            ) {
                Ok(()) => {},
                Err(e) => {
                    return Err(e);
                },
            }
            let struct_id = types.lookup_id(name).unwrap();
            let ghost before = types.pool().len();
            let inst = types.instantiate_generic(struct_id, &map);
            proof {
                self.lemma_wf_grow(before as int, types.pool().len() as int);
            }
            match inst {
                Some(t) => Ok(t),
                None => Err(self.err(ast, "impossible to instantiate generic struct", span)),
            }
        } else {
            match self.check_args_eq(
                ast,
                types,
                id,
                &fids,
                members,
                "invalid members in struct literal",
            ) {
                Ok(()) => {},
                Err(e) => {
                    return Err(e);
                },
            }
            Ok(types.lookup_id(name).unwrap())
        }
    }

    /// Checks the call at `id` (see `expr_s`).
    fn check_call(
        &mut self,
        ast: &Ast,
        types: &mut TypeEnv,
        id: ExprId,
        callee: ExprId,
        args: &Vec<ExprId>,
    ) -> (r: Result<TypeId, FrontendErrAlias>)
        requires
            ast.wf(),
            old(types).wf(),
            old(self).wf(old(types).pool().len() as int),
            expr_safe(
                ast,
                old(types).pool(),
                old(types).userdefs(),
                old(self).table(),
                id.0 as int,
            ),
            ast.exprs@[id.0 as int].0 == (Expr::Call { callee, args: *args }),
        ensures
            final(types).wf(),
            final(types).userdefs() == old(types).userdefs(),
            extends(final(types).pool(), old(types).pool()),
            final(self).bindings() == old(self).bindings(),
            final(self).wf(final(types).pool().len() as int),
            r matches Ok(t) ==> t.0 < final(types).pool().len(),
            ({
                let (res, p) = expr_s(
                    ast,
                    old(types).pool(),
                    old(types).userdefs(),
                    old(self).table(),
                    id.0 as int,
                );
                &&& final(types).pool() == p
                &&& outcome(r, res, final(self).errors@, old(self).errors@, ast)
            }),
        decreases id.0, 1int,
    {
        let span = ast.exprs[id.0 as usize].1;
        let callee_id = match self.check_expr(ast, types, callee) {
            Ok(t) => t,
            Err(e) => {
                return Err(e);
            },
        };
        assert(type_below(types.pool()[callee_id.0 as int], callee_id.0 as int));
        let (params, ret, is_generic) = match types.get(callee_id) {
            Type::Func { params, ret, is_generic } => {
                if params.len() != args.len() {
                    return Err(self.err(ast, "wrong arguments count in function call", span));
                }
                (copy_ids(params), *ret, *is_generic)
            },
            _ => {
                return Err(self.err(ast, "can't do function call on non function type", span));
            },
        };
        if is_generic {
            let mut map: HashMap<u32, TypeId> = HashMap::new();
            match self.check_args_gen(
                ast,
                types,
                id,
                &params,
                args,
                &mut map,
                "impossible to instantiate generic function",
            ) {
                Ok(()) => {},
                Err(e) => {
                    return Err(e);
                },
            }
            let ghost before = types.pool().len();
            let inst = types.instantiate_generic(callee_id, &map);
            proof {
                self.lemma_wf_grow(before as int, types.pool().len() as int);
            }
            let instance_id = match inst {
                Some(t) => t,
                None => {
                    return Err(self.err(ast, "impossible to infer function return type", span));
                },
            };
            assert(type_below(types.pool()[instance_id.0 as int], instance_id.0 as int));
            match types.get(instance_id) {
                Type::Func { ret, .. } => Ok(*ret),
                _ => Err(self.err(ast, "impossible to infer function return type", span)),
            }
        } else {
            match self.check_args_eq(
                ast,
                types,
                id,
                &params,
                args,
                "invalid arguments in function call",
            ) {
                Ok(()) => {},
                Err(e) => {
                    return Err(e);
                },
            }
            Ok(ret)
        }
    }
    /// Checks a whole program (see `toplvl_s`).
    fn check_toplvl(&mut self, ast: &Ast, types: &mut TypeEnv)
        requires
            ast.wf(),
            old(types).wf(),
            old(self).wf(old(types).pool().len() as int),
            all_reported(old(self).errors@, ast),
            toplvl_safe(
                ast,
                TopState { ud: old(types).userdefs(), st: old(self).state(old(types).pool()) },
            ),
        ensures
            final(types).wf(),
            final(self).wf(final(types).pool().len() as int),
            all_reported(final(self).errors@, ast),
            (TopState { ud: final(types).userdefs(), st: final(self).state(final(types).pool()) })
                == toplvl_s(
                ast,
                TopState { ud: old(types).userdefs(), st: old(self).state(old(types).pool()) },
            ),
    {
        let ghost ts0 = TopState { ud: types.userdefs(), st: self.state(types.pool()) };
        let ghost d0 = types.userdefs().dom();
        let ghost names = d0 + struct_names(ast);
        let n = ast.toplvl.len();
        // first pass: struct names
        let mut i: usize = 0;
        while i < n
            invariant
                ast.wf(),
                n == ast.toplvl@.len(),
                types.wf(),
                self.wf(types.pool().len() as int),
                all_reported(self.errors@, ast),
                0 <= i <= n,
                types.userdefs().dom() == d0 + struct_names_upto(ast, i as int),
                (TopState { ud: types.userdefs(), st: self.state(types.pool()) })
                    == declare_structs_s(ast, ts0, i as int),
            decreases n - i,
        {
            let ghost before = self.errors@;
            let ghost len0 = types.pool().len();
            let span = ast.toplvl[i].1;
            match &ast.toplvl[i].0 {
                StmtTopLvl::StructDecl { name, generics, .. } => {
                    let ty = Type::Struct {
                        name: *name,
                        fields: Vec::new(),
                        is_generic: generics.len() != 0,
                    };
                    proof {
                        lemma_next_id_below(types.pool());
                    }
                    match types.add_userdef(*name, ty) {
                        Some(_) => {},
                        None => {
                            let _ = self.err(ast, "already declared struct", span);
                            proof {
                                lemma_logged(self.errors@, before, ast);
                            }
                        },
                    }
                },
                _ => {},
            }
            proof {
                self.lemma_wf_grow(len0 as int, types.pool().len() as int);
                assert forall|x: u32|
                    #![trigger struct_names_upto(ast, i + 1).contains(x)]
                    struct_names_upto(ast, i + 1).contains(x) == (struct_names_upto(
                        ast,
                        i as int,
                    ).contains(x) || declares_struct(ast.toplvl@[i as int].0, x)) by {
                    if struct_names_upto(ast, i + 1).contains(x) {
                        let j = choose|j: int|
                            0 <= j < i + 1 && #[trigger] declares_struct(ast.toplvl@[j].0, x);
                        if j < i {
                            assert(struct_names_upto(ast, i as int).contains(x));
                        }
                    }
                    if struct_names_upto(ast, i as int).contains(x) {
                        let j = choose|j: int|
                            0 <= j < i && #[trigger] declares_struct(ast.toplvl@[j].0, x);
                        assert(0 <= j < i + 1 && declares_struct(ast.toplvl@[j].0, x));
                    }
                    if declares_struct(ast.toplvl@[i as int].0, x) {
                        assert(0 <= i < i + 1 && declares_struct(ast.toplvl@[i as int].0, x));
                    }
                }
                assert(types.userdefs().dom() =~= d0 + struct_names_upto(ast, i + 1));
            }
            i = i + 1;
        }
        assert(types.userdefs().dom() == names);
        let ghost ts1 = TopState { ud: types.userdefs(), st: self.state(types.pool()) };
        proof {
            assert(ts1 == declare_structs_s(ast, ts0, n as int));
            assert forall|j: int| 0 <= j < n implies #[trigger] sig_declared(
                ast,
                names,
                ast.toplvl@[j].0,
            ) by {
                assert(sig_declared(
                    ast,
                    declare_structs_s(ast, ts0, n as int).ud.dom(),
                    ast.toplvl@[j].0,
                ));
            }
        }
        // second pass: struct fields and function signatures
        let mut i: usize = 0;
        while i < n
            invariant
                ast.wf(),
                n == ast.toplvl@.len(),
                types.wf(),
                self.wf(types.pool().len() as int),
                all_reported(self.errors@, ast),
                0 <= i <= n,
                types.userdefs().dom() == names,
                names == d0 + struct_names(ast),
                forall|j: int|
                    0 <= j < n ==> #[trigger] sig_declared(ast, names, ast.toplvl@[j].0),
                (TopState { ud: types.userdefs(), st: self.state(types.pool()) })
                    == declare_items_s(ast, ts1, i as int),
            decreases n - i,
        {
            let ghost t_prev = TopState { ud: types.userdefs(), st: self.state(types.pool()) };
            let ghost len0 = types.pool().len();
            let ghost ud = types.userdefs();
            let ghost c0 = *self;
            assert(sig_declared(ast, names, ast.toplvl@[i as int].0));
            match &ast.toplvl[i].0 {
                StmtTopLvl::StructDecl { name, fields, generics } => {
                    let mut fs: Vec<(IdentId, TypeId)> = Vec::new();
                    let ghost ids = pair_annots(fields@);
                    let mut k: usize = 0;
                    while k < fields.len()
                        invariant
                            ast.wf(),
                            types.wf(),
                            types.userdefs() == ud,
                            ud.dom() == names,
                            extends(types.pool(), t_prev.st.pool),
                            t_prev.st.pool.len() == len0,
                            *self == c0,
                            ids == pair_annots(fields@),
                            forall|j: int|
                                0 <= j < fields@.len() ==> #[trigger] annot_declared(
                                    ast,
                                    names,
                                    fields@[j].1.0 as int,
                                ),
                            0 <= k <= fields@.len(),
                            fs@.len() == k,
                            forall|j: int| 0 <= j < k ==> #[trigger] fs@[j].0 == fields@[j].0,
                            field_ids_below(fs@, types.pool().len() as int),
                            annot_list_s(
                                ast,
                                t_prev.st.pool,
                                ud,
                                ast.annots@.len() as int,
                                ids,
                                k as int,
                            ) == (types.pool(), field_ids(fs@)),
                        decreases fields@.len() - k,
                    {
                        assert(annot_declared(ast, names, fields@[k as int].1.0 as int));
                        assert(ids[k as int] == fields@[k as int].1);
                        let t = self.annot_to_ty(ast, types, fields[k].1);
                        let ghost before = fs@;
                        fs.push((fields[k].0, t));
                        proof {
                            assert(field_ids(fs@) =~= field_ids(before).push(t));
                            assert forall|j: int| 0 <= j < fs@.len() implies #[trigger] fs@[j].1.0
                                < types.pool().len() by {
                                if j < before.len() {
                                    assert(fs@[j] == before[j]);
                                }
                            }
                        }
                        k = k + 1;
                    }
                    proof {
                        assert forall|j: int| 0 <= j < fs@.len() implies #[trigger] fs@[j] == with_ids(
                            fields@,
                            field_ids(fs@),
                        )[j] by {
                            assert(fs@[j].0 == fields@[j].0);
                        }
                        assert(fs@ =~= with_ids(fields@, field_ids(fs@)));
                        lemma_next_id_below(types.pool());
                    }
                    let ty = Type::Struct { name: *name, fields: fs, is_generic: generics.len() != 0 };
                    let _ = types.add_userdef(*name, ty);
                    proof {
                        assert(declares_struct(ast.toplvl@[i as int].0, name.0));
                        assert(struct_names(ast).contains(name.0));
                        assert(types.userdefs().dom() =~= names);
                        self.lemma_wf_grow(len0 as int, types.pool().len() as int);
                    }
                },
                StmtTopLvl::FnDecl { name, params, ret, is_generic, .. } => {
                    let mut ps: Vec<TypeId> = Vec::new();
                    let ghost ids = pair_annots(params@);
                    let mut k: usize = 0;
                    while k < params.len()
                        invariant
                            ast.wf(),
                            types.wf(),
                            types.userdefs() == ud,
                            ud.dom() == names,
                            extends(types.pool(), t_prev.st.pool),
                            t_prev.st.pool.len() == len0,
                            *self == c0,
                            ids == pair_annots(params@),
                            forall|j: int|
                                0 <= j < params@.len() ==> #[trigger] annot_declared(
                                    ast,
                                    names,
                                    params@[j].1.0 as int,
                                ),
                            0 <= k <= params@.len(),
                            ids_below(ps@, types.pool().len() as int),
                            annot_list_s(
                                ast,
                                t_prev.st.pool,
                                ud,
                                ast.annots@.len() as int,
                                ids,
                                k as int,
                            ) == (types.pool(), ps@),
                        decreases params@.len() - k,
                    {
                        assert(annot_declared(ast, names, params@[k as int].1.0 as int));
                        assert(ids[k as int] == params@[k as int].1);
                        let t = self.annot_to_ty(ast, types, params[k].1);
                        ps.push(t);
                        k = k + 1;
                    }
                    let ret_id = match ret {
                        Some(r) => self.annot_to_ty(ast, types, *r),
                        None => TypeId(ty_id::VOID),
                    };
                    proof {
                        lemma_next_id_below(types.pool());
                    }
                    let ty = Type::Func { params: ps, ret: ret_id, is_generic: *is_generic };
                    let id = types.add_ty(ty);
                    proof {
                        self.lemma_wf_grow(len0 as int, types.pool().len() as int);
                    }
                    self.bind(*name, id, Ghost(types.pool().len() as int));
                },
                StmtTopLvl::Decl(_) => {},
            }
            i = i + 1;
        }
        let ghost ts2 = TopState { ud: types.userdefs(), st: self.state(types.pool()) };
        // third pass: top-level declarations
        let mut i: usize = 0;
        while i < n
            invariant
                ast.wf(),
                n == ast.toplvl@.len(),
                types.wf(),
                self.wf(types.pool().len() as int),
                all_reported(self.errors@, ast),
                0 <= i <= n,
                types.userdefs().dom() == names,
                types.userdefs() == ts2.ud,
                decls_safe(ast, ts2, n as int),
                (TopState { ud: types.userdefs(), st: self.state(types.pool()) })
                    == check_decls_s(ast, ts2, i as int),
            decreases n - i,
        {
            proof {
                lemma_decls_safe_prefix(ast, ts2, i + 1, n as int);
            }
            let span = ast.toplvl[i].1;
            match &ast.toplvl[i].0 {
                StmtTopLvl::Decl(decl) => {
                    let _ = self.check_decl(ast, types, decl, span);
                },
                _ => {},
            }
            i = i + 1;
        }
        let ghost ts3 = TopState { ud: types.userdefs(), st: self.state(types.pool()) };
        // last pass: function bodies
        let mut i: usize = 0;
        while i < n
            invariant
                ast.wf(),
                n == ast.toplvl@.len(),
                types.wf(),
                self.wf(types.pool().len() as int),
                all_reported(self.errors@, ast),
                0 <= i <= n,
                types.userdefs().dom() == names,
                types.userdefs() == ts3.ud,
                bodies_safe(ast, ts3, n as int),
                (TopState { ud: types.userdefs(), st: self.state(types.pool()) })
                    == check_bodies_s(ast, ts3, i as int),
            decreases n - i,
        {
            proof {
                lemma_bodies_safe_prefix(ast, ts3, i + 1, n as int);
            }
            match &ast.toplvl[i].0 {
                StmtTopLvl::FnDecl { .. } => {
                    self.scope(ast, types, ScopeBody::FnBody(StmtId(i as IdSize)));
                },
                _ => {},
            }
            i = i + 1;
        }
    }
}

/// An expression whose every part is of a kind the checker handles is
/// safe to check from any state.
pub proof fn lemma_expr_safe(ast: &Ast, pool: Seq<TypeV>, ud: Map<u32, TypeId>, binds: Map<u32, TypeId>, id: int)
    requires
        expr_supported(ast, id),
    ensures
        expr_safe(ast, pool, ud, binds, id),
    decreases id, 1int, 0int,
{
    match ast.exprs@[id].0 {
        Expr::Literal(ExprLiteral::Struct(ident, members)) => {
            if ud.contains_key(ident.0) {
                match pool[ud[ident.0].0 as int] {
                    TypeV::Struct { fields, is_generic, .. } => {
                        if fields.len() == members@.len() {
                            if is_generic {
                                lemma_args_gen_safe(
                                    ast,
                                    pool,
                                    ud,
                                    binds,
                                    id,
                                    field_ids(fields),
                                    members@,
                                    members@.len() as int,
                                    Map::empty(),
                                    "impossible to instantiate generic struct"@,
                                );
                            } else {
                                lemma_args_eq_safe(
                                    ast,
                                    pool,
                                    ud,
                                    binds,
                                    id,
                                    field_ids(fields),
                                    members@,
                                    members@.len() as int,
                                    "invalid members in struct literal"@,
                                );
                            }
                        }
                    },
                    _ => {},
                }
            }
        },
        Expr::Call { callee, args } => {
            lemma_expr_safe(ast, pool, ud, binds, callee.0 as int);
            match expr_s(ast, pool, ud, binds, callee.0 as int) {
                (Ok(cid), p1) => match p1[cid.0 as int] {
                    TypeV::Func { params, is_generic, .. } => {
                        if params.len() == args@.len() {
                            if is_generic {
                                lemma_args_gen_safe(
                                    ast,
                                    p1,
                                    ud,
                                    binds,
                                    id,
                                    params,
                                    args@,
                                    args@.len() as int,
                                    Map::empty(),
                                    "impossible to instantiate generic function"@,
                                );
                            } else {
                                lemma_args_eq_safe(
                                    ast,
                                    p1,
                                    ud,
                                    binds,
                                    id,
                                    params,
                                    args@,
                                    args@.len() as int,
                                    "invalid arguments in function call"@,
                                );
                            }
                        }
                    },
                    _ => {},
                },
                _ => {},
            }
        },
        _ => {},
    }
}

/// Checking handled expressions against types is safe from any state.
pub proof fn lemma_args_eq_safe(
    ast: &Ast,
    pool: Seq<TypeV>,
    ud: Map<u32, TypeId>,
    binds: Map<u32, TypeId>,
    owner: int,
    ts: Seq<TypeId>,
    es: Seq<ExprId>,
    n: int,
    msg: Seq<char>,
)
    requires
        n <= es.len(),
        forall|k: int| 0 <= k < es.len() ==> es[k].0 < owner && expr_supported(ast, es[k].0 as int),
    ensures
        args_eq_safe(ast, pool, ud, binds, owner, ts, es, n, msg),
    decreases owner, 0int, n,
{
    if n > 0 {
        lemma_args_eq_safe(ast, pool, ud, binds, owner, ts, es, n - 1, msg);
        let p1 = args_eq_s(ast, pool, ud, binds, owner, ts, es, n - 1, msg).1;
        lemma_expr_safe(ast, p1, ud, binds, es[n - 1].0 as int);
    }
}

/// Matching handled expressions against types is safe from any state.
pub proof fn lemma_args_gen_safe(
    ast: &Ast,
    pool: Seq<TypeV>,
    ud: Map<u32, TypeId>,
    binds: Map<u32, TypeId>,
    owner: int,
    ts: Seq<TypeId>,
    es: Seq<ExprId>,
    n: int,
    m: Map<u32, TypeId>,
    msg: Seq<char>,
)
    requires
        n <= es.len(),
        forall|k: int| 0 <= k < es.len() ==> es[k].0 < owner && expr_supported(ast, es[k].0 as int),
    ensures
        args_gen_safe(ast, pool, ud, binds, owner, ts, es, n, m, msg),
    decreases owner, 0int, n,
{
    if n > 0 {
        lemma_args_gen_safe(ast, pool, ud, binds, owner, ts, es, n - 1, m, msg);
        let p1 = args_gen_s(ast, pool, ud, binds, owner, ts, es, n - 1, m, msg).1;
        lemma_expr_safe(ast, p1, ud, binds, es[n - 1].0 as int);
    }
}

/// A statement whose every part the checker handles, with annotations
/// naming only types in `ud`, is safe to check from any state.
pub proof fn lemma_stmt_safe(ast: &Ast, ud: Map<u32, TypeId>, st: CheckState, id: int)
    requires
        stmt_supported(ast, ud.dom(), id),
    ensures
        stmt_safe(ast, ud, st, id),
    decreases id, 1int, 0int,
{
    match ast.stmts@[id].0 {
        Stmt::Decl(d) => {
            lemma_expr_safe(ast, st.pool, ud, st.table, d.rhs.0 as int);
        },
        Stmt::Assign { lhs, rhs } => {
            lemma_expr_safe(ast, st.pool, ud, st.table, lhs.0 as int);
            let p1 = expr_s(ast, st.pool, ud, st.table, lhs.0 as int).1;
            lemma_expr_safe(ast, p1, ud, st.table, rhs.0 as int);
        },
        Stmt::Block(ids) => {
            lemma_block_safe(ast, ud, st, id, ids@, ids@.len() as int);
        },
        Stmt::Expr(e) => {
            lemma_expr_safe(ast, st.pool, ud, st.table, e.0 as int);
        },
        _ => {},
    }
}

/// Statements the checker handles are safe to check in order from any
/// state.
pub proof fn lemma_block_safe(
    ast: &Ast,
    ud: Map<u32, TypeId>,
    st: CheckState,
    owner: int,
    ids: Seq<StmtId>,
    n: int,
)
    requires
        n <= ids.len(),
        forall|k: int|
            0 <= k < ids.len() ==> ids[k].0 < owner && stmt_supported(ast, ud.dom(), ids[k].0 as int),
    ensures
        block_safe(ast, ud, st, owner, ids, n),
    decreases owner, 0int, n,
{
    if n > 0 {
        lemma_block_safe(ast, ud, st, owner, ids, n - 1);
        lemma_stmt_safe(ast, ud, block_s(ast, ud, st, owner, ids, n - 1), ids[n - 1].0 as int);
    }
}

/// The first pass registers the names of the structs among the first `n`
/// items, beside those registered before.
pub proof fn lemma_declare_structs_dom(ast: &Ast, ts: TopState, n: int)
    requires
        0 <= n <= ast.toplvl@.len(),
    ensures
        declare_structs_s(ast, ts, n).ud.dom() == ts.ud.dom() + struct_names_upto(ast, n),
    decreases n,
{
    if n > 0 {
        lemma_declare_structs_dom(ast, ts, n - 1);
        assert forall|x: u32| #[trigger] struct_names_upto(ast, n).contains(x) == (struct_names_upto(
            ast,
            n - 1,
        ).contains(x) || declares_struct(ast.toplvl@[n - 1].0, x)) by {
            if struct_names_upto(ast, n).contains(x) {
                let j = choose|j: int| 0 <= j < n && #[trigger] declares_struct(ast.toplvl@[j].0, x);
                if j < n - 1 {
                    assert(struct_names_upto(ast, n - 1).contains(x));
                }
            }
            if struct_names_upto(ast, n - 1).contains(x) {
                let j = choose|j: int| 0 <= j < n - 1 && #[trigger] declares_struct(ast.toplvl@[j].0, x);
                assert(0 <= j < n && declares_struct(ast.toplvl@[j].0, x));
            }
            if declares_struct(ast.toplvl@[n - 1].0, x) {
                assert(0 <= n - 1 < n && declares_struct(ast.toplvl@[n - 1].0, x));
            }
        }
        assert(declare_structs_s(ast, ts, n).ud.dom() =~= ts.ud.dom() + struct_names_upto(ast, n));
    }
}

/// The second pass registers again only names of structs.
pub proof fn lemma_declare_items_dom(ast: &Ast, ts: TopState, n: int)
    requires
        0 <= n <= ast.toplvl@.len(),
        struct_names(ast).subset_of(ts.ud.dom()),
    ensures
        declare_items_s(ast, ts, n).ud.dom() == ts.ud.dom(),
    decreases n,
{
    if n > 0 {
        lemma_declare_items_dom(ast, ts, n - 1);
        match ast.toplvl@[n - 1].0 {
            StmtTopLvl::StructDecl { name, .. } => {
                assert(declares_struct(ast.toplvl@[n - 1].0, name.0));
                assert(struct_names(ast).contains(name.0));
                assert(declare_items_s(ast, ts, n).ud.dom() =~= ts.ud.dom());
            },
            _ => {},
        }
    }
}

/// The third pass keeps the user-defined types.
pub proof fn lemma_check_decls_ud(ast: &Ast, ts: TopState, n: int)
    ensures
        check_decls_s(ast, ts, n).ud == ts.ud,
    decreases n,
{
    if n > 0 {
        lemma_check_decls_ud(ast, ts, n - 1);
    }
}

/// The last pass keeps the user-defined types.
pub proof fn lemma_check_bodies_ud(ast: &Ast, ts: TopState, n: int)
    ensures
        check_bodies_s(ast, ts, n).ud == ts.ud,
    decreases n,
{
    if n > 0 {
        lemma_check_bodies_ud(ast, ts, n - 1);
    }
}

/// A program whose every item the checker handles, with annotations naming
/// only declared structs, is safe to check from the start.
pub proof fn lemma_toplvl_safe(ast: &Ast)
    requires
        ast.wf(),
        toplvl_supported(ast, struct_names(ast)),
    ensures
        toplvl_safe(ast, initial_state()),
{
    let n = ast.toplvl@.len() as int;
    let names = struct_names(ast);
    let t1 = declare_structs_s(ast, initial_state(), n);
    lemma_declare_structs_dom(ast, initial_state(), n);
    assert(t1.ud.dom() =~= names);
    lemma_declare_items_dom(ast, t1, n);
    let t2 = declare_items_s(ast, t1, n);
    let t3 = check_decls_s(ast, t2, n);
    assert forall|i: int| 0 <= i < n implies #[trigger] sig_declared(ast, t1.ud.dom(), ast.toplvl@[i].0) by {
        assert(item_supported(ast, names, ast.toplvl@[i].0));
    }
    lemma_decls_safe(ast, t2, n, n);
    lemma_check_decls_ud(ast, t2, n);
    lemma_bodies_safe(ast, t3, n, n);
}

/// The third pass over the first `k` items is safe when every item is
/// handled and `ts` registers exactly the struct names.
pub proof fn lemma_decls_safe(ast: &Ast, ts: TopState, k: int, n: int)
    requires
        ast.wf(),
        n == ast.toplvl@.len(),
        0 <= k <= n,
        ts.ud.dom() == struct_names(ast),
        toplvl_supported(ast, struct_names(ast)),
    ensures
        decls_safe(ast, ts, k),
    decreases k,
{
    if k > 0 {
        lemma_decls_safe(ast, ts, k - 1, n);
        assert(item_supported(ast, struct_names(ast), ast.toplvl@[k - 1].0));
        match ast.toplvl@[k - 1].0 {
            StmtTopLvl::Decl(d) => {
                let t1 = check_decls_s(ast, ts, k - 1);
                lemma_check_decls_ud(ast, ts, k - 1);
                lemma_expr_safe(ast, t1.st.pool, t1.ud, t1.st.table, d.rhs.0 as int);
            },
            _ => {},
        }
    }
}

/// The last pass over the first `k` items is safe when every item is
/// handled and `ts` registers exactly the struct names.
pub proof fn lemma_bodies_safe(ast: &Ast, ts: TopState, k: int, n: int)
    requires
        ast.wf(),
        n == ast.toplvl@.len(),
        0 <= k <= n,
        ts.ud.dom() == struct_names(ast),
        toplvl_supported(ast, struct_names(ast)),
    ensures
        bodies_safe(ast, ts, k),
    decreases k,
{
    if k > 0 {
        lemma_bodies_safe(ast, ts, k - 1, n);
        assert(item_supported(ast, struct_names(ast), ast.toplvl@[k - 1].0));
        match ast.toplvl@[k - 1].0 {
            StmtTopLvl::FnDecl { params, block, .. } => {
                let t1 = check_bodies_s(ast, ts, k - 1);
                lemma_check_bodies_ud(ast, ts, k - 1);
                let s1 = params_s(ast, t1.ud, t1.st, params@, params@.len() as int);
                lemma_stmt_safe(ast, t1.ud, s1, block.0 as int);
            },
            _ => {},
        }
    }
}

/// Whether `x` is one of `names`.
fn contains_name(names: &Vec<u32>, x: u32) -> (r: bool)
    ensures
        r == names@.contains(x),
{
    let mut i: usize = 0;
    while i < names.len()
        invariant
            0 <= i <= names@.len(),
            forall|k: int| 0 <= k < i ==> names@[k] != x,
        decreases names@.len() - i,
    {
        if names[i] == x {
            assert(names@[i as int] == x);
            return true;
        }
        i = i + 1;
    }
    false
}

/// Whether the checker handles the expression at `id` (see
/// `expr_supported`).
fn expr_checkable(ast: &Ast, id: ExprId) -> (r: bool)
    requires
        ast.wf(),
        id.0 < ast.exprs@.len(),
    ensures
        r == expr_supported(ast, id.0 as int),
    decreases id.0,
{
    match ast.get_expr(id) {
        Expr::Literal(ExprLiteral::Struct(_, ms)) => {
            let mut k: usize = 0;
            while k < ms.len()
                invariant
                    ast.wf(),
                    id.0 < ast.exprs@.len(),
                    crate::parser::exprs_below(ms@, id.0 as int),
                    0 <= k <= ms@.len(),
                    forall|j: int| 0 <= j < k ==> ms@[j].0 < id.0 && expr_supported(ast, ms@[j].0 as int),
                    expr_supported(ast, id.0 as int) == (forall|j: int|
                        0 <= j < ms@.len() ==> ms@[j].0 < id.0 && expr_supported(ast, ms@[j].0 as int)),
                decreases ms@.len() - k,
            {
                if !expr_checkable(ast, ms[k]) {
                    assert(!(ms@[k as int].0 < id.0 && expr_supported(ast, ms@[k as int].0 as int)));
                    return false;
                }
                k = k + 1;
            }
            true
        },
        Expr::Literal(ExprLiteral::Array(_)) => false,
        Expr::Literal(_) => true,
        Expr::Variable(_) => true,
        Expr::Call { callee, args } => {
            if !expr_checkable(ast, *callee) {
                return false;
            }
            let mut k: usize = 0;
            while k < args.len()
                invariant
                    ast.wf(),
                    id.0 < ast.exprs@.len(),
                    crate::parser::exprs_below(args@, id.0 as int),
                    0 <= k <= args@.len(),
                    forall|j: int|
                        0 <= j < k ==> args@[j].0 < id.0 && expr_supported(ast, args@[j].0 as int),
                    expr_supported(ast, id.0 as int) == (forall|j: int|
                        0 <= j < args@.len() ==> args@[j].0 < id.0 && expr_supported(
                            ast,
                            args@[j].0 as int,
                        )),
                decreases args@.len() - k,
            {
                if !expr_checkable(ast, args[k]) {
                    assert(!(args@[k as int].0 < id.0 && expr_supported(ast, args@[k as int].0 as int)));
                    return false;
                }
                k = k + 1;
            }
            true
        },
        _ => false,
    }
}

/// Whether every user-defined type the annotation at `id` names is one of
/// `names` (see `annot_declared`).
fn annot_checkable(ast: &Ast, names: &Vec<u32>, id: TyAnnotId) -> (r: bool)
    requires
        ast.wf(),
        id.0 < ast.annots@.len(),
    ensures
        r == annot_declared(ast, names@.to_set(), id.0 as int),
    decreases id.0,
{
    match ast.get_annot(id) {
        TyAnnot::Array { inner, .. } => annot_checkable(ast, names, *inner),
        TyAnnot::Func { params, ret } => {
            let mut k: usize = 0;
            while k < params.len()
                invariant
                    ast.wf(),
                    id.0 < ast.annots@.len(),
                    crate::parser::annots_below(params@, id.0 as int),
                    0 <= k <= params@.len(),
                    forall|j: int|
                        0 <= j < k ==> params@[j].0 < id.0 && annot_declared(
                            ast,
                            names@.to_set(),
                            params@[j].0 as int,
                        ),
                    annot_declared(ast, names@.to_set(), id.0 as int) == ((forall|j: int|
                        0 <= j < params@.len() ==> params@[j].0 < id.0 && annot_declared(
                            ast,
                            names@.to_set(),
                            params@[j].0 as int,
                        )) && (ret matches Some(r) ==> r.0 < id.0 && annot_declared(
                        ast,
                        names@.to_set(),
                        r.0 as int,
                    ))),
                decreases params@.len() - k,
            {
                if !annot_checkable(ast, names, params[k]) {
                    assert(!(params@[k as int].0 < id.0 && annot_declared(
                        ast,
                        names@.to_set(),
                        params@[k as int].0 as int,
                    )));
                    return false;
                }
                k = k + 1;
            }
            match ret {
                Some(r) => annot_checkable(ast, names, *r),
                None => true,
            }
        },
        TyAnnot::UserDef { name, .. } => contains_name(names, name.0),
        _ => true,
    }
}

/// Whether a declaration's parts are handled (see `decl_supported`).
fn decl_checkable(ast: &Ast, names: &Vec<u32>, d: &Decl) -> (r: bool)
    requires
        ast.wf(),
        d.rhs.0 < ast.exprs@.len(),
        d.annot matches Some(a) ==> a.0 < ast.annots@.len(),
    ensures
        r == decl_supported(ast, names@.to_set(), *d),
{
    if !expr_checkable(ast, d.rhs) {
        return false;
    }
    match d.annot {
        Some(a) => annot_checkable(ast, names, a),
        None => true,
    }
}

/// Whether the checker handles the statement at `id` (see
/// `stmt_supported`).
fn stmt_checkable(ast: &Ast, names: &Vec<u32>, id: StmtId) -> (r: bool)
    requires
        ast.wf(),
        id.0 < ast.stmts@.len(),
    ensures
        r == stmt_supported(ast, names@.to_set(), id.0 as int),
    decreases id.0,
{
    match ast.get_stmt(id) {
        Stmt::Decl(d) => decl_checkable(ast, names, d),
        Stmt::Assign { lhs, rhs } => expr_checkable(ast, *lhs) && expr_checkable(ast, *rhs),
        Stmt::Block(ids) => {
            let mut k: usize = 0;
            while k < ids.len()
                invariant
                    ast.wf(),
                    id.0 < ast.stmts@.len(),
                    crate::parser::stmts_below(ids@, id.0 as int),
                    0 <= k <= ids@.len(),
                    forall|j: int|
                        0 <= j < k ==> ids@[j].0 < id.0 && stmt_supported(
                            ast,
                            names@.to_set(),
                            ids@[j].0 as int,
                        ),
                    stmt_supported(ast, names@.to_set(), id.0 as int) == (forall|j: int|
                        0 <= j < ids@.len() ==> ids@[j].0 < id.0 && stmt_supported(
                            ast,
                            names@.to_set(),
                            ids@[j].0 as int,
                        )),
                decreases ids@.len() - k,
            {
                if !stmt_checkable(ast, names, ids[k]) {
                    assert(!(ids@[k as int].0 < id.0 && stmt_supported(
                        ast,
                        names@.to_set(),
                        ids@[k as int].0 as int,
                    )));
                    return false;
                }
                k = k + 1;
            }
            true
        },
        Stmt::Expr(e) => expr_checkable(ast, *e),
        _ => false,
    }
}

/// Whether every annotation of a list of named entries names only types
/// among `names`.
fn pairs_checkable(ast: &Ast, names: &Vec<u32>, ps: &Vec<(IdentId, TyAnnotId)>) -> (r: bool)
    requires
        ast.wf(),
        crate::parser::pairs_below(ps@, ast.idents@.len() as int, ast.annots@.len() as int),
    ensures
        r == (forall|k: int|
            0 <= k < ps@.len() ==> #[trigger] annot_declared(ast, names@.to_set(), ps@[k].1.0 as int)),
{
    let mut k: usize = 0;
    while k < ps.len()
        invariant
            ast.wf(),
            crate::parser::pairs_below(ps@, ast.idents@.len() as int, ast.annots@.len() as int),
            0 <= k <= ps@.len(),
            forall|j: int|
                0 <= j < k ==> #[trigger] annot_declared(ast, names@.to_set(), ps@[j].1.0 as int),
        decreases ps@.len() - k,
    {
        assert(ps@[k as int].0.0 < ast.idents@.len());
        assert(ps@[k as int].1.0 < ast.annots@.len());
        if !annot_checkable(ast, names, ps[k].1) {
            assert(!annot_declared(ast, names@.to_set(), ps@[k as int].1.0 as int));
            return false;
        }
        k = k + 1;
    }
    true
}

/// Whether every construct of the program is one the checker handles and
/// every user-defined type it may look up is declared, whatever errors
/// come first. Where it is, `check` can be called.
pub fn checkable(ast: &Ast) -> (r: bool)
    requires
        ast.wf(),
    ensures
        r == toplvl_supported(ast, struct_names(ast)),
        r ==> toplvl_safe(ast, initial_state()),
{
    let n = ast.toplvl.len();
    let mut names: Vec<u32> = Vec::new();
    let mut i: usize = 0;
    while i < n
        invariant
            n == ast.toplvl@.len(),
            0 <= i <= n,
            names@.to_set() == struct_names_upto(ast, i as int),
        decreases n - i,
    {
        let ghost before = names@;
        match &ast.toplvl[i].0 {
            StmtTopLvl::StructDecl { name, .. } => {
                names.push(name.0);
            },
            _ => {},
        }
        proof {
            assert forall|x: u32| #[trigger] names@.to_set().contains(x) == struct_names_upto(
                ast,
                i + 1,
            ).contains(x) by {
                if names@.contains(x) {
                    let k = choose|k: int| 0 <= k < names@.len() && names@[k] == x;
                    if k < before.len() {
                        assert(before[k] == x);
                        assert(before.to_set().contains(x));
                        let j = choose|j: int|
                            0 <= j < i && #[trigger] declares_struct(ast.toplvl@[j].0, x);
                        assert(0 <= j < i + 1);
                    } else {
                        assert(declares_struct(ast.toplvl@[i as int].0, x));
                    }
                }
                if struct_names_upto(ast, i + 1).contains(x) {
                    let j = choose|j: int|
                        0 <= j < i + 1 && #[trigger] declares_struct(ast.toplvl@[j].0, x);
                    if j < i {
                        assert(struct_names_upto(ast, i as int).contains(x));
                        assert(before.to_set().contains(x));
                        let k = choose|k: int| 0 <= k < before.len() && before[k] == x;
                        assert(names@[k] == x);
                    } else {
                        assert(names@[names@.len() - 1] == x);
                    }
                }
            }
            assert(names@.to_set() =~= struct_names_upto(ast, i + 1));
        }
        i = i + 1;
    }
    let mut i: usize = 0;
    while i < n
        invariant
            ast.wf(),
            n == ast.toplvl@.len(),
            0 <= i <= n,
            names@.to_set() == struct_names(ast),
            forall|j: int| 0 <= j < i ==> #[trigger] item_supported(ast, struct_names(ast), ast.toplvl@[j].0),
        decreases n - i,
    {
        let ok = match &ast.toplvl[i].0 {
            StmtTopLvl::Decl(d) => decl_checkable(ast, &names, d),
            StmtTopLvl::FnDecl { params, ret, block, .. } => {
                pairs_checkable(ast, &names, params) && match ret {
                    Some(r) => annot_checkable(ast, &names, *r),
                    None => true,
                } && stmt_checkable(ast, &names, *block)
            },
            StmtTopLvl::StructDecl { fields, .. } => pairs_checkable(ast, &names, fields),
        };
        if !ok {
            assert(!item_supported(ast, struct_names(ast), ast.toplvl@[i as int].0));
            return false;
        }
        i = i + 1;
    }
    proof {
        lemma_toplvl_safe(ast);
    }
    true
}

/// Checks the types of a program: the names of structs first, then the
/// fields of structs and the signatures of functions, then top-level
/// declarations, then function bodies (see `toplvl_s`). Gives the checker,
/// which holds every error reported, in order, and the pool of types built.
/// Checking must reach only what the checker handles (`toplvl_safe`);
/// `checkable` tests a condition that is enough for that.
pub fn check(ast: &mut Ast) -> (r: (Typechecker, TypeEnv))
    requires
        old(ast).wf(),
        toplvl_safe(old(ast), initial_state()),
    ensures
        *final(ast) == *old(ast),
        r.1.wf(),
        r.0.wf(r.1.pool().len() as int),
        all_reported(r.0.reported(), old(ast)),
        (TopState { ud: r.1.userdefs(), st: r.0.state(r.1.pool()) }) == toplvl_s(
            old(ast),
            initial_state(),
        ),
{
    let mut checker = Typechecker::default();
    let mut types = TypeEnv::default();
    proof {
        assert(Set::<u32>::empty() + struct_names(ast) =~= struct_names(ast));
        assert(errs_of(checker.errors@) =~= Seq::<ErrSpec>::empty());
    }
    checker.check_toplvl(ast, &mut types);
    (checker, types)
}

} // verus!
