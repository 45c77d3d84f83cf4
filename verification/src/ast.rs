//! The parsed program: arenas of nodes, and the interner of identifiers.

use vstd::prelude::*;
use crate::IdSize;
use std::collections::HashMap;
use std::collections::hash_map::DefaultHasher;
use std::hash::Hasher;
use vstd::std_specs::hash::DefaultHasherAdditionalSpecFns;
use crate::lexer::{Lexer, Span, Token};
use crate::parser::{Expr, ExprId, Spanned, Stmt, StmtId, StmtTopLvl, TokenId, TyAnnot, TyAnnotId};

verus! {

/// Index of an interned identifier.
#[derive(Debug, Clone, Copy, PartialEq, Eq, Hash, Structural)]
pub struct IdentId(pub IdSize);

/// The 64-bit hash a name is filed under: the standard library's default
/// hasher fed the name's bytes and then the byte `0xff`, which is how a
/// string is hashed.
pub open spec fn name_hash(name: Seq<u8>) -> u64 {
    DefaultHasher::spec_finish(seq![name, seq![0xffu8]])
}

/// The names of an interner, in the order of their ids: a name whose hash
/// is filed already gets the id filed under that hash, another name gets
/// the next id.
pub open spec fn interned(names: Seq<Seq<u8>>, name: Seq<u8>) -> (Seq<Seq<u8>>, int) {
    if exists|i: int| 0 <= i < names.len() && #[trigger] name_hash(names[i]) == name_hash(name) {
        (names, choose|i: int| 0 <= i < names.len() && #[trigger] name_hash(names[i]) == name_hash(name))
    } else {
        (names.push(name), names.len() as int)
    }
}

/// No two names share a hash.
pub open spec fn distinct_hashes(names: Seq<Seq<u8>>) -> bool {
    forall|i: int, j: int|
        0 <= i < j < names.len() ==> #[trigger] name_hash(names[i]) != #[trigger] name_hash(names[j])
}

/// No name but `name` itself shares the hash of `name`.
pub open spec fn no_collision(names: Seq<Seq<u8>>, name: Seq<u8>) -> bool {
    forall|i: int| 0 <= i < names.len() && #[trigger] name_hash(names[i]) == name_hash(name) ==> names[i] == name
}

/// Stores each identifier once, in one buffer, and numbers identifiers in
/// the order they were first seen; an identifier is found again by its
/// hash.
pub struct StringInterner {
    hash_to_index: HashMap<u64, IdentId>,
    indexes: Vec<Span>,
    pub buf: Vec<u8>,
}

impl View for StringInterner {
    type V = Seq<Seq<u8>>;

    closed spec fn view(&self) -> Seq<Seq<u8>> {
        Seq::new(
            self.indexes@.len(),
            |i: int|
                self.buf@.subrange(self.indexes@[i].start as int, self.indexes@[i].end as int),
        )
    }
}

/// The hash of `name` (see `name_hash`).
pub fn hash_name(name: &[u8]) -> (r: u64)
    ensures
        r == name_hash(name@),
{
    let mut hasher = DefaultHasher::new();
    hasher.write(name);
    let mut end: Vec<u8> = Vec::new();
    end.push(0xffu8);
    assert(end@ =~= seq![0xffu8]);
    hasher.write(end.as_slice());
    assert(hasher@ =~= seq![name@, seq![0xffu8]]);
    hasher.finish()
}

impl StringInterner {
    /// Every recorded span lies in the buffer, the names have distinct
    /// hashes, and the map files exactly the hash of each name, under its
    /// id.
    pub closed spec fn wf(&self) -> bool {
        &&& forall|i: int|
            #![trigger self.indexes@[i]]
            0 <= i < self.indexes@.len() ==> self.indexes@[i].start <= self.indexes@[i].end
                <= self.buf@.len()
        &&& distinct_hashes(self@)
        &&& self.hash_to_index@.len() == self@.len()
        &&& forall|i: int|
            0 <= i < self@.len() ==> self.hash_to_index@.contains_key(#[trigger] name_hash(self@[i]))
                && self.hash_to_index@[name_hash(self@[i])].0 == i
        &&& forall|h: u64|
            #[trigger] self.hash_to_index@.contains_key(h) ==> exists|i: int|
                0 <= i < self@.len() && #[trigger] name_hash(self@[i]) == h
    }

    /// Number of interned names.
    pub open spec fn count(&self) -> nat {
        self@.len()
    }

    /// Number of bytes the buffer holds.
    pub closed spec fn used(&self) -> nat {
        self.buf@.len()
    }

    /// The bytes of the buffer: the names, one after the other, in the
    /// order they were added.
    pub closed spec fn bytes(&self) -> Seq<u8> {
        self.buf@
    }

    /// A well-formed interner files its names under distinct hashes.
    pub proof fn lemma_wf_distinct(&self)
        requires
            self.wf(),
        ensures
            distinct_hashes(self@),
    {
    }

    /// `used()` is the number of bytes that `bytes()` holds.
    pub proof fn lemma_used_is_len(&self)
        ensures
            self.used() == self.bytes().len(),
    {
    }

    pub fn new() -> (r: Self)
        ensures
            r.wf(),
            r@ == Seq::<Seq<u8>>::empty(),
            r.used() == 0,
            r.bytes() == Seq::<u8>::empty(),
    {
        let r = StringInterner { hash_to_index: HashMap::new(), indexes: Vec::new(), buf: Vec::new() };
        assert(r@ =~= Seq::<Seq<u8>>::empty());
        r
    }

    pub fn len(&self) -> (r: usize)
        ensures
            r == self@.len(),
    {
        self.indexes.len()
    }

    /// The id of `name`: the one filed under its hash, or the next one,
    /// the name being added.
    pub fn intern(&mut self, name: &[u8]) -> (r: IdentId)
        requires
            old(self).wf(),
            old(self)@.len() < u32::MAX,
            old(self).used() + name@.len() <= u32::MAX,
        ensures
            final(self).wf(),
            (final(self)@, r.0 as int) == interned(old(self)@, name@),
            final(self).used() <= old(self).used() + name@.len(),
            final(self)@ == old(self)@ ==> final(self).used() == old(self).used(),
            final(self)@.len() == old(self)@.len() ==> *final(self) == *old(self),
            final(self)@.len() > old(self)@.len() ==> final(self).bytes() == old(self).bytes()
                + name@,
    {
        let hash = hash_name(name);
        match self.hash_to_index.get(&hash) {
            Some(id) => {
                proof {
                    let w = choose|i: int| 0 <= i < self@.len() && #[trigger] name_hash(self@[i]) == hash;
                    assert(exists|i: int| 0 <= i < self@.len() && #[trigger] name_hash(self@[i]) == name_hash(name@));
                    let k = choose|i: int| 0 <= i < self@.len() && #[trigger] name_hash(self@[i]) == name_hash(name@);
                    if k != w {
                        if k < w {
                            assert(name_hash(self@[k]) != name_hash(self@[w]));
                        } else {
                            assert(name_hash(self@[w]) != name_hash(self@[k]));
                        }
                    }
                    assert(self.hash_to_index@[name_hash(self@[w])].0 == w);
                }
                return *id;
            },
            None => {},
        }
        proof {
            assert forall|i: int| 0 <= i < self@.len() implies #[trigger] name_hash(self@[i]) != name_hash(name@) by {
                assert(self.hash_to_index@.contains_key(name_hash(self@[i])));
            }
        }
        let id = IdentId(self.hash_to_index.len() as IdSize);
        let ghost old_view = self@;
        let ghost old_buf = self.buf@;
        let ghost old_map = self.hash_to_index@;
        self.hash_to_index.insert(hash, id);
        let intern_span = Span {
            start: self.buf.len() as u32,
            end: (self.buf.len() + name.len()) as u32,
        };
        self.indexes.push(intern_span);
        let mut k: usize = 0;
        while k < name.len()
            invariant
                self.indexes@ == old(self).indexes@.push(intern_span),
                self.hash_to_index@ == old_map.insert(hash, id),
                intern_span.start == old_buf.len(),
                intern_span.end == old_buf.len() + name@.len(),
                self.buf@.len() == old_buf.len() + k,
                self.buf@.subrange(0, old_buf.len() as int) == old_buf,
                self.buf@.subrange(old_buf.len() as int, self.buf@.len() as int) == name@.subrange(
                    0,
                    k as int,
                ),
                k <= name@.len(),
            decreases name@.len() - k,
        {
            let ghost prev = self.buf@;
            self.buf.push(name[k]);
            assert(self.buf@.subrange(0, old_buf.len() as int) =~= prev.subrange(
                0,
                old_buf.len() as int,
            ));
            assert(self.buf@.subrange(old_buf.len() as int, self.buf@.len() as int) =~= name@.subrange(
                0,
                k + 1,
            ));
            k = k + 1;
        }
        assert(name@.subrange(0, name@.len() as int) =~= name@);
        assert(self.buf@ =~= old_buf + name@) by {
            assert(self.buf@ =~= self.buf@.subrange(0, old_buf.len() as int) + self.buf@.subrange(
                old_buf.len() as int,
                self.buf@.len() as int,
            ));
        }
        assert forall|j: int| 0 <= j < old_view.len() implies #[trigger] self@[j] == old_view[j] by {
            assert(self.indexes@[j] == old(self).indexes@[j]);
            assert(old_buf == old(self).buf@);
            assert(0 <= j < old(self).indexes@.len());
            assert(old(self).indexes@[j].start <= old(self).indexes@[j].end <= old(self).buf@.len());
            assert(self.buf@.subrange(self.indexes@[j].start as int, self.indexes@[j].end as int)
                =~= old_buf.subrange(self.indexes@[j].start as int, self.indexes@[j].end as int));
        }
        assert(self@[old_view.len() as int] =~= name@);
        assert(self@ =~= old_view.push(name@));
        proof {
            let v = self@;
            assert(!old_map.contains_key(hash));
            assert(old_map.dom().finite());
            assert(self.hash_to_index@.dom() =~= old_map.dom().insert(hash));
            assert forall|i: int| 0 <= i < v.len() implies self.hash_to_index@.contains_key(
                #[trigger] name_hash(v[i]),
            ) && self.hash_to_index@[name_hash(v[i])].0 == i by {
                if i < old_view.len() {
                    assert(v[i] == old_view[i]);
                    assert(name_hash(old_view[i]) != hash);
                }
            }
            assert forall|h: u64| #[trigger] self.hash_to_index@.contains_key(h) implies exists|i: int|
                0 <= i < v.len() && #[trigger] name_hash(v[i]) == h by {
                if h == hash {
                    assert(name_hash(v[old_view.len() as int]) == h);
                } else {
                    assert(old_map.contains_key(h));
                    let i = choose|i: int| 0 <= i < old_view.len() && #[trigger] name_hash(old_view[i]) == h;
                    assert(v[i] == old_view[i]);
                }
            }
            assert forall|i: int, j: int| 0 <= i < j < v.len() implies #[trigger] name_hash(v[i])
                != #[trigger] name_hash(v[j]) by {
                if j == old_view.len() {
                    assert(v[i] == old_view[i]);
                } else {
                    assert(v[i] == old_view[i]);
                    assert(v[j] == old_view[j]);
                }
            }
        }
        id
    }

    /// The name with id `id`.
    pub fn lookup(&self, id: IdentId) -> (r: &[u8])
        requires
            self.wf(),
            id.0 < self@.len(),
        ensures
            r@ == self@[id.0 as int],
    {
        let span = self.indexes[id.0 as usize];
        &self.buf.as_slice()[span.start as usize..span.end as usize]
    }
}

/// Law of the interner: a name looked up by the id it was interned under
/// is that name, unless another name filed before shares its hash.
pub proof fn lemma_intern_then_lookup(names: Seq<Seq<u8>>, name: Seq<u8>)
    requires
        distinct_hashes(names),
        no_collision(names, name),
    ensures
        ({
            let (after, id) = interned(names, name);
            0 <= id < after.len() && after[id] == name
        }),
{
}

/// Law of the interner: interning a name twice gives the same id and adds
/// nothing the second time.
pub proof fn lemma_intern_idempotent(names: Seq<Seq<u8>>, name: Seq<u8>)
    requires
        distinct_hashes(names),
    ensures
        interned(interned(names, name).0, name) == interned(names, name),
{
    let (after, id) = interned(names, name);
    if exists|i: int| 0 <= i < names.len() && #[trigger] name_hash(names[i]) == name_hash(name) {
        let k = choose|i: int| 0 <= i < after.len() && #[trigger] name_hash(after[i]) == name_hash(name);
        assert(k == id) by {
            if k != id {
                if k < id {
                    assert(name_hash(names[k]) != name_hash(names[id]));
                } else {
                    assert(name_hash(names[id]) != name_hash(names[k]));
                }
            }
        }
    } else {
        assert(name_hash(after[names.len() as int]) == name_hash(name));
        let k = choose|i: int| 0 <= i < after.len() && #[trigger] name_hash(after[i]) == name_hash(name);
        if k < names.len() {
            assert(after[k] == names[k]);
        }
    }
}

/// Law of the interner: two names whose hashes differ get different ids.
pub proof fn lemma_intern_distinct(names: Seq<Seq<u8>>, a: Seq<u8>, b: Seq<u8>)
    requires
        distinct_hashes(names),
        name_hash(a) != name_hash(b),
    ensures
        ({
            let (after_a, id_a) = interned(names, a);
            let (after_b, id_b) = interned(after_a, b);
            id_a != id_b && after_b[id_a] == after_a[id_a]
        }),
{
    let (after_a, id_a) = interned(names, a);
    let (after_b, id_b) = interned(after_a, b);
    assert(name_hash(after_a[id_a]) == name_hash(a));
    if exists|i: int| 0 <= i < after_a.len() && #[trigger] name_hash(after_a[i]) == name_hash(b) {
        assert(name_hash(after_b[id_b]) == name_hash(b));
    } else {
        assert(id_b == after_a.len());
    }
}

/// The names after interning each of `later` in turn.
pub open spec fn intern_all(names: Seq<Seq<u8>>, later: Seq<Seq<u8>>) -> Seq<Seq<u8>>
    decreases later.len(),
{
    if later.len() == 0 {
        names
    } else {
        intern_all(interned(names, later[0]).0, later.drop_first())
    }
}

/// Interning more names keeps every name at its id.
pub proof fn lemma_intern_all_keeps(names: Seq<Seq<u8>>, later: Seq<Seq<u8>>)
    ensures
        names.len() <= intern_all(names, later).len(),
        forall|k: int| 0 <= k < names.len() ==> #[trigger] intern_all(names, later)[k] == names[k],
    decreases later.len(),
{
    if later.len() > 0 {
        let n1 = interned(names, later[0]).0;
        lemma_intern_all_keeps(n1, later.drop_first());
        assert forall|k: int| 0 <= k < names.len() implies #[trigger] n1[k] == names[k] by {}
    }
}

/// Law of the interner: the id a name was interned under still looks up
/// that name after any number of further names are interned, unless a
/// name filed before it shares its hash.
pub proof fn lemma_lookup_after_more(names: Seq<Seq<u8>>, name: Seq<u8>, later: Seq<Seq<u8>>)
    requires
        distinct_hashes(names),
        no_collision(names, name),
    ensures
        ({
            let (after, id) = interned(names, name);
            0 <= id < intern_all(after, later).len() && intern_all(after, later)[id] == name
        }),
{
    lemma_intern_then_lookup(names, name);
    let (after, id) = interned(names, name);
    lemma_intern_all_keeps(after, later);
}

/// The parsed program: the tokens, the arenas of nodes with the span each
/// node was read from, and the interned identifiers.
pub struct Ast {
    pub lexer: Lexer,
    pub exprs: Vec<Spanned<Expr>>,
    pub stmts: Vec<Spanned<Stmt>>,
    pub toplvl: Vec<Spanned<StmtTopLvl>>,
    pub annots: Vec<Spanned<TyAnnot>>,
    pub idents: StringInterner,
}

impl Ast {
    /// The arenas hold finite trees over the tokens and names of this
    /// program, every node read from a span of the source, and every
    /// top-level item has a 32-bit index.
    pub open spec fn wf(&self) -> bool {
        &&& crate::parser::lexer_ok(&self.lexer)
        &&& self.idents.wf()
        &&& crate::parser::arenas_ok(
            self.exprs@,
            self.stmts@,
            self.toplvl@,
            self.annots@,
            self.lexer.tokens@.len() as int,
            self.idents@.len() as int,
        )
        &&& crate::parser::spans_within(self.exprs@, self.lexer.src@.len() as int)
        &&& crate::parser::spans_within(self.stmts@, self.lexer.src@.len() as int)
        &&& crate::parser::spans_within(self.toplvl@, self.lexer.src@.len() as int)
        &&& crate::parser::spans_within(self.annots@, self.lexer.src@.len() as int)
        &&& self.toplvl@.len() < u32::MAX
    }

    pub fn get_token(&self, id: TokenId) -> (r: &Token)
        requires
            id.0 < self.lexer.tokens@.len(),
        ensures
            *r == self.lexer.tokens@[id.0 as int],
    {
        &self.lexer.tokens[id.0 as usize]
    }

    pub fn get_expr(&self, id: ExprId) -> (r: &Expr)
        requires
            id.0 < self.exprs@.len(),
        ensures
            *r == self.exprs@[id.0 as int].0,
    {
        &self.exprs[id.0 as usize].0
    }

    pub fn get_stmt(&self, id: StmtId) -> (r: &Stmt)
        requires
            id.0 < self.stmts@.len(),
        ensures
            *r == self.stmts@[id.0 as int].0,
    {
        &self.stmts[id.0 as usize].0
    }

    pub fn get_toplvl(&self, id: StmtId) -> (r: &StmtTopLvl)
        requires
            id.0 < self.toplvl@.len(),
        ensures
            *r == self.toplvl@[id.0 as int].0,
    {
        &self.toplvl[id.0 as usize].0
    }

    pub fn get_annot(&self, id: TyAnnotId) -> (r: &TyAnnot)
        requires
            id.0 < self.annots@.len(),
        ensures
            *r == self.annots@[id.0 as int].0,
    {
        &self.annots[id.0 as usize].0
    }

    pub fn get_ident(&self, id: IdentId) -> (r: &[u8])
        requires
            self.idents.wf(),
            id.0 < self.idents@.len(),
        ensures
            r@ == self.idents@[id.0 as int],
    {
        self.idents.lookup(id)
    }
}

} // verus!
