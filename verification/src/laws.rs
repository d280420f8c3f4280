use vstd::prelude::*;
use crate::heap::Heap;
use crate::heap::Robj;
use crate::materialize::bound_map;
use crate::materialize::pairlist_names_ok;
use crate::materialize::terminator_free;
use crate::materialize::wrapper_names;
use crate::model::entry_map;
use crate::model::find_sym;
use crate::model::kind_at;
use crate::model::len_of;
use crate::wrappers::Env;
use crate::wrappers::Expr;
use crate::wrappers::Lang;
use crate::wrappers::List;
use crate::wrappers::Pairlist;
use crate::wrappers::Primitive;
use crate::wrappers::Raw;
use crate::wrappers::Symbol;
use crate::wrappers::entry_ids;
use crate::wrappers::named_ids;
use crate::wrappers::robjs_valid;
use crate::wrappers::seq_ids;

verus! {

/// Round trip for call expressions: extracting a freshly materialized
/// call expression returns its content, element for element, in
/// order; the empty sequence materializes to the nil sentinel, which
/// extraction declines as a narrowing mismatch.
pub fn lang_round_trip(h: &mut Heap, val: &Lang) -> (r: Option<Lang>)
    requires
        old(h).wf(),
        robjs_valid(val.0@, old(h).mem()),
    ensures
        final(h).wf(),
        final(h).roots() == old(h).roots(),
        val.0@.len() > 0 ==> (r matches Some(l) && seq_ids(l.0@) == seq_ids(val.0@)),
        val.0@.len() == 0 ==> r is None,
{
    let robj = Robj::from_lang(h, val);
    robj.as_lang(h)
}

/// Round trip for dotted-pair lists: names and values both survive,
/// in order; the empty sequence materializes to the nil sentinel,
/// which extraction declines.
pub fn pairlist_round_trip(h: &mut Heap, val: &Pairlist) -> (r: Option<Pairlist>)
    requires
        old(h).wf(),
        robjs_valid(
            val.names_and_values@.map_values(|p: (Option<Vec<u8>>, Robj)| p.1),
            old(h).mem(),
        ),
        pairlist_names_ok(val.names_and_values@),
    ensures
        final(h).wf(),
        final(h).roots() == old(h).roots(),
        val.names_and_values@.len() > 0 ==> (r matches Some(p) && named_ids(
            p.names_and_values@,
        ) == named_ids(val.names_and_values@)),
        val.names_and_values@.len() == 0 ==> r is None,
{
    let robj = Robj::from_pairlist(h, val);
    robj.as_pairlist(h)
}

/// Round trip for generic lists, the empty list included.
pub fn list_round_trip(h: &mut Heap, val: &List) -> (r: Option<List>)
    requires
        old(h).wf(),
        robjs_valid(val.0@, old(h).mem()),
    ensures
        final(h).wf(),
        final(h).roots() == old(h).roots(),
        r matches Some(l) && seq_ids(l.0@) == seq_ids(val.0@),
{
    let robj = Robj::from_list(h, val);
    robj.as_list(h)
}

/// Round trip for quoted-expression lists, the empty list included.
pub fn expr_round_trip(h: &mut Heap, val: &Expr) -> (r: Option<Expr>)
    requires
        old(h).wf(),
        robjs_valid(val.0@, old(h).mem()),
    ensures
        final(h).wf(),
        final(h).roots() == old(h).roots(),
        r matches Some(l) && seq_ids(l.0@) == seq_ids(val.0@),
{
    let robj = Robj::from_expr(h, val);
    robj.as_expr(h)
}

/// Round trip for raw byte vectors: every byte survives.
pub fn raw_round_trip(h: &mut Heap, val: &Raw) -> (r: Option<Raw>)
    requires
        old(h).wf(),
    ensures
        final(h).wf(),
        final(h).roots() == old(h).roots(),
        r matches Some(b) && b.0@ == val.0@,
{
    let robj = Robj::from_raw(h, val);
    robj.as_raw(h)
}

/// Round trip for named references: the interned name survives.
pub fn symbol_round_trip(h: &mut Heap, val: &Symbol) -> (r: Option<Symbol>)
    requires
        old(h).wf(),
        terminator_free(val.0@),
    ensures
        final(h).wf(),
        final(h).roots() == old(h).roots(),
        r matches Some(sym) && sym.0@ == val.0@,
{
    let robj = Robj::from_symbol(h, val);
    robj.as_symbol(h)
}

/// Round trip for environments: extracting a freshly materialized
/// environment yields the same parent and, as a mapping, exactly the
/// visible bindings of the wrapper's content.
pub fn env_round_trip(h: &mut Heap, val: &Env) -> (r: Option<Env>)
    requires
        old(h).wf(),
        val.parent.valid(old(h).mem()),
        forall|q: int|
            0 <= q < val.names_and_values@.len() ==> (#[trigger] val.names_and_values@[q]).1.valid(
                old(h).mem(),
            ),
        forall|q: int|
            0 <= q < val.names_and_values@.len() ==> terminator_free(
                (#[trigger] val.names_and_values@[q]).0@,
            ),
        wrapper_names(val.names_and_values@).no_duplicates(),
    ensures
        final(h).wf(),
        final(h).roots() == old(h).roots(),
        r matches Some(e) && e.parent.id() == val.parent.id() && entry_map(
            entry_ids(e.names_and_values@),
        ) == bound_map(val.names_and_values@, old(h).mem()),
{
    let robj = Robj::from_env(h, val);
    robj.as_environment(h)
}

/// Round trip for character-cache elements: the text survives.
pub fn character_round_trip(h: &mut Heap, val: &crate::wrappers::Character) -> (r: Option<
    crate::wrappers::Character,
>)
    requires
        old(h).wf(),
    ensures
        final(h).wf(),
        final(h).roots() == old(h).roots(),
        r matches Some(c) && c.0@ == val.0@,
{
    let robj = Robj::from_character(h, val);
    robj.as_character(h)
}

/// Round trip for closures: the three projections of a closure the
/// runtime builds come back unchanged.
pub fn closure_round_trip(h: &mut Heap, formals: Robj, body: Robj, env: Robj) -> (r: Option<
    crate::wrappers::Func,
>)
    requires
        old(h).wf(),
        formals.valid(old(h).mem()),
        body.valid(old(h).mem()),
        env.valid(old(h).mem()),
    ensures
        final(h).wf(),
        final(h).roots() == old(h).roots(),
        r matches Some(f) && f.formals.id() == formals.id() && f.body.id() == body.id()
            && f.env.id() == env.id(),
{
    let clo = h.alloc_closure(formals, body, env);
    clo.as_func(h)
}

/// Round trip for deferred-evaluation records: all four projections
/// come back unchanged.
pub fn promise_round_trip(h: &mut Heap, code: Robj, env: Robj, value: Robj, seen: bool) -> (r:
    Option<crate::wrappers::Promise>)
    requires
        old(h).wf(),
        code.valid(old(h).mem()),
        env.valid(old(h).mem()),
        value.valid(old(h).mem()),
    ensures
        final(h).wf(),
        final(h).roots() == old(h).roots(),
        r matches Some(p) && p.code.id() == code.id() && p.env.id() == env.id() && p.value.id()
            == value.id() && p.seen == seen,
{
    let prom = h.alloc_promise(code, env, value, seen);
    prom.as_promise(h)
}

/// Materializing the same name twice yields handles with the same
/// interned identity: the runtime's interning guarantee.
pub fn symbol_interning_idempotent(h: &mut Heap, val: &Symbol) -> (r: (Robj, Robj))
    requires
        old(h).wf(),
        terminator_free(val.0@),
    ensures
        final(h).wf(),
        final(h).roots() == old(h).roots(),
        r.0.id() == r.1.id(),
{
    let first = Robj::from_symbol(h, val);
    let second = Robj::from_symbol(h, val);
    (first, second)
}

/// A name never interned is bound to no built-in, so materializing a
/// built-in reference for it yields the nil sentinel, not an error.
pub fn primitive_fallback(h: &mut Heap, val: &Primitive) -> (r: Robj)
    requires
        old(h).wf(),
        terminator_free(val.0@),
        find_sym(old(h).mem(), val.0@) is None,
    ensures
        final(h).wf(),
        final(h).roots() == old(h).roots(),
        r.id() == 0,
{
    let r = Robj::from_primitive(h, val);
    proof {
        let m = h.mem();
        let s = find_sym(m, val.0@)->Some_0;
        assert(crate::model::sym_value(m, s) == 1);
        assert(kind_at(m, 1) is Unbound);
    }
    r
}

/// Materializing any sequence wrapper from zero elements yields an
/// empty result: the cons-spine shapes collapse to the nil sentinel
/// and the vector shapes keep their type tag at length zero.
pub fn empty_materializations(h: &mut Heap) -> (r: (Robj, Robj, Robj, Robj))
    requires
        old(h).wf(),
    ensures
        final(h).wf(),
        final(h).roots() == old(h).roots(),
        r.0.id() == 0 && len_of(final(h).mem(), r.0.id()) == 0,
        r.1.id() == 0 && len_of(final(h).mem(), r.1.id()) == 0,
        kind_at(final(h).mem(), r.2.id()) is VecList && len_of(final(h).mem(), r.2.id()) == 0,
        kind_at(final(h).mem(), r.3.id()) is ExprList && len_of(final(h).mem(), r.3.id()) == 0,
{
    let a = Robj::from_lang(h, &Lang(Vec::new()));
    let b = Robj::from_pairlist(h, &Pairlist { names_and_values: Vec::new() });
    let ghost m_c = h.mem();
    let c = Robj::from_list(h, &List(Vec::new()));
    let ghost m_d = h.mem();
    let d = Robj::from_expr(h, &Expr(Vec::new()));
    proof {
        let m = h.mem();
        assert(crate::model::list_ids(m_d, c.id()).len() == 0);
        assert(crate::model::vec_elems(m_d, c.id()).len() == 0);
        assert(m_d.is_prefix_of(m));
        assert(m_d[c.id()] == m[c.id()]);
        assert(crate::model::list_ids(m, d.id()).len() == 0);
        assert(crate::model::vec_elems(m, d.id()).len() == 0);
    }
    (a, b, c, d)
}

} // verus!
