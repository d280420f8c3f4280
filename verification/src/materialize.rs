use vstd::prelude::*;
use crate::heap::Heap;
use crate::heap::Robj;
use crate::heap::new_owned;
use crate::model::char_text;
use crate::model::find_sym;
use crate::model::is_sym;
use crate::model::env_hashtab;
use crate::model::env_map;
use crate::model::env_names;
use crate::model::env_parent;
use crate::model::kind_at;
use crate::model::lemma_named_vals_stable;
use crate::model::lemma_prefix_trans;
use crate::model::list_ids;
use crate::model::raw_bytes;
use crate::model::spine_named_vals;
use crate::model::spine_vals;
use crate::model::sym_name;
use crate::model::sym_value;
use crate::sexp::Node;
use crate::wrappers::Character;
use crate::wrappers::Expr;
use crate::wrappers::Lang;
use crate::wrappers::List;
use crate::wrappers::Pairlist;
use crate::wrappers::Primitive;
use crate::wrappers::Raw;
use crate::wrappers::Symbol;
use crate::wrappers::robjs_valid;
use crate::wrappers::seq_ids;

verus! {

/// Text free of the foreign terminator byte; names handed to the
/// interning call must satisfy it, since the underlying call truncates
/// at the first terminator.
pub open spec fn terminator_free(s: Seq<u8>) -> bool {
    forall|j: int| 0 <= j < s.len() ==> s[j] != 0u8
}

/// Every name of a pairlist wrapper is terminator-free.
pub open spec fn pairlist_names_ok(s: Seq<(Option<Vec<u8>>, Robj)>) -> bool {
    forall|q: int|
        0 <= q < s.len() ==> match (#[trigger] s[q]).0 {
            Some(n) => terminator_free(n@),
            None => true,
        }
}

impl Robj {
    /// Materializes a named reference: interns the symbol and roots a
    /// handle to it.  Interning the same text twice yields the same
    /// underlying identity.
    pub fn from_symbol(h: &mut Heap, val: &Symbol) -> (r: Robj)
        requires
            old(h).wf(),
            terminator_free(val.0@),
        ensures
            final(h).wf(),
            final(h).roots() == old(h).roots(),
            old(h).mem().is_prefix_of(final(h).mem()),
            r.is_owned(),
            r.valid(final(h).mem()),
            is_sym(final(h).mem(), r.id()),
            sym_name(final(h).mem(), r.id()) == val.0@,
            find_sym(final(h).mem(), val.0@) == Some(r.id()),
            find_sym(old(h).mem(), val.0@) is Some ==> final(h).mem() == old(h).mem()
                && find_sym(old(h).mem(), val.0@) == Some(r.id()),
    {
        let i = h.install(&val.0);
        new_owned(i)
    }

    /// Materializes one character-cache element.
    pub fn from_character(h: &mut Heap, val: &Character) -> (r: Robj)
        requires
            old(h).wf(),
        ensures
            final(h).wf(),
            final(h).roots() == old(h).roots(),
            old(h).mem().is_prefix_of(final(h).mem()),
            r.is_owned(),
            r.valid(final(h).mem()),
            kind_at(final(h).mem(), r.id()) is Char,
            char_text(final(h).mem(), r.id()) == val.0@,
    {
        h.alloc_char(&val.0)
    }

    /// Materializes a raw byte vector: one bulk allocation, then an
    /// element-wise copy; no intermediate protection is needed because
    /// no further allocation happens before the final rooting.
    pub fn from_raw(h: &mut Heap, val: &Raw) -> (r: Robj)
        requires
            old(h).wf(),
        ensures
            final(h).wf(),
            final(h).roots() == old(h).roots(),
            old(h).mem().is_prefix_of(final(h).mem()),
            r.is_owned(),
            r.valid(final(h).mem()),
            kind_at(final(h).mem(), r.id()) is RawBytes,
            raw_bytes(final(h).mem(), r.id()) == val.0@,
    {
        let copied = crate::heap::bytes_copy(&val.0);
        h.alloc_raw(copied)
    }

    /// Materializes a generic list: one allocation sized to the exact
    /// element count, then element-wise stores.
    pub fn from_list(h: &mut Heap, val: &List) -> (r: Robj)
        requires
            old(h).wf(),
            robjs_valid(val.0@, old(h).mem()),
        ensures
            final(h).wf(),
            final(h).roots() == old(h).roots(),
            old(h).mem().is_prefix_of(final(h).mem()),
            r.is_owned(),
            r.valid(final(h).mem()),
            kind_at(final(h).mem(), r.id()) is VecList,
            list_ids(final(h).mem(), r.id()) == val.ids(),
    {
        let idxs = collect_ids(&val.0);
        let v = h.alloc_vec_list(idxs, false);
        proof {
            assert(list_ids(h.mem(), v.id()) =~= val.ids());
        }
        new_owned(v.get())
    }

    /// Materializes a quoted-expression list, as `from_list` under the
    /// expression type tag.
    pub fn from_expr(h: &mut Heap, val: &Expr) -> (r: Robj)
        requires
            old(h).wf(),
            robjs_valid(val.0@, old(h).mem()),
        ensures
            final(h).wf(),
            final(h).roots() == old(h).roots(),
            old(h).mem().is_prefix_of(final(h).mem()),
            r.is_owned(),
            r.valid(final(h).mem()),
            kind_at(final(h).mem(), r.id()) is ExprList,
            list_ids(final(h).mem(), r.id()) == val.ids(),
    {
        let idxs = collect_ids(&val.0);
        let v = h.alloc_vec_list(idxs, true);
        proof {
            assert(list_ids(h.mem(), v.id()) =~= val.ids());
        }
        new_owned(v.get())
    }

    /// Materializes a call expression: built from the end backward so
    /// each new cell's tail is the previously built spine, with the
    /// value and the new cell rooted while construction continues and
    /// the whole stack restored by one computed bulk unprotect.  Zero
    /// elements yield the empty-list sentinel.
    pub fn from_lang(h: &mut Heap, val: &Lang) -> (r: Robj)
        requires
            old(h).wf(),
            robjs_valid(val.0@, old(h).mem()),
        ensures
            final(h).wf(),
            final(h).roots() == old(h).roots(),
            old(h).mem().is_prefix_of(final(h).mem()),
            r.is_owned(),
            r.valid(final(h).mem()),
            val.0@.len() == 0 ==> r.id() == 0,
            val.0@.len() > 0 ==> kind_at(final(h).mem(), r.id()) is Lang && spine_vals(
                final(h).mem(),
                r.id(),
            ) == val.ids(),
    {
        let saved = h.prot_depth();
        let mut res = h.null_value();
        let mut j = val.0.len();
        while j > 0
            invariant
                h.wf(),
                old(h).wf(),
                robjs_valid(val.0@, old(h).mem()),
                j <= val.0@.len(),
                old(h).mem().is_prefix_of(h.mem()),
                res.valid(h.mem()),
                saved as int == old(h).roots().len(),
                h.roots().len() >= saved as int,
                h.roots().take(saved as int) == old(h).roots(),
                spine_vals(h.mem(), res.id()) == val.ids().skip(j as int),
                j < val.0@.len() ==> kind_at(h.mem(), res.id()) is Lang,
                j == val.0@.len() ==> res.id() == 0,
            decreases j,
        {
            j = j - 1;
            let v = val.0[j];
            proof {
                assert(val.0@[j as int].valid(old(h).mem()));
            }
            h.protect(v);
            let nil = h.null_value();
            let ghost m_pre = h.mem();
            let cell = h.cons(v, res, nil, true);
            h.protect(cell);
            proof {
                assert(spine_vals(h.mem(), cell.id()) =~= seq![v.id()] + spine_vals(
                    m_pre,
                    res.id(),
                ));
                assert(val.ids().skip(j as int) =~= seq![val.ids()[j as int]] + val.ids().skip(
                    j + 1,
                ));
                assert(h.roots().take(saved as int) =~= old(h).roots());
                lemma_prefix_trans(old(h).mem(), m_pre, h.mem());
            }
            res = cell;
        }
        let depth = h.prot_depth();
        let n = depth - saved;
        h.unprotect(n);
        proof {
            assert(h.roots() =~= old(h).roots());
        }
        new_owned(res.get())
    }

    /// Materializes a dotted-pair list from the end backward, exactly
    /// as a call expression but with plain cells and per-cell name
    /// tags; the protection stack is restored by one computed bulk
    /// unprotect.  Zero elements yield the empty-list sentinel.
    pub fn from_pairlist(h: &mut Heap, val: &Pairlist) -> (r: Robj)
        requires
            old(h).wf(),
            robjs_valid(
                val.names_and_values@.map_values(|p: (Option<Vec<u8>>, Robj)| p.1),
                old(h).mem(),
            ),
            pairlist_names_ok(val.names_and_values@),
        ensures
            final(h).wf(),
            final(h).roots() == old(h).roots(),
            old(h).mem().is_prefix_of(final(h).mem()),
            r.is_owned(),
            r.valid(final(h).mem()),
            val.names_and_values@.len() == 0 ==> r.id() == 0,
            val.names_and_values@.len() > 0 ==> kind_at(final(h).mem(), r.id()) is PairList
                && spine_named_vals(final(h).mem(), r.id()) == val.ids(),
    {
        let saved = h.prot_depth();
        let mut res = h.null_value();
        let mut j = val.names_and_values.len();
        while j > 0
            invariant
                h.wf(),
                old(h).wf(),
                robjs_valid(
                    val.names_and_values@.map_values(|p: (Option<Vec<u8>>, Robj)| p.1),
                    old(h).mem(),
                ),
                pairlist_names_ok(val.names_and_values@),
                j <= val.names_and_values@.len(),
                old(h).mem().is_prefix_of(h.mem()),
                res.valid(h.mem()),
                saved as int == old(h).roots().len(),
                h.roots().len() >= saved as int,
                h.roots().take(saved as int) == old(h).roots(),
                spine_named_vals(h.mem(), res.id()) == val.ids().skip(j as int),
                j < val.names_and_values@.len() ==> kind_at(h.mem(), res.id()) is PairList,
                j == val.names_and_values@.len() ==> res.id() == 0,
            decreases j,
        {
            j = j - 1;
            let ghost m0 = h.mem();
            let v = val.names_and_values[j].1;
            proof {
                assert(val.names_and_values@.map_values(|p: (Option<Vec<u8>>, Robj)| p.1)[
                    j as int] == val.names_and_values@[j as int].1);
            }
            h.protect(v);
            let tag = match &val.names_and_values[j].0 {
                Some(nm) => {
                    proof {
                        assert(val.names_and_values@[j as int].0 matches Some(x) && x@ == nm@);
                    }
                    let s = h.install(nm);
                    crate::heap::new_sys(s)
                },
                None => h.null_value(),
            };
            let ghost m_pre = h.mem();
            proof {
                lemma_prefix_trans(old(h).mem(), m0, m_pre);
                lemma_named_vals_stable(m0, m_pre, -1, res.id());
            }
            let cell = h.cons(v, res, tag, false);
            h.protect(cell);
            proof {
                assert(spine_named_vals(h.mem(), cell.id()) =~= seq![
                    (crate::model::tag_name(m_pre, tag.id()), v.id()),
                ] + spine_named_vals(m_pre, res.id()));
                assert(val.ids().skip(j as int) =~= seq![val.ids()[j as int]] + val.ids().skip(
                    j + 1,
                ));
                assert(h.roots().take(saved as int) =~= old(h).roots());
                lemma_prefix_trans(old(h).mem(), m_pre, h.mem());
            }
            res = cell;
        }
        let depth = h.prot_depth();
        let n = depth - saved;
        h.unprotect(n);
        proof {
            assert(h.roots() =~= old(h).roots());
        }
        new_owned(res.get())
    }

    /// Materializes a built-in reference: interns the name and reads
    /// the symbol's bound value.  When that value is not classified as
    /// a built-in or special form, the result is the empty-list
    /// sentinel: a defined fallback, since whether a name denotes a
    /// built-in is a property of the loaded runtime.
    pub fn from_primitive(h: &mut Heap, val: &Primitive) -> (r: Robj)
        requires
            old(h).wf(),
            terminator_free(val.0@),
        ensures
            final(h).wf(),
            final(h).roots() == old(h).roots(),
            old(h).mem().is_prefix_of(final(h).mem()),
            r.valid(final(h).mem()),
            find_sym(final(h).mem(), val.0@) is Some,
            !r.is_owned(),
            (kind_at(
                final(h).mem(),
                sym_value(final(h).mem(), find_sym(final(h).mem(), val.0@)->Some_0),
            ) is Builtin || kind_at(
                final(h).mem(),
                sym_value(final(h).mem(), find_sym(final(h).mem(), val.0@)->Some_0),
            ) is Special) ==> r.id() == sym_value(
                final(h).mem(),
                find_sym(final(h).mem(), val.0@)->Some_0,
            ),
            !(kind_at(
                final(h).mem(),
                sym_value(final(h).mem(), find_sym(final(h).mem(), val.0@)->Some_0),
            ) is Builtin || kind_at(
                final(h).mem(),
                sym_value(final(h).mem(), find_sym(final(h).mem(), val.0@)->Some_0),
            ) is Special) ==> r.id() == 0,
            find_sym(old(h).mem(), val.0@) is None ==> sym_value(
                final(h).mem(),
                find_sym(final(h).mem(), val.0@)->Some_0,
            ) == 1,
    {
        let s = h.install(&val.0);
        let mut v: usize = 1;
        match h.node(s) {
            Node::Sym { value, .. } => {
                v = *value;
            },
            _ => {},
        }
        proof {
            assert(crate::model::node_wf(h.mem(), s as int));
            assert(h.mem().len() >= 3);
        }
        let prim = match h.node(v) {
            Node::Builtin { .. } => true,
            _ => false,
        };
        if prim {
            crate::heap::new_sys(v)
        } else {
            h.null_value()
        }
    }
}

/// The mapping a sequence of environment-wrapper entries denotes once
/// bound: names are distinct, and an entry whose value is the unbound
/// sentinel leaves no visible binding.
pub open spec fn bound_map(s: Seq<(Vec<u8>, Robj)>, m: Seq<Node>) -> Map<Seq<u8>, int>
    decreases s.len(),
{
    if s.len() == 0 {
        Map::empty()
    } else {
        let rest = bound_map(s.drop_last(), m);
        if kind_at(m, s.last().1.id()) is Unbound {
            rest
        } else {
            rest.insert(s.last().0@, s.last().1.id())
        }
    }
}

/// The names of an environment wrapper's entries.
pub open spec fn wrapper_names(s: Seq<(Vec<u8>, Robj)>) -> Seq<Seq<u8>> {
    s.map_values(|p: (Vec<u8>, Robj)| p.0@)
}

impl Robj {
    /// Materializes an environment by invoking the runtime's own
    /// constructor entry point (a hashed environment, respecting its
    /// internal hashing invariants) and then binding each entry
    /// through the binding primitive, which performs any needed
    /// protection internally.
    pub fn from_env(h: &mut Heap, val: &crate::wrappers::Env) -> (r: Robj)
        requires
            old(h).wf(),
            val.parent.valid(old(h).mem()),
            forall|q: int|
                0 <= q < val.names_and_values@.len() ==> (#[trigger] val.names_and_values@[q]).1.valid(
                    old(h).mem(),
                ),
            forall|q: int|
                0 <= q < val.names_and_values@.len() ==> terminator_free(
                    (#[trigger] val.names_and_values@[q]).0@,
                ),
            wrapper_names(val.names_and_values@).no_duplicates(),
        ensures
            final(h).wf(),
            final(h).roots() == old(h).roots(),
            final(h).mem().len() >= old(h).mem().len(),
            r.is_owned(),
            r.valid(final(h).mem()),
            kind_at(final(h).mem(), r.id()) is Environment,
            env_parent(final(h).mem(), r.id()) == val.parent.id(),
            env_map(final(h).mem(), r.id()) == bound_map(val.names_and_values@, old(h).mem()),
    {
        let ghost m_orig = old(h).mem();
        let e = h.new_env(val.parent, true);
        let ghost ids = val.names_and_values@;
        let mut i: usize = 0;
        while i < val.names_and_values.len()
            invariant
                h.wf(),
                ids == val.names_and_values@,
                i <= ids.len(),
                forall|q: int| 0 <= q < ids.len() ==> (#[trigger] ids[q]).1.valid(m_orig),
                forall|q: int| 0 <= q < ids.len() ==> terminator_free((#[trigger] ids[q]).0@),
                wrapper_names(ids).no_duplicates(),
                m_orig.len() <= h.mem().len(),
                forall|j: int| 0 <= j < m_orig.len() ==> h.mem()[j] == m_orig[j],
                e.valid(h.mem()),
                e.is_owned(),
                kind_at(h.mem(), e.id()) is Environment,
                env_parent(h.mem(), e.id()) == val.parent.id(),
                e.id() >= m_orig.len(),
                env_hashtab(h.mem(), e.id()) >= m_orig.len(),
                env_map(h.mem(), e.id()) == bound_map(ids.take(i as int), m_orig),
                forall|x: Seq<u8>|
                    #[trigger] env_names(h.mem(), e.id()).contains(x) <==> exists|q: int|
                        0 <= q < i && (#[trigger] ids[q]).0@ == x,
                h.roots() == old(h).roots(),
            decreases ids.len() - i,
        {
            let ghost m_a = h.mem();
            let pair = &val.names_and_values[i];
            let v = pair.1;
            let s = h.install(&pair.0);
            let symh = crate::heap::new_sys(s);
            let ghost m_b = h.mem();
            let ghost nm = ids[i as int].0@;
            proof {
                assert(ids[i as int].1 == v);
                assert(v.valid(m_orig));
                assert(crate::model::agrees_except(m_a, m_b, -1));
                crate::model::lemma_env_stable(m_a, m_b, -1, e.id());
                assert(env_map(m_b, e.id()) == env_map(m_a, e.id()));
                assert(sym_name(m_b, s as int) == nm);
                if env_names(m_b, e.id()).contains(nm) {
                    let q = choose|q: int| 0 <= q < i && (#[trigger] ids[q]).0@ == nm;
                    assert(wrapper_names(ids)[q] == wrapper_names(ids)[i as int]);
                    assert(false);
                }
            }
            h.define_var(symh, v, e);
            proof {
                let m_c = h.mem();
                assert(ids.take(i + 1).drop_last() =~= ids.take(i as int));
                assert(ids.take(i + 1).last() == ids[i as int]);
                assert(kind_at(m_b, v.id()) is Unbound <==> kind_at(m_orig, v.id()) is Unbound);
                assert(env_map(m_c, e.id()) == bound_map(ids.take(i + 1), m_orig));
                assert forall|j: int| 0 <= j < m_orig.len() implies m_c[j] == m_orig[j] by {
                    assert(j != e.id() && j != env_hashtab(m_b, e.id()));
                    assert(m_c[j] == m_b[j]);
                }
                assert forall|x: Seq<u8>|
                    #[trigger] env_names(m_c, e.id()).contains(x) <==> exists|q: int|
                        0 <= q < i + 1 && (#[trigger] ids[q]).0@ == x by {
                    if env_names(m_c, e.id()).contains(x) {
                        if x == nm {
                            assert(0 <= i < i + 1 && ids[i as int].0@ == x);
                        } else {
                            let q = choose|q: int| 0 <= q < i && (#[trigger] ids[q]).0@ == x;
                            assert(0 <= q < i + 1 && ids[q].0@ == x);
                        }
                    }
                    if exists|q: int| 0 <= q < i + 1 && (#[trigger] ids[q]).0@ == x {
                        let q = choose|q: int| 0 <= q < i + 1 && (#[trigger] ids[q]).0@ == x;
                        if q == i as int {
                            assert(env_names(m_c, e.id()).contains(nm));
                        } else {
                            assert(env_names(m_b, e.id()).contains(x));
                        }
                    }
                }
            }
            i = i + 1;
        }
        proof {
            assert(ids.take(ids.len() as int) =~= ids);
        }
        new_owned(e.get())
    }
}

/// Collects the raw indices of a handle sequence.
fn collect_ids(v: &Vec<Robj>) -> (r: Vec<usize>)
    ensures
        r@.len() == v@.len(),
        forall|q: int| 0 <= q < v@.len() ==> (#[trigger] r@[q]) as int == seq_ids(v@)[q],
{
    let mut out: Vec<usize> = Vec::new();
    let mut i: usize = 0;
    while i < v.len()
        invariant
            i <= v@.len(),
            out@.len() == i as int,
            forall|q: int| 0 <= q < i ==> (#[trigger] out@[q]) as int == v@[q].id(),
        decreases v@.len() - i,
    {
        let x = v[i].get();
        out.push(x);
        i = i + 1;
    }
    out
}

} // verus!
