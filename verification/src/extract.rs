use vstd::prelude::*;
use crate::heap::Heap;
use crate::heap::Robj;
use crate::heap::new_owned;
use crate::heap::bytes_copy;
use crate::heap::usizes_copy;
use crate::model::buckets_entries;
use crate::model::chain_entries;
use crate::model::char_text;
use crate::model::clo_body;
use crate::model::clo_env;
use crate::model::clo_formals;
use crate::model::env_entries;
use crate::model::env_parent;
use crate::model::kind_at;
use crate::model::len_of;
use crate::model::list_ids;
use crate::model::node_wf;
use crate::model::prom_code;
use crate::model::prom_env;
use crate::model::prom_seen;
use crate::model::prom_value;
use crate::model::raw_bytes;
use crate::model::spine_named_vals;
use crate::model::spine_vals;
use crate::model::sym_name;
use crate::model::vec_elems;
use crate::sexp::Node;
use crate::sexp::SexpType;
use crate::wrappers::Character;
use crate::wrappers::Env;
use crate::wrappers::Expr;
use crate::wrappers::Func;
use crate::wrappers::Lang;
use crate::wrappers::List;
use crate::wrappers::Pairlist;
use crate::wrappers::Promise;
use crate::wrappers::Raw;
use crate::wrappers::Symbol;
use crate::wrappers::entry_ids;
use crate::wrappers::named_ids;
use crate::wrappers::seq_ids;

verus! {

impl Robj {
    /// The dynamic type tag of the object this handle designates.
    pub fn sexptype(&self, h: &Heap) -> (t: SexpType)
        requires
            h.wf(),
            self.valid(h.mem()),
        ensures
            t == kind_at(h.mem(), self.id()),
    {
        h.node(self.get()).type_of()
    }

    /// Whether this handle designates the empty-list sentinel.
    pub fn is_null(&self, h: &Heap) -> (b: bool)
        requires
            h.wf(),
            self.valid(h.mem()),
        ensures
            b == (kind_at(h.mem(), self.id()) is Nil),
    {
        matches!(self.sexptype(h), SexpType::Nil)
    }

    /// Whether this handle designates the unbound-value sentinel.
    pub fn is_unbound_value(&self, h: &Heap) -> (b: bool)
        requires
            h.wf(),
            self.valid(h.mem()),
        ensures
            b == (kind_at(h.mem(), self.id()) is Unbound),
    {
        matches!(self.sexptype(h), SexpType::Unbound)
    }

    /// Whether this handle designates an interned symbol.
    pub fn is_symbol(&self, h: &Heap) -> (b: bool)
        requires
            h.wf(),
            self.valid(h.mem()),
        ensures
            b == (kind_at(h.mem(), self.id()) is Sym),
    {
        matches!(self.sexptype(h), SexpType::Sym)
    }

    /// Whether this handle designates a call expression.
    pub fn is_language(&self, h: &Heap) -> (b: bool)
        requires
            h.wf(),
            self.valid(h.mem()),
        ensures
            b == (kind_at(h.mem(), self.id()) is Lang),
    {
        matches!(self.sexptype(h), SexpType::Lang)
    }

    /// Whether this handle designates a generic list.
    pub fn is_list(&self, h: &Heap) -> (b: bool)
        requires
            h.wf(),
            self.valid(h.mem()),
        ensures
            b == (kind_at(h.mem(), self.id()) is VecList),
    {
        matches!(self.sexptype(h), SexpType::VecList)
    }

    /// Whether this handle designates a quoted-expression list.
    pub fn is_expr(&self, h: &Heap) -> (b: bool)
        requires
            h.wf(),
            self.valid(h.mem()),
        ensures
            b == (kind_at(h.mem(), self.id()) is ExprList),
    {
        matches!(self.sexptype(h), SexpType::ExprList)
    }

    /// Whether this handle designates a built-in or special form.
    pub fn is_primitive(&self, h: &Heap) -> (b: bool)
        requires
            h.wf(),
            self.valid(h.mem()),
        ensures
            b == (kind_at(h.mem(), self.id()) is Builtin || kind_at(h.mem(), self.id())
                is Special),
    {
        match self.sexptype(h) {
            SexpType::Builtin => true,
            SexpType::Special => true,
            _ => false,
        }
    }

    /// Whether this handle designates a deferred-evaluation record.
    pub fn is_promise(&self, h: &Heap) -> (b: bool)
        requires
            h.wf(),
            self.valid(h.mem()),
        ensures
            b == (kind_at(h.mem(), self.id()) is Promise),
    {
        matches!(self.sexptype(h), SexpType::Promise)
    }

    /// Narrows to a symbol wrapper: the interned name, or nothing when
    /// the handle is no symbol.
    pub fn as_symbol(&self, h: &Heap) -> (r: Option<Symbol>)
        requires
            h.wf(),
            self.valid(h.mem()),
        ensures
            r is Some <==> kind_at(h.mem(), self.id()) is Sym,
            r matches Some(sym) ==> sym.0@ == sym_name(h.mem(), self.id()),
    {
        match h.node(self.get()) {
            Node::Sym { name, .. } => Some(Symbol(bytes_copy(name))),
            _ => None,
        }
    }

    /// Narrows to a character wrapper.
    pub fn as_character(&self, h: &Heap) -> (r: Option<Character>)
        requires
            h.wf(),
            self.valid(h.mem()),
        ensures
            r is Some <==> kind_at(h.mem(), self.id()) is Char,
            r matches Some(c) ==> c.0@ == char_text(h.mem(), self.id()),
    {
        match h.node(self.get()) {
            Node::Char { text } => Some(Character(bytes_copy(text))),
            _ => None,
        }
    }

    /// Narrows to a raw byte wrapper, copying the buffer's content.
    pub fn as_raw(&self, h: &Heap) -> (r: Option<Raw>)
        requires
            h.wf(),
            self.valid(h.mem()),
        ensures
            r is Some <==> kind_at(h.mem(), self.id()) is RawBytes,
            r matches Some(raw) ==> raw.0@ == raw_bytes(h.mem(), self.id()),
    {
        match h.node(self.get()) {
            Node::RawBytes { bytes } => Some(Raw(bytes_copy(bytes))),
            _ => None,
        }
    }

    /// Narrows to a call-expression wrapper by walking the cons spine
    /// and rooting a handle to each element, in order.
    pub fn as_lang(&self, h: &Heap) -> (r: Option<Lang>)
        requires
            h.wf(),
            self.valid(h.mem()),
        ensures
            r is Some <==> kind_at(h.mem(), self.id()) is Lang,
            r matches Some(l) ==> seq_ids(l.0@) == spine_vals(h.mem(), self.id()),
    {
        if !self.is_language(h) {
            return None;
        }
        let mut out: Vec<Robj> = Vec::new();
        let mut c: usize = self.get();
        while h.is_cons_at(c)
            invariant
                h.wf(),
                (c as int) < h.mem().len(),
                self.valid(h.mem()),
                spine_vals(h.mem(), self.id()) == seq_ids(out@) + spine_vals(h.mem(), c as int),
            decreases c,
        {
            let mut car_v: usize = 0;
            let mut cdr_v: usize = 0;
            match h.node(c) {
                Node::Cons { car, cdr, .. } => {
                    car_v = *car;
                    cdr_v = *cdr;
                },
                _ => {},
            }
            proof {
                assert(node_wf(h.mem(), c as int));
            }
            out.push(new_owned(car_v));
            proof {
                assert(seq_ids(out@) =~= seq_ids(out@.drop_last()) + seq![car_v as int]);
                assert(spine_vals(h.mem(), c as int) =~= seq![car_v as int] + spine_vals(
                    h.mem(),
                    cdr_v as int,
                ));
                assert(spine_vals(h.mem(), self.id()) =~= seq_ids(out@) + spine_vals(
                    h.mem(),
                    cdr_v as int,
                ));
            }
            c = cdr_v;
        }
        proof {
            assert(spine_vals(h.mem(), c as int) =~= Seq::<int>::empty());
            assert(seq_ids(out@) =~= spine_vals(h.mem(), self.id()));
        }
        Some(Lang(out))
    }

    /// Narrows to a pairlist wrapper by walking the cons spine in
    /// lock-step over values and name tags.
    pub fn as_pairlist(&self, h: &Heap) -> (r: Option<Pairlist>)
        requires
            h.wf(),
            self.valid(h.mem()),
        ensures
            r is Some <==> kind_at(h.mem(), self.id()) is PairList,
            r matches Some(p) ==> named_ids(p.names_and_values@) == spine_named_vals(
                h.mem(),
                self.id(),
            ),
    {
        let t = self.sexptype(h);
        let go = matches!(t, SexpType::PairList);
        if !go {
            return None;
        }
        let mut out: Vec<(Option<Vec<u8>>, Robj)> = Vec::new();
        let mut c: usize = self.get();
        while h.is_cons_at(c)
            invariant
                h.wf(),
                (c as int) < h.mem().len(),
                self.valid(h.mem()),
                spine_named_vals(h.mem(), self.id()) == named_ids(out@) + spine_named_vals(
                    h.mem(),
                    c as int,
                ),
            decreases c,
        {
            let mut car_v: usize = 0;
            let mut cdr_v: usize = 0;
            let mut tag_v: usize = 0;
            match h.node(c) {
                Node::Cons { car, cdr, tag, .. } => {
                    car_v = *car;
                    cdr_v = *cdr;
                    tag_v = *tag;
                },
                _ => {},
            }
            proof {
                assert(node_wf(h.mem(), c as int));
            }
            let name = match h.node(tag_v) {
                Node::Sym { name, .. } => Some(bytes_copy(name)),
                _ => None,
            };
            out.push((name, new_owned(car_v)));
            proof {
                assert(named_ids(out@) =~= named_ids(out@.drop_last()) + seq![
                    (crate::model::tag_name(h.mem(), tag_v as int), car_v as int),
                ]);
                assert(spine_named_vals(h.mem(), c as int) =~= seq![
                    (crate::model::tag_name(h.mem(), tag_v as int), car_v as int),
                ] + spine_named_vals(h.mem(), cdr_v as int));
                assert(spine_named_vals(h.mem(), self.id()) =~= named_ids(out@)
                    + spine_named_vals(h.mem(), cdr_v as int));
            }
            c = cdr_v;
        }
        proof {
            assert(spine_named_vals(h.mem(), c as int) =~= Seq::<(Option<Seq<u8>>, int)>::empty());
            assert(named_ids(out@) =~= spine_named_vals(h.mem(), self.id()));
        }
        Some(Pairlist { names_and_values: out })
    }

    /// Narrows to a generic-list wrapper, rooting a handle per element
    /// by index.
    pub fn as_list(&self, h: &Heap) -> (r: Option<List>)
        requires
            h.wf(),
            self.valid(h.mem()),
        ensures
            r is Some <==> kind_at(h.mem(), self.id()) is VecList,
            r matches Some(l) ==> seq_ids(l.0@) == list_ids(h.mem(), self.id()),
    {
        if !self.is_list(h) {
            return None;
        }
        Some(List(collect_handles(h, self.get())))
    }

    /// Narrows to an expression-list wrapper.
    pub fn as_expr(&self, h: &Heap) -> (r: Option<Expr>)
        requires
            h.wf(),
            self.valid(h.mem()),
        ensures
            r is Some <==> kind_at(h.mem(), self.id()) is ExprList,
            r matches Some(l) ==> seq_ids(l.0@) == list_ids(h.mem(), self.id()),
    {
        if !self.is_expr(h) {
            return None;
        }
        Some(Expr(collect_handles(h, self.get())))
    }

    /// Narrows to an environment wrapper: the parent handle plus every
    /// visible binding, walking the hash buckets when the environment
    /// is hashed and the direct frame otherwise.  Bindings whose slot
    /// holds the unbound sentinel (deleted but not compacted) are
    /// skipped.
    pub fn as_environment(&self, h: &Heap) -> (r: Option<Env>)
        requires
            h.wf(),
            self.valid(h.mem()),
        ensures
            r is Some <==> kind_at(h.mem(), self.id()) is Environment,
            r matches Some(e) ==> e.parent.id() == env_parent(h.mem(), self.id())
                && entry_ids(e.names_and_values@) == env_entries(h.mem(), self.id()),
    {
        let mut parent_v: usize = 0;
        let mut frame_v: usize = 0;
        let mut hashtab_v: usize = 0;
        let mut is_env = false;
        match h.node(self.get()) {
            Node::Environment { parent, frame, hashtab } => {
                parent_v = *parent;
                frame_v = *frame;
                hashtab_v = *hashtab;
                is_env = true;
            },
            _ => {},
        }
        if !is_env {
            return None;
        }
        proof {
            assert(node_wf(h.mem(), self.id()));
        }
        let mut out: Vec<(Vec<u8>, Robj)> = Vec::new();
        if hashtab_v != 0 {
            let elems = match h.node(hashtab_v) {
                Node::VecList { elems, .. } => usizes_copy(elems),
                _ => Vec::new(),
            };
            proof {
                assert(node_wf(h.mem(), hashtab_v as int));
            }
            let mut b: usize = 0;
            while b < elems.len()
                invariant
                    h.wf(),
                    elems@ == vec_elems(h.mem(), hashtab_v as int),
                    (hashtab_v as int) < h.mem().len(),
                    h.mem()[hashtab_v as int] is VecList,
                    b <= elems@.len(),
                    entry_ids(out@) == buckets_entries(h.mem(), elems@, b as int),
                decreases elems@.len() - b,
            {
                proof {
                    assert(node_wf(h.mem(), hashtab_v as int));
                    assert((elems@[b as int] as int) < h.mem().len());
                }
                let mut c: usize = elems[b];
                while h.is_cons_at(c)
                    invariant
                        h.wf(),
                        (c as int) < h.mem().len(),
                        elems@ == vec_elems(h.mem(), hashtab_v as int),
                        (hashtab_v as int) < h.mem().len(),
                        h.mem()[hashtab_v as int] is VecList,
                        b < elems@.len(),
                        entry_ids(out@) + chain_entries(h.mem(), c as int) == buckets_entries(
                            h.mem(),
                            elems@,
                            b + 1,
                        ),
                    decreases c,
                {
                    c = collect_binding(h, c, &mut out);
                }
                proof {
                    assert(chain_entries(h.mem(), c as int) =~= Seq::<(Seq<u8>, int)>::empty());
                    assert(entry_ids(out@) =~= buckets_entries(h.mem(), elems@, b + 1));
                }
                b = b + 1;
            }
            proof {
                assert(entry_ids(out@) == env_entries(h.mem(), self.id()));
            }
        } else {
            let mut c: usize = frame_v;
            while h.is_cons_at(c)
                invariant
                    h.wf(),
                    (c as int) < h.mem().len(),
                    entry_ids(out@) + chain_entries(h.mem(), c as int) == chain_entries(
                        h.mem(),
                        frame_v as int,
                    ),
                decreases c,
            {
                c = collect_binding(h, c, &mut out);
            }
            proof {
                assert(chain_entries(h.mem(), c as int) =~= Seq::<(Seq<u8>, int)>::empty());
                assert(entry_ids(out@) =~= chain_entries(h.mem(), frame_v as int));
            }
        }
        Some(Env { parent: new_owned(parent_v), names_and_values: out })
    }

    /// Narrows to a closure wrapper: pure projection of formals, body
    /// and defining environment.
    pub fn as_func(&self, h: &Heap) -> (r: Option<Func>)
        requires
            h.wf(),
            self.valid(h.mem()),
        ensures
            r is Some <==> kind_at(h.mem(), self.id()) is Closure,
            r matches Some(f) ==> f.formals.id() == clo_formals(h.mem(), self.id())
                && f.body.id() == clo_body(h.mem(), self.id()) && f.env.id() == clo_env(
                h.mem(),
                self.id(),
            ),
    {
        match h.node(self.get()) {
            Node::Closure { formals, body, env } => Some(
                Func { formals: new_owned(*formals), body: new_owned(*body), env: new_owned(*env) },
            ),
            _ => None,
        }
    }

    /// Narrows to a deferred-evaluation wrapper: pure projection of
    /// code, environment, cached value and forced flag.
    pub fn as_promise(&self, h: &Heap) -> (r: Option<Promise>)
        requires
            h.wf(),
            self.valid(h.mem()),
        ensures
            r is Some <==> kind_at(h.mem(), self.id()) is Promise,
            r matches Some(p) ==> p.code.id() == prom_code(h.mem(), self.id()) && p.env.id()
                == prom_env(h.mem(), self.id()) && p.value.id() == prom_value(h.mem(), self.id())
                && p.seen == prom_seen(h.mem(), self.id()),
    {
        match h.node(self.get()) {
            Node::Promise { code, env, value, seen } => Some(
                Promise {
                    code: new_owned(*code),
                    env: new_owned(*env),
                    value: new_owned(*value),
                    seen: *seen,
                },
            ),
            _ => None,
        }
    }

    /// The length the interpreter reports for this handle: the spine
    /// length of a cons chain, the element count of a vector, the byte
    /// count of a buffer or text, the visible binding count of an
    /// environment, zero for the empty-list sentinel and one
    /// otherwise.
    pub fn length(&self, h: &Heap) -> (n: usize)
        requires
            h.wf(),
            self.valid(h.mem()),
        ensures
            n as int == len_of(h.mem(), self.id()),
    {
        let t = self.sexptype(h);
        match t {
            SexpType::Nil => 0,
            SexpType::Lang => self.spine_len(h),
            SexpType::PairList => self.spine_len(h),
            SexpType::VecList => {
                match h.node(self.get()) {
                    Node::VecList { elems, .. } => elems.len(),
                    _ => 0,
                }
            },
            SexpType::ExprList => {
                match h.node(self.get()) {
                    Node::VecList { elems, .. } => elems.len(),
                    _ => 0,
                }
            },
            SexpType::RawBytes => {
                match h.node(self.get()) {
                    Node::RawBytes { bytes } => bytes.len(),
                    _ => 0,
                }
            },
            SexpType::Char => {
                match h.node(self.get()) {
                    Node::Char { text } => text.len(),
                    _ => 0,
                }
            },
            SexpType::Environment => {
                match self.as_environment(h) {
                    Some(e) => {
                        proof {
                            assert(entry_ids(e.names_and_values@).len() == e.names_and_values@.len());
                        }
                        e.names_and_values.len()
                    },
                    None => 0,
                }
            },
            _ => 1,
        }
    }

    /// The cell count of the cons spine at this handle.
    fn spine_len(&self, h: &Heap) -> (n: usize)
        requires
            h.wf(),
            self.valid(h.mem()),
            kind_at(h.mem(), self.id()) is Lang || kind_at(h.mem(), self.id()) is PairList,
        ensures
            n as int == spine_vals(h.mem(), self.id()).len(),
    {
        let mut n: usize = 0;
        let mut c: usize = self.get();
        let cap = h.node_count();
        proof {
            crate::model::lemma_spine_len_bound(h.mem(), self.id());
        }
        while h.is_cons_at(c)
            invariant
                h.wf(),
                (c as int) < h.mem().len(),
                self.valid(h.mem()),
                cap as int == h.mem().len(),
                spine_vals(h.mem(), self.id()).len() <= cap as int,
                n as int + spine_vals(h.mem(), c as int).len() == spine_vals(
                    h.mem(),
                    self.id(),
                ).len(),
                n as int <= spine_vals(h.mem(), self.id()).len(),
            decreases c,
        {
            let mut cdr_v: usize = 0;
            match h.node(c) {
                Node::Cons { cdr, .. } => {
                    cdr_v = *cdr;
                },
                _ => {},
            }
            proof {
                assert(node_wf(h.mem(), c as int));
                assert(spine_vals(h.mem(), c as int) =~= seq![spine_vals(h.mem(), c as int)[0]]
                    + spine_vals(h.mem(), cdr_v as int));
            }
            n = n + 1;
            c = cdr_v;
        }
        n
    }
}

/// Roots one handle per element of the vector node at `i`.
fn collect_handles(h: &Heap, i: usize) -> (r: Vec<Robj>)
    requires
        h.wf(),
        (i as int) < h.mem().len(),
        h.mem()[i as int] is VecList,
    ensures
        seq_ids(r@) == list_ids(h.mem(), i as int),
{
    let elems = match h.node(i) {
        Node::VecList { elems, .. } => usizes_copy(elems),
        _ => Vec::new(),
    };
    let mut out: Vec<Robj> = Vec::new();
    let mut k: usize = 0;
    while k < elems.len()
        invariant
            elems@ == vec_elems(h.mem(), i as int),
            k <= elems@.len(),
            seq_ids(out@) == list_ids(h.mem(), i as int).take(k as int),
        decreases elems@.len() - k,
    {
        let r0 = new_owned(elems[k]);
        let ghost prev = out@;
        out.push(r0);
        proof {
            let li = list_ids(h.mem(), i as int);
            assert(seq_ids(prev) == li.take(k as int));
            assert(prev.len() == k as int) by {
                assert(seq_ids(prev).len() == li.take(k as int).len());
            }
            assert(out@ == prev.push(r0));
            assert(li[k as int] == (elems@[k as int]) as int);
            assert(seq_ids(out@).len() == k + 1);
            assert(li.take(k + 1).len() == k + 1);
            assert forall|q: int| 0 <= q < k + 1 implies seq_ids(out@)[q] == li.take(k + 1)[q] by {
                if q < k {
                    assert(out@[q] == prev[q]);
                    assert(seq_ids(prev)[q] == li.take(k as int)[q]);
                } else {
                    assert(out@[q] == r0);
                }
            }
            assert(seq_ids(out@) =~= li.take(k + 1));
        }
        k = k + 1;
    }
    proof {
        assert(list_ids(h.mem(), i as int).take(elems@.len() as int) =~= list_ids(
            h.mem(),
            i as int,
        ));
    }
    out
}

/// Appends the visible binding of the cell at `c`, if any: skipped
/// when the tag holds no symbol or the slot holds the unbound
/// sentinel.  Returns the tail of the chain.
fn collect_binding(h: &Heap, c: usize, out: &mut Vec<(Vec<u8>, Robj)>) -> (cdr: usize)
    requires
        h.wf(),
        (c as int) < h.mem().len(),
        h.mem()[c as int] is Cons,
    ensures
        (cdr as int) < c as int,
        entry_ids(final(out)@) + chain_entries(h.mem(), cdr as int) == entry_ids(old(out)@)
            + chain_entries(h.mem(), c as int),
{
    proof {
        assert(node_wf(h.mem(), c as int));
    }
    let mut car_v: usize = 0;
    let mut tag_v: usize = 0;
    let mut cdr_v: usize = 0;
    match h.node(c) {
        Node::Cons { car, cdr, tag, .. } => {
            car_v = *car;
            cdr_v = *cdr;
            tag_v = *tag;
        },
        _ => {},
    }
    let mut name: Option<Vec<u8>> = None;
    match h.node(tag_v) {
        Node::Sym { name: nm, .. } => {
            name = Some(bytes_copy(nm));
        },
        _ => {},
    }
    let unbound = match h.node(car_v) {
        Node::Unbound => true,
        _ => false,
    };
    let ghost m = h.mem();
    let ghost ci = c as int;
    match name {
        Some(nm) => {
            if !unbound {
                out.push((nm, new_owned(car_v)));
                proof {
                    assert(chain_entries(m, ci) =~= seq![(sym_name(m, tag_v as int), car_v as int)]
                        + chain_entries(m, cdr_v as int));
                    assert(entry_ids(out@) =~= entry_ids(old(out)@) + seq![
                        (sym_name(m, tag_v as int), car_v as int),
                    ]);
                    assert(entry_ids(out@) + chain_entries(m, cdr_v as int) =~= entry_ids(
                        old(out)@,
                    ) + chain_entries(m, ci));
                }
            } else {
                proof {
                    assert(chain_entries(m, ci) =~= chain_entries(m, cdr_v as int));
                }
            }
        },
        None => {
            proof {
                assert(chain_entries(m, ci) =~= chain_entries(m, cdr_v as int));
            }
        },
    }
    cdr_v
}

} // verus!
