use vstd::prelude::*;
use vstd::pervasive::VecAdditionalExecFns;
use crate::sexp::Node;
use crate::sexp::SexpType;
use crate::model::agrees_except;
use crate::model::env_entries;
use crate::model::env_frame;
use crate::model::env_hashtab;
use crate::model::env_names;
use crate::model::env_parent;
use crate::model::chain_names;
use crate::model::env_sane;
use crate::model::find_sym;
use crate::model::is_sym;
use crate::model::is_vec_list;
use crate::model::kind_at;
use crate::model::bucket_of;
use crate::model::byte_sum;
use crate::model::env_map;
use crate::model::has_entry_name;
use crate::model::lemma_buckets_congruence;
use crate::model::lemma_buckets_insert;
use crate::model::lemma_buckets_names_member;
use crate::model::lemma_buckets_names_update;
use crate::model::lemma_chain_entry_names;
use crate::model::lemma_chain_stable;
use crate::model::lemma_prefix_trans;
use crate::model::lemma_contains_concat;
use crate::model::lemma_entry_map_cons;
use crate::model::lemma_nil_buckets;
use crate::model::lemma_no_dup_cons;
use crate::model::chain_entries;
use crate::model::lemma_find_sym_at;
use crate::model::lemma_find_sym_none_step;
use crate::model::lemma_find_sym_stable;
use crate::model::lemma_push_keeps_wf;
use crate::model::mem_wf;
use crate::model::node_wf;
use crate::model::nodes_bounded;
use crate::model::spine;
use crate::model::spine_named_vals;
use crate::model::sym_name;
use crate::model::sym_value;
use crate::model::tag_name;
use crate::model::vec_elems;

verus! {

/// The bucket count of a freshly constructed hashed environment.
pub const ENV_BUCKETS: usize = 29;

/// A handle to one object of the model heap.  The ownership tag
/// separates handles rooted by native code (which hold one collector
/// root until released) from handles borrowed from structures the
/// interpreter already keeps reachable, which native code must never
/// unroot.
#[derive(Clone, Copy, PartialEq, Eq, Structural, Debug)]
pub struct Robj {
    idx: usize,
    owned: bool,
}

impl Robj {
    /// The heap index this handle designates.
    pub closed spec fn id(self) -> int {
        self.idx as int
    }

    /// Whether native code holds a collector root for this handle.
    pub closed spec fn is_owned(self) -> bool {
        self.owned
    }

    pub open spec fn valid(self, m: Seq<Node>) -> bool {
        0 <= self.id() < m.len()
    }

    /// The raw index, as handed to the underlying call layer.
    pub fn get(&self) -> (i: usize)
        ensures
            i as int == self.id(),
    {
        self.idx
    }

    pub fn owned(&self) -> (o: bool)
        ensures
            o == self.is_owned(),
    {
        self.owned
    }
}

/// Wraps an index as a handle freshly rooted by native code.
pub fn new_owned(idx: usize) -> (r: Robj)
    ensures
        r.id() == idx as int,
        r.is_owned(),
{
    Robj { idx, owned: true }
}

/// Wraps an index as a handle borrowed from an already-reachable
/// structure; native code must never release its root.
pub fn new_sys(idx: usize) -> (r: Robj)
    ensures
        r.id() == idx as int,
        !r.is_owned(),
{
    Robj { idx, owned: false }
}

/// The model of the foreign interpreter heap: an arena of nodes plus
/// the protection stack the collector scans.  Taking the heap by
/// `&mut` is the single-threaded-reentrancy guard of this model: no
/// two conversions can touch the allocator or the protection stack at
/// once.
pub struct Heap {
    nodes: Vec<Node>,
    prot: Vec<usize>,
}

impl Heap {
    /// The nodes of the heap.
    pub closed spec fn mem(self) -> Seq<Node> {
        self.nodes@
    }

    /// The protection stack, bottom first.
    pub closed spec fn roots(self) -> Seq<usize> {
        self.prot@
    }

    pub open spec fn wf(self) -> bool {
        &&& mem_wf(self.mem())
        &&& roots_ok(self.roots(), self.mem().len() as int)
    }

    /// A fresh machine: the nil and unbound sentinels, an empty global
    /// environment, and an empty protection stack.
    pub fn new() -> (h: Heap)
        ensures
            h.wf(),
            h.mem().len() == 3,
            h.roots().len() == 0,
            kind_at(h.mem(), 2) is Environment,
            env_entries(h.mem(), 2) =~= Seq::<(Seq<u8>, int)>::empty(),
            env_names(h.mem(), 2) =~= Seq::<Seq<u8>>::empty(),
            env_parent(h.mem(), 2) == 0,
    {
        let mut nodes: Vec<Node> = Vec::new();
        nodes.push(Node::Nil);
        nodes.push(Node::Unbound);
        nodes.push(Node::Environment { parent: 0, frame: 0, hashtab: 0 });
        let h = Heap { nodes, prot: Vec::new() };
        proof {
            assert forall|i: int| 0 <= i < h.mem().len() implies node_wf(h.mem(), i) by {}
            assert(env_hashtab(h.mem(), 2) == 0);
            assert(env_frame(h.mem(), 2) == 0);
        }
        h
    }

    /// The number of nodes.
    pub fn node_count(&self) -> (n: usize)
        ensures
            n as int == self.mem().len(),
    {
        self.nodes.len()
    }

    /// The empty-list sentinel, borrowed.
    pub fn null_value(&self) -> (r: Robj)
        requires
            self.wf(),
        ensures
            r.id() == 0,
            !r.is_owned(),
            kind_at(self.mem(), r.id()) is Nil,
    {
        new_sys(0)
    }

    /// The unbound-value sentinel, borrowed.
    pub fn unbound_value(&self) -> (r: Robj)
        requires
            self.wf(),
        ensures
            r.id() == 1,
            !r.is_owned(),
            kind_at(self.mem(), r.id()) is Unbound,
    {
        new_sys(1)
    }

    /// The global environment, borrowed: the interpreter owns its
    /// root.
    pub fn global_env(&self) -> (r: Robj)
        requires
            self.wf(),
        ensures
            r.id() == 2,
            !r.is_owned(),
            kind_at(self.mem(), r.id()) is Environment,
    {
        new_sys(2)
    }

    /// Reads the node at `i`.
    pub(crate) fn node(&self, i: usize) -> (n: &Node)
        requires
            (i as int) < self.mem().len(),
        ensures
            *n == self.mem()[i as int],
    {
        &self.nodes[i]
    }

    /// Pushes one handle onto the protection stack, shielding it from
    /// the collector until the matching unprotect.
    pub fn protect(&mut self, r: Robj)
        requires
            old(self).wf(),
            r.valid(old(self).mem()),
        ensures
            final(self).wf(),
            final(self).mem() == old(self).mem(),
            final(self).roots() == old(self).roots().push(r.id() as usize),
    {
        let i = r.get();
        self.prot.push(i);
        proof {
            lemma_roots_push(old(self).roots(), i, self.mem().len() as int);
        }
    }

    /// Pops the topmost `n` protection-stack entries in one step: the
    /// bulk unprotect that closes a construction sequence.
    pub fn unprotect(&mut self, n: usize)
        requires
            old(self).wf(),
            n <= old(self).roots().len(),
        ensures
            final(self).wf(),
            final(self).mem() == old(self).mem(),
            final(self).roots() == old(self).roots().take(
                old(self).roots().len() - n as int,
            ),
    {
        let depth = self.prot.len();
        self.prot.truncate(depth - n);
        proof {
            assert(self.roots() =~= old(self).roots().take(
                old(self).roots().len() - n as int,
            ));
            lemma_roots_take(
                old(self).roots(),
                old(self).roots().len() - n as int,
                self.mem().len() as int,
            );
        }
    }

    /// The current protection-stack depth.
    pub fn prot_depth(&self) -> (n: usize)
        ensures
            n as int == self.roots().len(),
    {
        self.prot.len()
    }

    /// Interns a symbol by exact byte sequence and returns its index:
    /// the existing node when the name is already interned, else a
    /// fresh symbol node with an unbound value slot.  The foreign
    /// interning call truncates at a text terminator, so the name must
    /// be terminator-free.
    pub fn install(&mut self, name: &Vec<u8>) -> (r: usize)
        requires
            old(self).wf(),
            forall|j: int| 0 <= j < name@.len() ==> name@[j] != 0u8,
        ensures
            final(self).wf(),
            final(self).roots() == old(self).roots(),
            old(self).mem().is_prefix_of(final(self).mem()),
            (r as int) < final(self).mem().len(),
            find_sym(final(self).mem(), name@) == Some(r as int),
            is_sym(final(self).mem(), r as int),
            sym_name(final(self).mem(), r as int) == name@,
            find_sym(old(self).mem(), name@) is Some ==> final(self).mem() == old(self).mem()
                && find_sym(old(self).mem(), name@) == Some(r as int),
            find_sym(old(self).mem(), name@) is None ==> final(self).mem().len() == old(
                self,
            ).mem().len() + 1 && sym_value(final(self).mem(), r as int) == 1,
    {
        let ghost m0 = self.mem();
        let n = self.nodes.len();
        let mut i: usize = 0;
        while i < n
            invariant
                *self == *old(self),
                self.wf(),
                n as int == m0.len(),
                m0 == self.mem(),
                i <= n,
                find_sym(m0.take(i as int), name@) is None,
            decreases n - i,
        {
            let mut hit = false;
            match self.node(i) {
                Node::Sym { name: nm, .. } => {
                    if bytes_eq(nm, name) {
                        hit = true;
                    }
                },
                _ => {},
            }
            if hit {
                proof {
                    lemma_find_sym_at(m0, i as int, name@);
                }
                return i;
            }
            proof {
                lemma_find_sym_none_step(m0, i as int, name@);
            }
            i = i + 1;
        }
        proof {
            assert(m0.take(n as int) =~= m0);
        }
        let fresh = bytes_copy(name);
        self.nodes.push(Node::Sym { name: fresh, value: 1 });
        proof {
            let m2 = self.mem();
            assert(m2 == m0.push(Node::Sym { name: fresh, value: 1 }));
            assert(sym_name(m2, m0.len() as int) == name@);
            lemma_push_keeps_wf(m0, Node::Sym { name: fresh, value: 1 });
            lemma_roots_grow(self.roots(), m0.len() as int, m2.len() as int);
            assert(m2.drop_last() =~= m0);
            assert(find_sym(m2, name@) == Some(m0.len() as int));
        }
        n
    }

    /// Allocates one cons cell carrying its optional name tag; the
    /// returned handle is fresh and not yet rooted.
    pub fn cons(&mut self, car: Robj, cdr: Robj, tag: Robj, is_lang: bool) -> (r: Robj)
        requires
            old(self).wf(),
            car.valid(old(self).mem()),
            cdr.valid(old(self).mem()),
            tag.valid(old(self).mem()),
        ensures
            final(self).wf(),
            final(self).roots() == old(self).roots(),
            old(self).mem().is_prefix_of(final(self).mem()),
            final(self).mem().len() == old(self).mem().len() + 1,
            r.id() == old(self).mem().len(),
            !r.is_owned(),
            kind_at(final(self).mem(), r.id()) == (if is_lang {
                SexpType::Lang
            } else {
                SexpType::PairList
            }),
            spine(final(self).mem(), r.id()) == seq![(tag.id(), car.id())] + spine(
                old(self).mem(),
                cdr.id(),
            ),
            spine_named_vals(final(self).mem(), r.id()) == seq![
                (tag_name(old(self).mem(), tag.id()), car.id()),
            ] + spine_named_vals(old(self).mem(), cdr.id()),
    {
        let idx = self.nodes.len();
        let cell = Node::Cons { is_lang, car: car.get(), cdr: cdr.get(), tag: tag.get() };
        self.nodes.push(cell);
        proof {
            let m0 = old(self).mem();
            let m2 = self.mem();
            lemma_push_keeps_wf(m0, cell);
            lemma_roots_grow(self.roots(), m0.len() as int, m2.len() as int);
            crate::model::lemma_spine_stable(m0, m2, -1, cdr.id());
            assert(spine(m2, idx as int) == seq![(tag.id(), car.id())] + spine(m2, cdr.id()));
            crate::model::lemma_spine_bounded(m0, cdr.id());
            assert(spine_named_vals(m2, idx as int) =~= seq![
                (tag_name(m0, tag.id()), car.id()),
            ] + spine_named_vals(m0, cdr.id())) by {
                let s0 = spine(m0, cdr.id());
                assert forall|q: int|
                    0 <= q < s0.len() implies tag_name(m2, s0[q].0) == tag_name(
                    m0,
                    s0[q].0,
                ) by {
                    assert(0 <= s0[q].0 < m0.len());
                }
            }
        }
        new_sys(idx)
    }

    /// Allocates one vector node holding the given element indices;
    /// the returned handle is fresh and not yet rooted.
    pub fn alloc_vec_list(&mut self, elems: Vec<usize>, is_expr: bool) -> (r: Robj)
        requires
            old(self).wf(),
            forall|j: int| 0 <= j < elems@.len() ==> ((#[trigger] elems@[j]) as int) < old(self).mem().len(),
        ensures
            final(self).wf(),
            final(self).roots() == old(self).roots(),
            old(self).mem().is_prefix_of(final(self).mem()),
            final(self).mem().len() == old(self).mem().len() + 1,
            r.id() == old(self).mem().len(),
            !r.is_owned(),
            kind_at(final(self).mem(), r.id()) == (if is_expr {
                SexpType::ExprList
            } else {
                SexpType::VecList
            }),
            vec_elems(final(self).mem(), r.id()) == elems@,
    {
        let idx = self.nodes.len();
        let node = Node::VecList { is_expr, elems };
        self.nodes.push(node);
        proof {
            lemma_push_keeps_wf(old(self).mem(), node);
            lemma_roots_grow(
                self.roots(),
                old(self).mem().len() as int,
                self.mem().len() as int,
            );
        }
        new_sys(idx)
    }

    /// Allocates a scalar integer and roots it for native code.
    pub fn alloc_int(&mut self, value: i64) -> (r: Robj)
        requires
            old(self).wf(),
        ensures
            final(self).wf(),
            final(self).roots() == old(self).roots(),
            old(self).mem().is_prefix_of(final(self).mem()),
            final(self).mem().len() == old(self).mem().len() + 1,
            r.id() == old(self).mem().len(),
            r.is_owned(),
            kind_at(final(self).mem(), r.id()) is Int,
            final(self).mem()[r.id()] == (Node::Int { value }),
    {
        let idx = self.nodes.len();
        self.nodes.push(Node::Int { value });
        proof {
            lemma_push_keeps_wf(old(self).mem(), Node::Int { value });
            lemma_roots_grow(
                self.roots(),
                old(self).mem().len() as int,
                self.mem().len() as int,
            );
        }
        new_owned(idx)
    }

    /// Allocates a closure node from its three projections and roots
    /// it; the model's stand-in for closures the interpreter builds.
    pub fn alloc_closure(&mut self, formals: Robj, body: Robj, env: Robj) -> (r: Robj)
        requires
            old(self).wf(),
            formals.valid(old(self).mem()),
            body.valid(old(self).mem()),
            env.valid(old(self).mem()),
        ensures
            final(self).wf(),
            final(self).roots() == old(self).roots(),
            old(self).mem().is_prefix_of(final(self).mem()),
            final(self).mem().len() == old(self).mem().len() + 1,
            r.id() == old(self).mem().len(),
            r.is_owned(),
            kind_at(final(self).mem(), r.id()) is Closure,
            crate::model::clo_formals(final(self).mem(), r.id()) == formals.id(),
            crate::model::clo_body(final(self).mem(), r.id()) == body.id(),
            crate::model::clo_env(final(self).mem(), r.id()) == env.id(),
    {
        let idx = self.nodes.len();
        let node = Node::Closure { formals: formals.get(), body: body.get(), env: env.get() };
        self.nodes.push(node);
        proof {
            lemma_push_keeps_wf(old(self).mem(), node);
            lemma_roots_grow(
                self.roots(),
                old(self).mem().len() as int,
                self.mem().len() as int,
            );
        }
        new_owned(idx)
    }

    /// Allocates a deferred-evaluation record and roots it; the
    /// model's stand-in for promises the interpreter builds.
    pub fn alloc_promise(&mut self, code: Robj, env: Robj, value: Robj, seen: bool) -> (r: Robj)
        requires
            old(self).wf(),
            code.valid(old(self).mem()),
            env.valid(old(self).mem()),
            value.valid(old(self).mem()),
        ensures
            final(self).wf(),
            final(self).roots() == old(self).roots(),
            old(self).mem().is_prefix_of(final(self).mem()),
            final(self).mem().len() == old(self).mem().len() + 1,
            r.id() == old(self).mem().len(),
            r.is_owned(),
            kind_at(final(self).mem(), r.id()) is Promise,
            crate::model::prom_code(final(self).mem(), r.id()) == code.id(),
            crate::model::prom_env(final(self).mem(), r.id()) == env.id(),
            crate::model::prom_value(final(self).mem(), r.id()) == value.id(),
            crate::model::prom_seen(final(self).mem(), r.id()) == seen,
    {
        let idx = self.nodes.len();
        let node = Node::Promise { code: code.get(), env: env.get(), value: value.get(), seen };
        self.nodes.push(node);
        proof {
            lemma_push_keeps_wf(old(self).mem(), node);
            lemma_roots_grow(
                self.roots(),
                old(self).mem().len() as int,
                self.mem().len() as int,
            );
        }
        new_owned(idx)
    }

    /// Whether the node at `i` is a cons cell.
    pub(crate) fn is_cons_at(&self, i: usize) -> (b: bool)
        requires
            (i as int) < self.mem().len(),
        ensures
            b == (self.mem()[i as int] is Cons),
    {
        match self.node(i) {
            Node::Cons { .. } => true,
            _ => false,
        }
    }

    /// Allocates one character-cache element and roots it.
    pub fn alloc_char(&mut self, text: &Vec<u8>) -> (r: Robj)
        requires
            old(self).wf(),
        ensures
            final(self).wf(),
            final(self).roots() == old(self).roots(),
            old(self).mem().is_prefix_of(final(self).mem()),
            final(self).mem().len() == old(self).mem().len() + 1,
            r.id() == old(self).mem().len(),
            r.is_owned(),
            kind_at(final(self).mem(), r.id()) is Char,
            crate::model::char_text(final(self).mem(), r.id()) == text@,
    {
        let idx = self.nodes.len();
        let node = Node::Char { text: bytes_copy(text) };
        self.nodes.push(node);
        proof {
            lemma_push_keeps_wf(old(self).mem(), node);
            lemma_roots_grow(
                self.roots(),
                old(self).mem().len() as int,
                self.mem().len() as int,
            );
        }
        new_owned(idx)
    }

    /// Allocates one fixed-length raw vector holding the given bytes
    /// and roots it.
    pub fn alloc_raw(&mut self, bytes: Vec<u8>) -> (r: Robj)
        requires
            old(self).wf(),
        ensures
            final(self).wf(),
            final(self).roots() == old(self).roots(),
            old(self).mem().is_prefix_of(final(self).mem()),
            final(self).mem().len() == old(self).mem().len() + 1,
            r.id() == old(self).mem().len(),
            r.is_owned(),
            kind_at(final(self).mem(), r.id()) is RawBytes,
            crate::model::raw_bytes(final(self).mem(), r.id()) == bytes@,
    {
        let idx = self.nodes.len();
        let node = Node::RawBytes { bytes };
        self.nodes.push(node);
        proof {
            lemma_push_keeps_wf(old(self).mem(), node);
            lemma_roots_grow(
                self.roots(),
                old(self).mem().len() as int,
                self.mem().len() as int,
            );
        }
        new_owned(idx)
    }

    /// Builds a fresh environment through the runtime's own
    /// constructor entry point, so that its internal hashing
    /// invariants hold: hashed environments get a bucket vector,
    /// unhashed ones keep a direct binding frame.  The handle is
    /// rooted.
    pub fn new_env(&mut self, parent: Robj, hashed: bool) -> (r: Robj)
        requires
            old(self).wf(),
            parent.valid(old(self).mem()),
        ensures
            final(self).wf(),
            final(self).roots() == old(self).roots(),
            old(self).mem().is_prefix_of(final(self).mem()),
            r.is_owned(),
            r.valid(final(self).mem()),
            kind_at(final(self).mem(), r.id()) is Environment,
            env_parent(final(self).mem(), r.id()) == parent.id(),
            env_entries(final(self).mem(), r.id()) == Seq::<(Seq<u8>, int)>::empty(),
            env_names(final(self).mem(), r.id()) == Seq::<Seq<u8>>::empty(),
            env_map(final(self).mem(), r.id()) == Map::<Seq<u8>, int>::empty(),
            (env_hashtab(final(self).mem(), r.id()) != 0) == hashed,
            r.id() >= old(self).mem().len(),
            hashed ==> env_hashtab(final(self).mem(), r.id()) == old(self).mem().len(),
    {
        let ghost m0 = self.mem();
        let mut ht: usize = 0;
        if hashed {
            let mut buckets: Vec<usize> = Vec::new();
            let mut k: usize = 0;
            while k < ENV_BUCKETS
                invariant
                    k <= ENV_BUCKETS,
                    buckets@.len() == k as int,
                    forall|j: int| 0 <= j < k ==> (#[trigger] buckets@[j]) == 0,
                decreases ENV_BUCKETS - k,
            {
                buckets.push(0);
                k = k + 1;
            }
            let v = self.alloc_vec_list(buckets, false);
            ht = v.get();
        }
        let ghost m1 = self.mem();
        let idx = self.nodes.len();
        let node = Node::Environment { parent: parent.get(), frame: 0, hashtab: ht };
        self.nodes.push(node);
        proof {
            let m2 = self.mem();
            if hashed {
                assert(is_vec_list(m2, ht as int));
                assert(vec_elems(m2, ht as int).len() == ENV_BUCKETS as int);
                assert(node_wf(m2, idx as int));
                lemma_nil_buckets(
                    m2,
                    vec_elems(m2, ht as int),
                    vec_elems(m2, ht as int).len() as int,
                );
                assert forall|j: int|
                    0 <= j < vec_elems(m2, ht as int).len() implies chain_names(
                    m2,
                    #[trigger] vec_elems(m2, ht as int)[j] as int,
                ).no_duplicates() by {
                    assert(vec_elems(m2, ht as int)[j] == 0);
                    assert(chain_names(m2, 0) =~= Seq::<Seq<u8>>::empty());
                }
                assert forall|j: int, n: Seq<u8>|
                    0 <= j < vec_elems(m2, ht as int).len() && #[trigger] chain_names(
                        m2,
                        vec_elems(m2, ht as int)[j] as int,
                    ).contains(n) implies bucket_of(n, vec_elems(m2, ht as int).len() as int)
                    == j by {
                    assert(vec_elems(m2, ht as int)[j] == 0);
                    assert(chain_names(m2, 0) =~= Seq::<Seq<u8>>::empty());
                }
                assert(env_sane(m2, idx as int));
            } else {
                assert(chain_names(m2, 0) =~= Seq::<Seq<u8>>::empty());
                assert(chain_entries(m2, 0) =~= Seq::<(Seq<u8>, int)>::empty());
                assert(env_sane(m2, idx as int));
            }
            lemma_push_keeps_wf(m1, node);
            lemma_roots_grow(self.roots(), m1.len() as int, m2.len() as int);
            lemma_prefix_trans(m0, m1, m2);
            assert(env_entries(m2, idx as int) =~= Seq::<(Seq<u8>, int)>::empty());
            assert(env_names(m2, idx as int) =~= Seq::<Seq<u8>>::empty());
            assert(env_map(m2, idx as int) =~= Map::<Seq<u8>, int>::empty());
        }
        new_owned(idx)
    }

    /// The hash bucket the name of the symbol at `s` falls into.
    fn bucket_index(&self, s: usize, n: usize) -> (b: usize)
        requires
            self.wf(),
            (s as int) < self.mem().len(),
            self.mem()[s as int] is Sym,
            0 < n,
        ensures
            b as int == bucket_of(sym_name(self.mem(), s as int), n as int),
            b < n,
    {
        let ghost nm = sym_name(self.mem(), s as int);
        let mut acc: u128 = 0;
        let nw = n as u128;
        let name = match self.node(s) {
            Node::Sym { name, .. } => name,
            _ => {
                proof {
                    assert(false);
                }
                return 0;
            },
        };
        let mut i: usize = 0;
        while i < name.len()
            invariant
                self.wf(),
                name@ == nm,
                i <= nm.len(),
                0 < n,
                nw == n as u128,
                acc < nw,
                acc as int == byte_sum(nm.take(i as int)) % (n as int),
            decreases nm.len() - i,
        {
            let x = name[i] as u128;
            proof {
                let sp = byte_sum(nm.take(i as int));
                assert(nm.take(i + 1).drop_last() =~= nm.take(i as int));
                assert(byte_sum(nm.take(i + 1)) == sp + nm[i as int]);
                vstd::arithmetic::div_mod::lemma_add_mod_noop(sp, x as int, n as int);
                vstd::arithmetic::div_mod::lemma_add_mod_noop(sp % (n as int), x as int, n as int);
                vstd::arithmetic::div_mod::lemma_mod_twice(sp, n as int);
                vstd::arithmetic::div_mod::lemma_mod_bound(sp + x, n as int);
                vstd::arithmetic::div_mod::lemma_mod_bound((sp % (n as int)) + x, n as int);
            }
            acc = (acc + x) % nw;
            i = i + 1;
        }
        proof {
            assert(nm.take(nm.len() as int) =~= nm);
            vstd::arithmetic::div_mod::lemma_mod_bound(byte_sum(nm), n as int);
        }
        acc as usize
    }

    /// Binds the symbol at `sym` to `val` inside `env` through the
    /// runtime's binding primitive: the binding lands in the hash
    /// bucket the name falls into, or at the front of the direct frame
    /// of an unhashed environment.  The foreign primitive also
    /// overwrites an existing binding in place; this layer binds each
    /// name of a mapping once, so the model states the fresh-name
    /// case.  Binding the unbound sentinel leaves a deleted slot that
    /// extraction skips.
    pub fn define_var(&mut self, sym: Robj, val: Robj, env: Robj)
        requires
            old(self).wf(),
            sym.valid(old(self).mem()),
            val.valid(old(self).mem()),
            env.valid(old(self).mem()),
            is_sym(old(self).mem(), sym.id()),
            kind_at(old(self).mem(), env.id()) is Environment,
            !env_names(old(self).mem(), env.id()).contains(
                sym_name(old(self).mem(), sym.id()),
            ),
        ensures
            final(self).wf(),
            final(self).roots() == old(self).roots(),
            final(self).mem().len() == old(self).mem().len() + 1,
            kind_at(final(self).mem(), env.id()) is Environment,
            env_parent(final(self).mem(), env.id()) == env_parent(old(self).mem(), env.id()),
            env_hashtab(final(self).mem(), env.id()) == env_hashtab(old(self).mem(), env.id()),
            forall|j: int|
                0 <= j < old(self).mem().len() && j != env.id() && j != env_hashtab(
                    old(self).mem(),
                    env.id(),
                ) ==> final(self).mem()[j] == old(self).mem()[j],
            forall|x: Seq<u8>|
                #[trigger] env_names(final(self).mem(), env.id()).contains(x) <==> (env_names(
                    old(self).mem(),
                    env.id(),
                ).contains(x) || x == sym_name(old(self).mem(), sym.id())),
            kind_at(old(self).mem(), val.id()) is Unbound ==> env_map(
                final(self).mem(),
                env.id(),
            ) == env_map(old(self).mem(), env.id()),
            !(kind_at(old(self).mem(), val.id()) is Unbound) ==> env_map(
                final(self).mem(),
                env.id(),
            ) == env_map(old(self).mem(), env.id()).insert(
                sym_name(old(self).mem(), sym.id()),
                val.id(),
            ),
    {
        let ghost m0 = self.mem();
        let ghost nm = sym_name(m0, sym.id());
        proof {
            assert(node_wf(m0, env.id()));
        }
        let mut parent_v: usize = 0;
        let mut frame_v: usize = 0;
        let mut hashtab_v: usize = 0;
        match self.node(env.get()) {
            Node::Environment { parent, frame, hashtab } => {
                parent_v = *parent;
                frame_v = *frame;
                hashtab_v = *hashtab;
            },
            _ => {},
        }
        if hashtab_v != 0 {
            self.define_var_hashed(sym, val, env, hashtab_v);
        } else {
            let cellidx = self.nodes.len();
            let cell = Node::Cons {
                is_lang: false,
                car: val.get(),
                cdr: frame_v,
                tag: sym.get(),
            };
            self.nodes.push(cell);
            let ghost m1 = self.mem();
            proof {
                lemma_push_keeps_wf(m0, cell);
                lemma_roots_grow(self.roots(), m0.len() as int, m1.len() as int);
            }
            let node = Node::Environment { parent: parent_v, frame: cellidx, hashtab: 0 };
            self.nodes.set(env.get(), node);
            proof {
                let m2 = self.mem();
                let e = env.id();
                assert(agrees_except(m1, m2, e));
                lemma_chain_stable(m1, m2, e, frame_v as int);
                lemma_chain_stable(m0, m1, -1, frame_v as int);
                assert(chain_entries(m2, cellidx as int) == (if !(kind_at(m2, val.id())
                    is Unbound) {
                    seq![(nm, val.id())] + chain_entries(m2, frame_v as int)
                } else {
                    chain_entries(m2, frame_v as int)
                }));
                assert(chain_names(m2, cellidx as int) == seq![nm] + chain_names(
                    m2,
                    frame_v as int,
                ));
                // names of the environment
                assert forall|x: Seq<u8>|
                    #[trigger] env_names(m2, e).contains(x) <==> (env_names(m0, e).contains(x)
                        || x == nm) by {
                    lemma_contains_concat(seq![nm], chain_names(m0, frame_v as int), x);
                    if x == nm {
                        assert(seq![nm][0] == x);
                        assert(seq![nm].contains(x));
                    }
                    if seq![nm].contains(x) {
                        let q = choose|q: int| 0 <= q < 1 && seq![nm][q] == x;
                        assert(x == nm);
                    }
                }
                // the mapping
                if !(kind_at(m2, val.id()) is Unbound) {
                    lemma_entry_map_cons((nm, val.id()), chain_entries(m0, frame_v as int));
                }
                // well-formedness
                assert forall|i: int| 0 <= i < m2.len() implies node_wf(m2, i) by {
                    assert(node_wf(m1, i));
                }
                assert forall|i: int|
                    0 <= i < m2.len() && m2[i] is Environment implies env_sane(m2, i) by {
                    if i == e {
                        assert(env_sane(m0, e));
                        assert(env_frame(m0, e) == frame_v as int);
                        assert(env_hashtab(m0, e) == 0);
                        assert(!chain_names(m0, frame_v as int).contains(nm));
                        lemma_no_dup_cons(nm, chain_names(m0, frame_v as int));
                    } else {
                        assert(m1[i] is Environment && env_sane(m1, i));
                        assert(node_wf(m1, i));
                        if env_hashtab(m1, i) == e {
                            assert(is_vec_list(m1, e));
                            assert(false);
                        }
                        lemma_env_keeps_sane(m1, m2, e, i);
                    }
                }
                assert forall|i: int, j: int|
                    0 <= i < j < m2.len() && m2[i] is Sym && m2[j] is Sym implies sym_name(
                    m2,
                    i,
                ) != sym_name(m2, j) by {
                    assert(m1[i] is Sym && m1[j] is Sym);
                    assert(sym_name(m1, i) == sym_name(m2, i));
                    assert(sym_name(m1, j) == sym_name(m2, j));
                }
                assert(kind_at(m2, val.id()) is Unbound <==> kind_at(m0, val.id()) is Unbound);
            }
        }
    }

    /// The hashed-environment arm of the binding primitive.
    fn define_var_hashed(&mut self, sym: Robj, val: Robj, env: Robj, ht: usize)
        requires
            old(self).wf(),
            sym.valid(old(self).mem()),
            val.valid(old(self).mem()),
            env.valid(old(self).mem()),
            is_sym(old(self).mem(), sym.id()),
            kind_at(old(self).mem(), env.id()) is Environment,
            !env_names(old(self).mem(), env.id()).contains(
                sym_name(old(self).mem(), sym.id()),
            ),
            ht as int == env_hashtab(old(self).mem(), env.id()),
            ht != 0,
        ensures
            final(self).wf(),
            final(self).roots() == old(self).roots(),
            final(self).mem().len() == old(self).mem().len() + 1,
            kind_at(final(self).mem(), env.id()) is Environment,
            env_parent(final(self).mem(), env.id()) == env_parent(old(self).mem(), env.id()),
            env_hashtab(final(self).mem(), env.id()) == env_hashtab(old(self).mem(), env.id()),
            forall|j: int|
                0 <= j < old(self).mem().len() && j != env.id() && j != env_hashtab(
                    old(self).mem(),
                    env.id(),
                ) ==> final(self).mem()[j] == old(self).mem()[j],
            forall|x: Seq<u8>|
                #[trigger] env_names(final(self).mem(), env.id()).contains(x) <==> (env_names(
                    old(self).mem(),
                    env.id(),
                ).contains(x) || x == sym_name(old(self).mem(), sym.id())),
            kind_at(old(self).mem(), val.id()) is Unbound ==> env_map(
                final(self).mem(),
                env.id(),
            ) == env_map(old(self).mem(), env.id()),
            !(kind_at(old(self).mem(), val.id()) is Unbound) ==> env_map(
                final(self).mem(),
                env.id(),
            ) == env_map(old(self).mem(), env.id()).insert(
                sym_name(old(self).mem(), sym.id()),
                val.id(),
            ),
    {
        let ghost m0 = self.mem();
        let ghost nm = sym_name(m0, sym.id());
        let ghost e = env.id();
        proof {
            assert(node_wf(m0, e));
            assert(node_wf(m0, ht as int));
            assert(e != ht as int);
            assert(sym.id() != ht as int);
        }
        let nbuckets = match self.node(ht) {
            Node::VecList { elems, .. } => elems.len(),
            _ => 0,
        };
        let b = self.bucket_index(sym.get(), nbuckets);
        let head = match self.node(ht) {
            Node::VecList { elems, .. } => elems[b],
            _ => 0,
        };
        let cellidx = self.nodes.len();
        let cell = Node::Cons { is_lang: false, car: val.get(), cdr: head, tag: sym.get() };
        self.nodes.push(cell);
        let ghost m1 = self.mem();
        proof {
            lemma_push_keeps_wf(m0, cell);
            lemma_roots_grow(self.roots(), m0.len() as int, m1.len() as int);
        }
        let new_elems = match self.node(ht) {
            Node::VecList { elems, .. } => replace_at(elems, b, cellidx),
            _ => Vec::new(),
        };
        let ghost elems1 = vec_elems(m0, ht as int);
        let ghost elems2 = new_elems@;
        self.nodes.set(ht, Node::VecList { is_expr: false, elems: new_elems });
        proof {
            let m2 = self.mem();
            assert(agrees_except(m1, m2, ht as int));
            assert(vec_elems(m2, ht as int) == elems2);
            assert(elems2 == elems1.update(b as int, cellidx));
            // chains of untouched buckets are stable
            assert forall|j: int|
                0 <= j < elems1.len() && j != b implies chain_entries(
                m2,
                #[trigger] elems2[j] as int,
            ) == chain_entries(m1, elems1[j] as int) && chain_names(m2, elems2[j] as int)
                == chain_names(m1, elems1[j] as int) by {
                assert(elems2[j] == elems1[j]);
                assert((elems1[j] as int) < m0.len());
                lemma_chain_stable(m1, m2, ht as int, elems1[j] as int);
            }
            assert forall|j: int|
                0 <= j < elems1.len() implies chain_entries(m1, #[trigger] elems1[j] as int)
                == chain_entries(m0, elems1[j] as int) && chain_names(m1, elems1[j] as int)
                == chain_names(m0, elems1[j] as int) by {
                assert((elems1[j] as int) < m0.len());
                lemma_chain_stable(m0, m1, -1, elems1[j] as int);
            }
            // the new bucket chain
            lemma_chain_stable(m1, m2, ht as int, head as int);
            lemma_chain_stable(m0, m1, -1, head as int);
            assert(chain_entries(m2, cellidx as int) == (if !(kind_at(m2, val.id()) is Unbound) {
                seq![(nm, val.id())] + chain_entries(m1, head as int)
            } else {
                chain_entries(m1, head as int)
            }));
            assert(chain_names(m2, cellidx as int) == seq![nm] + chain_names(m1, head as int));
            // freshness of the name, bucket by bucket
            assert forall|j: int|
                0 <= j < elems1.len() implies !chain_names(
                m0,
                #[trigger] elems1[j] as int,
            ).contains(nm) by {
                if chain_names(m0, elems1[j] as int).contains(nm) {
                    lemma_buckets_names_member(m0, elems1, nm, j, elems1.len() as int);
                }
            }
            assert forall|j: int|
                0 <= j < elems1.len() implies !has_entry_name(
                chain_entries(m0, #[trigger] elems1[j] as int),
                nm,
            ) by {
                if has_entry_name(chain_entries(m0, elems1[j] as int), nm) {
                    let q = choose|q: int|
                        0 <= q < chain_entries(m0, elems1[j] as int).len() && (
                        #[trigger] chain_entries(m0, elems1[j] as int)[q]).0 == nm;
                    lemma_chain_entry_names(m0, elems1[j] as int);
                }
            }
            // the name view
            if kind_at(m2, val.id()) is Unbound {
                assert(chain_names(m2, elems2[b as int] as int) == seq![nm] + chain_names(
                    m1,
                    elems1[b as int] as int,
                ));
            }
            lemma_buckets_names_update(m1, m2, elems1, elems2, b as int, nm, elems1.len() as int);
            lemma_buckets_congruence(m0, m1, elems1, elems1, elems1.len() as int);
            assert forall|x: Seq<u8>|
                #[trigger] env_names(m2, e).contains(x) <==> (env_names(m0, e).contains(x) || x
                    == nm) by {}
            // the mapping
            if !(kind_at(m2, val.id()) is Unbound) {
                lemma_buckets_insert(
                    m1,
                    m2,
                    elems1,
                    elems2,
                    b as int,
                    nm,
                    val.id(),
                    elems1.len() as int,
                );
            } else {
                assert(chain_entries(m2, elems2[b as int] as int) == chain_entries(
                    m1,
                    elems1[b as int] as int,
                ));
                crate::model::lemma_buckets_entries_congruence(
                    m1,
                    m2,
                    elems1,
                    elems2,
                    elems1.len() as int,
                );
            }
            // well-formedness
            assert forall|i: int| 0 <= i < m2.len() implies node_wf(m2, i) by {
                assert(node_wf(m1, i));
                assert(elems2.len() == elems1.len());
            }
            assert forall|i: int|
                0 <= i < m2.len() && m2[i] is Environment implies env_sane(m2, i) by {
                assert(m1[i] is Environment && env_sane(m1, i));
                assert(node_wf(m1, i));
                if env_hashtab(m1, i) == ht as int {
                    assert(env_hashtab(m2, i) == ht as int);
                    assert(vec_elems(m1, ht as int) == elems1);
                    assert(vec_elems(m1, ht as int) == vec_elems(m0, ht as int));
                    assert forall|j: int|
                        0 <= j < elems2.len() implies chain_names(
                        m2,
                        #[trigger] elems2[j] as int,
                    ).no_duplicates() by {
                        if j == b as int {
                            assert(chain_names(m1, elems1[b as int] as int) == chain_names(
                                m0,
                                elems1[b as int] as int,
                            ));
                            assert(!chain_names(m1, elems1[b as int] as int).contains(nm));
                            assert(chain_names(m1, elems1[b as int] as int).no_duplicates());
                            lemma_no_dup_cons(nm, chain_names(m1, elems1[b as int] as int));
                            assert(chain_names(m2, elems2[b as int] as int) == seq![nm]
                                + chain_names(m1, elems1[b as int] as int));
                        }
                    }
                    assert forall|j: int, n: Seq<u8>|
                        0 <= j < elems2.len() && #[trigger] chain_names(
                            m2,
                            elems2[j] as int,
                        ).contains(n) implies bucket_of(n, elems2.len() as int) == j by {
                        if j == b as int {
                            lemma_contains_concat(
                                seq![nm],
                                chain_names(m1, elems1[b as int] as int),
                                n,
                            );
                            if seq![nm].contains(n) {
                                let q = choose|q: int| 0 <= q < 1 && seq![nm][q] == n;
                                assert(n == nm);
                            }
                        }
                    }
                    assert(env_sane(m2, i));
                } else {
                    lemma_env_keeps_sane(m1, m2, ht as int, i);
                }
            }
            assert forall|i: int, j: int|
                0 <= i < j < m2.len() && m2[i] is Sym && m2[j] is Sym implies sym_name(m2, i)
                != sym_name(m2, j) by {
                assert(m1[i] is Sym && m1[j] is Sym);
                assert(sym_name(m1, i) == sym_name(m2, i));
                assert(sym_name(m1, j) == sym_name(m2, j));
            }
            assert(kind_at(m2, val.id()) is Unbound <==> kind_at(m0, val.id()) is Unbound);
        }
    }

    /// Interns `name` and binds it, in the runtime's own base table,
    /// to a fresh built-in (or special-form) function node.
    pub fn bind_builtin(&mut self, name: &Vec<u8>, is_special: bool)
        requires
            old(self).wf(),
            forall|j: int| 0 <= j < name@.len() ==> name@[j] != 0u8,
        ensures
            final(self).wf(),
            final(self).roots() == old(self).roots(),
            final(self).mem().len() >= old(self).mem().len(),
            find_sym(final(self).mem(), name@) is Some,
            kind_at(
                final(self).mem(),
                sym_value(final(self).mem(), find_sym(final(self).mem(), name@)->Some_0),
            ) == (if is_special {
                SexpType::Special
            } else {
                SexpType::Builtin
            }),
    {
        let s = self.install(name);
        let ghost m0 = self.mem();
        let b = self.nodes.len();
        self.nodes.push(Node::Builtin { is_special });
        let ghost m1 = self.mem();
        proof {
            lemma_push_keeps_wf(m0, Node::Builtin { is_special });
            lemma_roots_grow(self.roots(), m0.len() as int, m1.len() as int);
            lemma_find_sym_stable(m0, m1, -1, name@);
        }
        let fresh = match self.node(s) {
            Node::Sym { name: nm, .. } => bytes_copy(nm),
            _ => Vec::new(),
        };
        self.nodes.set(s, Node::Sym { name: fresh, value: b });
        proof {
            let m2 = self.mem();
            assert(agrees_except(m1, m2, s as int));
            assert(sym_name(m2, s as int) == name@);
            assert forall|i: int| 0 <= i < m2.len() implies node_wf(m2, i) by {
                assert(node_wf(m1, i));
            }
            assert forall|i: int| 0 <= i < m2.len() && m2[i] is Environment implies env_sane(
                m2,
                i,
            ) by {
                assert(m1[i] is Environment && env_sane(m1, i));
                assert(node_wf(m1, i));
                if env_hashtab(m1, i) == s as int {
                    assert(is_vec_list(m1, s as int));
                    assert(false);
                }
                lemma_env_keeps_sane(m1, m2, s as int, i);
            }
            assert forall|i: int, j: int|
                0 <= i < j < m2.len() && m2[i] is Sym && m2[j] is Sym implies sym_name(m2, i)
                != sym_name(m2, j) by {
                assert(m1[i] is Sym && m1[j] is Sym);
                assert(sym_name(m1, i) == sym_name(m2, i));
                assert(sym_name(m1, j) == sym_name(m2, j));
            }
            lemma_find_sym_stable(m1, m2, s as int, name@);
        }
    }
}

/// A change that satisfies `agrees_except` keeps an untouched
/// environment's binding discipline.
proof fn lemma_env_keeps_sane(m1: Seq<Node>, m2: Seq<Node>, t: int, e: int)
    requires
        agrees_except(m1, m2, t),
        nodes_bounded(m1),
        0 <= e < m1.len(),
        m1[e] is Environment,
        e != t,
        env_hashtab(m1, e) != t,
        env_sane(m1, e),
        node_wf(m1, e),
    ensures
        env_sane(m2, e),
{
    let ht = env_hashtab(m1, e);
    assert(env_hashtab(m2, e) == ht && env_frame(m2, e) == env_frame(m1, e));
    if ht != 0 {
        assert(node_wf(m1, ht));
        let elems = vec_elems(m1, ht);
        assert(vec_elems(m2, ht) == elems);
        assert forall|k: int| 0 <= k < elems.len() implies chain_names(
            m2,
            #[trigger] elems[k] as int,
        ) == chain_names(m1, elems[k] as int) by {
            lemma_chain_stable(m1, m2, t, elems[k] as int);
        }
    } else {
        lemma_chain_stable(m1, m2, t, env_frame(m1, e));
    }
}

/// Every protection-stack entry points inside a heap of `l` nodes.
pub open spec fn roots_ok(r: Seq<usize>, l: int) -> bool {
    forall|i: int| 0 <= i < r.len() ==> ((#[trigger] r[i]) as int) < l
}

/// Bounded protection-stack entries stay bounded when the heap grows.
proof fn lemma_roots_grow(r: Seq<usize>, l1: int, l2: int)
    requires
        l1 <= l2,
        roots_ok(r, l1),
    ensures
        roots_ok(r, l2),
{
}

/// Pushing a valid index keeps the protection stack bounded.
proof fn lemma_roots_push(r: Seq<usize>, x: usize, l: int)
    requires
        roots_ok(r, l),
        (x as int) < l,
    ensures
        roots_ok(r.push(x), l),
{
    assert forall|i: int| 0 <= i < r.push(x).len() implies ((#[trigger] r.push(x)[i]) as int)
        < l by {
        if i < r.len() {
            assert(r.push(x)[i] == r[i]);
        } else {
            assert(r.push(x)[i] == x);
        }
    }
}

/// Truncating keeps the protection stack bounded.
proof fn lemma_roots_take(r: Seq<usize>, k: int, l: int)
    requires
        0 <= k <= r.len(),
        roots_ok(r, l),
    ensures
        roots_ok(r.take(k), l),
{
    assert forall|i: int| 0 <= i < r.take(k).len() implies ((#[trigger] r.take(k)[i]) as int)
        < l by {
        assert(r.take(k)[i] == r[i]);
    }
}

/// Compares two byte strings.
pub(crate) fn bytes_eq(a: &Vec<u8>, b: &Vec<u8>) -> (r: bool)
    ensures
        r == (a@ == b@),
{
    if a.len() != b.len() {
        return false;
    }
    let mut i: usize = 0;
    while i < a.len()
        invariant
            i <= a@.len(),
            a@.len() == b@.len(),
            forall|j: int| 0 <= j < i ==> a@[j] == b@[j],
        decreases a@.len() - i,
    {
        if a[i] != b[i] {
            return false;
        }
        i = i + 1;
    }
    proof {
        assert(a@ =~= b@);
    }
    true
}

/// Copies a byte string.
pub(crate) fn bytes_copy(src: &Vec<u8>) -> (r: Vec<u8>)
    ensures
        r@ == src@,
{
    let mut out: Vec<u8> = Vec::new();
    let mut i: usize = 0;
    while i < src.len()
        invariant
            i <= src@.len(),
            out@ == src@.take(i as int),
        decreases src@.len() - i,
    {
        out.push(src[i]);
        proof {
            assert(out@ =~= src@.take(i + 1));
        }
        i = i + 1;
    }
    proof {
        assert(src@.take(src@.len() as int) =~= src@);
    }
    out
}

/// Copies a vector of indices, replacing the element at `at`.
fn replace_at(src: &Vec<usize>, at: usize, value: usize) -> (r: Vec<usize>)
    requires
        (at as int) < src@.len(),
    ensures
        r@ == src@.update(at as int, value),
{
    let mut out: Vec<usize> = Vec::new();
    let mut i: usize = 0;
    while i < src.len()
        invariant
            i <= src@.len(),
            (at as int) < src@.len(),
            out@.len() == i as int,
            forall|j: int|
                0 <= j < i ==> (#[trigger] out@[j]) == (if j == at as int {
                    value
                } else {
                    src@[j]
                }),
        decreases src@.len() - i,
    {
        if i == at {
            out.push(value);
        } else {
            out.push(src[i]);
        }
        i = i + 1;
    }
    proof {
        assert(out@ =~= src@.update(at as int, value));
    }
    out
}

/// Copies a vector of indices.
pub(crate) fn usizes_copy(src: &Vec<usize>) -> (r: Vec<usize>)
    ensures
        r@ == src@,
{
    let mut out: Vec<usize> = Vec::new();
    let mut i: usize = 0;
    while i < src.len()
        invariant
            i <= src@.len(),
            out@ == src@.take(i as int),
        decreases src@.len() - i,
    {
        out.push(src[i]);
        proof {
            assert(out@ =~= src@.take(i + 1));
        }
        i = i + 1;
    }
    proof {
        assert(src@.take(src@.len() as int) =~= src@);
    }
    out
}

} // verus!
