use vstd::prelude::*;
use crate::sexp::Node;
use crate::sexp::SexpType;

verus! {

/// The dynamic type tag of the node at `i`, or the nil tag outside the
/// heap.
pub open spec fn kind_at(m: Seq<Node>, i: int) -> SexpType {
    if 0 <= i < m.len() {
        m[i].kind()
    } else {
        SexpType::Nil
    }
}

pub open spec fn is_sym(m: Seq<Node>, i: int) -> bool {
    0 <= i < m.len() && m[i] is Sym
}

/// The name of the symbol at `i` (empty if `i` is no symbol).
pub open spec fn sym_name(m: Seq<Node>, i: int) -> Seq<u8> {
    if 0 <= i < m.len() {
        match m[i] {
            Node::Sym { name, .. } => name@,
            _ => Seq::empty(),
        }
    } else {
        Seq::empty()
    }
}

/// The bound value slot of the symbol at `i` (the unbound sentinel
/// index if `i` is no symbol).
pub open spec fn sym_value(m: Seq<Node>, i: int) -> int {
    if 0 <= i < m.len() {
        match m[i] {
            Node::Sym { value, .. } => value as int,
            _ => 1,
        }
    } else {
        1
    }
}

pub open spec fn is_vec_list(m: Seq<Node>, i: int) -> bool {
    0 <= i < m.len() && m[i] is VecList
}

/// The element indices of the vector node at `i`.
pub open spec fn vec_elems(m: Seq<Node>, i: int) -> Seq<usize> {
    if 0 <= i < m.len() {
        match m[i] {
            Node::VecList { elems, .. } => elems@,
            _ => Seq::empty(),
        }
    } else {
        Seq::empty()
    }
}

/// The `(tag, value)` index pairs of the cons spine starting at `i`,
/// front cell first.  The walk stops at the first node that is not a
/// cons cell; in a well-formed heap every cell's tail index is smaller
/// than the cell's own index, which bounds the walk.
pub open spec fn spine(m: Seq<Node>, i: int) -> Seq<(int, int)>
    decreases i,
{
    if 0 <= i < m.len() {
        match m[i] {
            Node::Cons { car, cdr, tag, .. } => {
                if (cdr as int) < i {
                    seq![(tag as int, car as int)] + spine(m, cdr as int)
                } else {
                    seq![(tag as int, car as int)]
                }
            },
            _ => Seq::empty(),
        }
    } else {
        Seq::empty()
    }
}

/// The value indices of the cons spine at `i`.
pub open spec fn spine_vals(m: Seq<Node>, i: int) -> Seq<int> {
    spine(m, i).map_values(|p: (int, int)| p.1)
}

/// The optional name denoted by a cell's tag slot: the symbol's name,
/// or nothing when the slot holds no symbol.
pub open spec fn tag_name(m: Seq<Node>, t: int) -> Option<Seq<u8>> {
    if is_sym(m, t) {
        Some(sym_name(m, t))
    } else {
        None
    }
}

/// The `(optional name, value index)` pairs of the cons spine at `i`.
pub open spec fn spine_named_vals(m: Seq<Node>, i: int) -> Seq<(Option<Seq<u8>>, int)> {
    spine(m, i).map_values(|p: (int, int)| (tag_name(m, p.0), p.1))
}

/// The index of the interned symbol carrying `name`, if one exists:
/// the first such node of the heap.
pub open spec fn find_sym(m: Seq<Node>, name: Seq<u8>) -> Option<int>
    decreases m.len(),
{
    if m.len() == 0 {
        None
    } else {
        match find_sym(m.drop_last(), name) {
            Some(i) => Some(i),
            None => {
                if m.last() is Sym && sym_name(m, m.len() - 1) == name {
                    Some(m.len() - 1)
                } else {
                    None
                }
            },
        }
    }
}

/// The visible bindings of the cons chain at `i`, front first: cells
/// whose tag slot holds a symbol and whose value slot does not hold
/// the unbound sentinel.
pub open spec fn chain_entries(m: Seq<Node>, i: int) -> Seq<(Seq<u8>, int)>
    decreases i,
{
    if 0 <= i < m.len() {
        match m[i] {
            Node::Cons { car, cdr, tag, .. } => {
                let rest = if (cdr as int) < i {
                    chain_entries(m, cdr as int)
                } else {
                    Seq::empty()
                };
                if is_sym(m, tag as int) && !(kind_at(m, car as int) is Unbound) {
                    seq![(sym_name(m, tag as int), car as int)] + rest
                } else {
                    rest
                }
            },
            _ => Seq::empty(),
        }
    } else {
        Seq::empty()
    }
}

/// Every name tagged on the chain at `i`, including names whose slot
/// holds the unbound sentinel (deleted-but-not-compacted bindings).
pub open spec fn chain_names(m: Seq<Node>, i: int) -> Seq<Seq<u8>>
    decreases i,
{
    if 0 <= i < m.len() {
        match m[i] {
            Node::Cons { cdr, tag, .. } => {
                let rest = if (cdr as int) < i {
                    chain_names(m, cdr as int)
                } else {
                    Seq::empty()
                };
                if is_sym(m, tag as int) {
                    seq![sym_name(m, tag as int)] + rest
                } else {
                    rest
                }
            },
            _ => Seq::empty(),
        }
    } else {
        Seq::empty()
    }
}

/// The visible bindings of hash buckets `[0, k)`, bucket by bucket.
pub open spec fn buckets_entries(m: Seq<Node>, elems: Seq<usize>, k: int) -> Seq<(Seq<u8>, int)>
    decreases k,
{
    if 0 < k <= elems.len() {
        buckets_entries(m, elems, k - 1) + chain_entries(m, elems[k - 1] as int)
    } else {
        Seq::empty()
    }
}

/// Every name tagged in hash buckets `[0, k)`.
pub open spec fn buckets_names(m: Seq<Node>, elems: Seq<usize>, k: int) -> Seq<Seq<u8>>
    decreases k,
{
    if 0 < k <= elems.len() {
        buckets_names(m, elems, k - 1) + chain_names(m, elems[k - 1] as int)
    } else {
        Seq::empty()
    }
}

/// The hash-table vector of the environment at `e`, or 0 when the
/// environment keeps its bindings in a direct frame.
pub open spec fn env_hashtab(m: Seq<Node>, e: int) -> int {
    if 0 <= e < m.len() {
        match m[e] {
            Node::Environment { hashtab, .. } => hashtab as int,
            _ => 0,
        }
    } else {
        0
    }
}

/// The direct binding frame of the environment at `e`.
pub open spec fn env_frame(m: Seq<Node>, e: int) -> int {
    if 0 <= e < m.len() {
        match m[e] {
            Node::Environment { frame, .. } => frame as int,
            _ => 0,
        }
    } else {
        0
    }
}

/// The parent of the environment at `e`.
pub open spec fn env_parent(m: Seq<Node>, e: int) -> int {
    if 0 <= e < m.len() {
        match m[e] {
            Node::Environment { parent, .. } => parent as int,
            _ => 0,
        }
    } else {
        0
    }
}

/// The visible bindings of the environment at `e`: its hash buckets in
/// order when it is hashed, else its direct frame.
pub open spec fn env_entries(m: Seq<Node>, e: int) -> Seq<(Seq<u8>, int)> {
    if env_hashtab(m, e) != 0 {
        let elems = vec_elems(m, env_hashtab(m, e));
        buckets_entries(m, elems, elems.len() as int)
    } else {
        chain_entries(m, env_frame(m, e))
    }
}

/// Every name tagged in the environment at `e`, bound or unbound.
pub open spec fn env_names(m: Seq<Node>, e: int) -> Seq<Seq<u8>> {
    if env_hashtab(m, e) != 0 {
        let elems = vec_elems(m, env_hashtab(m, e));
        buckets_names(m, elems, elems.len() as int)
    } else {
        chain_names(m, env_frame(m, e))
    }
}

/// The mapping denoted by an entry sequence; an earlier entry shadows
/// a later entry of the same name.
pub open spec fn entry_map(s: Seq<(Seq<u8>, int)>) -> Map<Seq<u8>, int>
    decreases s.len(),
{
    if s.len() == 0 {
        Map::empty()
    } else {
        entry_map(s.drop_first()).insert(s[0].0, s[0].1)
    }
}

/// The names of an entry sequence.
pub open spec fn entry_names(s: Seq<(Seq<u8>, int)>) -> Seq<Seq<u8>> {
    s.map_values(|p: (Seq<u8>, int)| p.0)
}

/// The name-to-value mapping of the environment at `e`.
pub open spec fn env_map(m: Seq<Node>, e: int) -> Map<Seq<u8>, int> {
    entry_map(env_entries(m, e))
}

/// The sum of a name's bytes.
pub open spec fn byte_sum(s: Seq<u8>) -> int
    decreases s.len(),
{
    if s.len() == 0 {
        0
    } else {
        byte_sum(s.drop_last()) + s.last()
    }
}

/// The hash bucket a name falls into among `n` buckets.
pub open spec fn bucket_of(name: Seq<u8>, n: int) -> int {
    byte_sum(name) % n
}

/// Structural soundness of the node at `i`: index fields stay inside
/// the heap, a cell's tail precedes the cell, and a hashed environment
/// has a non-empty bucket vector and an empty direct frame.
pub open spec fn node_wf(m: Seq<Node>, i: int) -> bool {
    match m[i] {
        Node::Sym { value, .. } => (value as int) < m.len(),
        Node::Cons { car, cdr, tag, .. } => (car as int) < m.len() && (tag as int) < m.len()
            && (cdr as int) < i,
        Node::VecList { elems, .. } => forall|k: int|
            0 <= k < elems@.len() ==> (elems@[k] as int) < m.len(),
        Node::Environment { parent, frame, hashtab } => (parent as int) < m.len() && (frame
            as int) < m.len() && (hashtab as int) < m.len() && (hashtab != 0
            ==> is_vec_list(m, hashtab as int) && vec_elems(m, hashtab as int).len() > 0
                && frame == 0),
        Node::Closure { formals, body, env } => (formals as int) < m.len() && (body as int)
            < m.len() && (env as int) < m.len(),
        Node::Promise { code, env, value, .. } => (code as int) < m.len() && (env as int)
            < m.len() && (value as int) < m.len(),
        _ => true,
    }
}

pub open spec fn nodes_bounded(m: Seq<Node>) -> bool {
    forall|i: int| 0 <= i < m.len() ==> node_wf(m, i)
}

/// Binding discipline of the environment at `e`: no name is tagged
/// twice, and in a hashed environment every name sits in the bucket it
/// hashes to.
pub open spec fn env_sane(m: Seq<Node>, e: int) -> bool {
    if env_hashtab(m, e) != 0 {
        let elems = vec_elems(m, env_hashtab(m, e));
        &&& forall|k: int|
            0 <= k < elems.len() ==> chain_names(m, elems[k] as int).no_duplicates()
        &&& forall|k: int, n: Seq<u8>|
            0 <= k < elems.len() && chain_names(m, elems[k] as int).contains(n)
                ==> bucket_of(n, elems.len() as int) == k
    } else {
        chain_names(m, env_frame(m, e)).no_duplicates()
    }
}

/// Well-formedness of a whole heap: the three fixed sentinels sit at
/// the bottom, every node is structurally sound, every environment
/// keeps its binding discipline, and symbol names are interned at most
/// once.
pub open spec fn mem_wf(m: Seq<Node>) -> bool {
    &&& m.len() >= 3
    &&& m[0] is Nil
    &&& m[1] is Unbound
    &&& m[2] is Environment
    &&& nodes_bounded(m)
    &&& forall|i: int| 0 <= i < m.len() && m[i] is Environment ==> env_sane(m, i)
    &&& forall|i: int, j: int|
        0 <= i < j < m.len() && m[i] is Sym && m[j] is Sym ==> sym_name(m, i) != sym_name(
            m,
            j,
        )
}

/// The byte content of the raw vector at `i`.
pub open spec fn raw_bytes(m: Seq<Node>, i: int) -> Seq<u8> {
    if 0 <= i < m.len() {
        match m[i] {
            Node::RawBytes { bytes } => bytes@,
            _ => Seq::empty(),
        }
    } else {
        Seq::empty()
    }
}

/// The text of the character-cache element at `i`.
pub open spec fn char_text(m: Seq<Node>, i: int) -> Seq<u8> {
    if 0 <= i < m.len() {
        match m[i] {
            Node::Char { text } => text@,
            _ => Seq::empty(),
        }
    } else {
        Seq::empty()
    }
}

/// The length the interpreter reports for the object at `i`.
pub open spec fn len_of(m: Seq<Node>, i: int) -> int {
    if 0 <= i < m.len() {
        match m[i] {
            Node::Nil => 0,
            Node::Cons { .. } => spine(m, i).len() as int,
            Node::VecList { elems, .. } => elems@.len() as int,
            Node::RawBytes { bytes } => bytes@.len() as int,
            Node::Char { text } => text@.len() as int,
            Node::Environment { .. } => env_entries(m, i).len() as int,
            _ => 1,
        }
    } else {
        0
    }
}

/// `m2` agrees with `m1` below `m1`'s length except possibly at `t`,
/// where the two heaps hold nodes of like shape for every traversal:
/// neither a cons cell, symbolhood and symbol name preserved, and
/// unboundness preserved.  Appending nodes, rewriting a vector's
/// elements, rewriting an environment's slots and rebinding a symbol's
/// value slot all satisfy this.
pub open spec fn agrees_except(m1: Seq<Node>, m2: Seq<Node>, t: int) -> bool {
    &&& m1.len() <= m2.len()
    &&& forall|j: int| 0 <= j < m1.len() && j != t ==> m2[j] == m1[j]
    &&& (0 <= t < m1.len() ==> {
        &&& !(m1[t] is Cons) && !(m2[t] is Cons)
        &&& (m1[t] is Sym <==> m2[t] is Sym)
        &&& (m1[t] is Sym ==> sym_name(m1, t) == sym_name(m2, t))
        &&& (m1[t] is Unbound <==> m2[t] is Unbound)
    })
}

/// A change that satisfies `agrees_except` leaves every spine below
/// the old length unchanged.
pub proof fn lemma_spine_stable(m1: Seq<Node>, m2: Seq<Node>, t: int, i: int)
    requires
        agrees_except(m1, m2, t),
        i < m1.len(),
    ensures
        spine(m2, i) == spine(m1, i),
    decreases i,
{
    if 0 <= i < m1.len() && i != t {
        match m1[i] {
            Node::Cons { cdr, .. } => {
                if (cdr as int) < i {
                    lemma_spine_stable(m1, m2, t, cdr as int);
                }
            },
            _ => {},
        }
    }
}

/// A change that satisfies `agrees_except` leaves every chain view
/// below the old length unchanged.
pub proof fn lemma_chain_stable(m1: Seq<Node>, m2: Seq<Node>, t: int, i: int)
    requires
        agrees_except(m1, m2, t),
        nodes_bounded(m1),
        i < m1.len(),
    ensures
        chain_entries(m2, i) == chain_entries(m1, i),
        chain_names(m2, i) == chain_names(m1, i),
    decreases i,
{
    if 0 <= i < m1.len() && i != t {
        match m1[i] {
            Node::Cons { cdr, .. } => {
                assert(node_wf(m1, i));
                if (cdr as int) < i {
                    lemma_chain_stable(m1, m2, t, cdr as int);
                }
            },
            _ => {},
        }
    }
}

/// Chain-by-chain equality lifts to the bucket views.
pub proof fn lemma_buckets_congruence(
    m1: Seq<Node>,
    m2: Seq<Node>,
    e1: Seq<usize>,
    e2: Seq<usize>,
    k: int,
)
    requires
        e1.len() == e2.len(),
        forall|j: int|
            0 <= j < k ==> chain_entries(m2, #[trigger] e2[j] as int) == chain_entries(
                m1,
                e1[j] as int,
            ) && chain_names(m2, e2[j] as int) == chain_names(m1, e1[j] as int),
    ensures
        buckets_entries(m2, e2, k) == buckets_entries(m1, e1, k),
        buckets_names(m2, e2, k) == buckets_names(m1, e1, k),
    decreases k,
{
    if 0 < k <= e1.len() {
        lemma_buckets_congruence(m1, m2, e1, e2, k - 1);
    }
}

/// Chain-by-chain equality of visible entries lifts to the bucket
/// entry view alone.
pub proof fn lemma_buckets_entries_congruence(
    m1: Seq<Node>,
    m2: Seq<Node>,
    e1: Seq<usize>,
    e2: Seq<usize>,
    k: int,
)
    requires
        e1.len() == e2.len(),
        forall|j: int|
            0 <= j < k ==> chain_entries(m2, #[trigger] e2[j] as int) == chain_entries(
                m1,
                e1[j] as int,
            ),
    ensures
        buckets_entries(m2, e2, k) == buckets_entries(m1, e1, k),
    decreases k,
{
    if 0 < k <= e1.len() {
        lemma_buckets_entries_congruence(m1, m2, e1, e2, k - 1);
    }
}

/// A change that satisfies `agrees_except` and touches neither an
/// environment's node nor its bucket vector leaves the environment's
/// views unchanged.
pub proof fn lemma_env_stable(m1: Seq<Node>, m2: Seq<Node>, t: int, e: int)
    requires
        agrees_except(m1, m2, t),
        nodes_bounded(m1),
        0 <= e < m1.len(),
        m1[e] is Environment,
        e != t,
        env_hashtab(m1, e) != t,
    ensures
        env_entries(m2, e) == env_entries(m1, e),
        env_names(m2, e) == env_names(m1, e),
        env_parent(m2, e) == env_parent(m1, e),
        env_frame(m2, e) == env_frame(m1, e),
        env_hashtab(m2, e) == env_hashtab(m1, e),
{
    assert(node_wf(m1, e));
    let ht = env_hashtab(m1, e);
    if ht != 0 {
        assert(node_wf(m1, ht));
        let elems = vec_elems(m1, ht);
        assert(vec_elems(m2, ht) == elems);
        assert forall|j: int| 0 <= j < elems.len() implies chain_entries(
            m2,
            #[trigger] elems[j] as int,
        ) == chain_entries(m1, elems[j] as int) && chain_names(m2, elems[j] as int)
            == chain_names(m1, elems[j] as int) by {
            lemma_chain_stable(m1, m2, t, elems[j] as int);
        }
        lemma_buckets_congruence(m1, m2, elems, elems, elems.len() as int);
    } else {
        lemma_chain_stable(m1, m2, t, env_frame(m1, e));
    }
}

/// Two heaps of equal length whose nodes agree on symbolhood and
/// symbol names intern every name at the same index.
pub proof fn lemma_find_sym_compat(m1: Seq<Node>, m2: Seq<Node>, name: Seq<u8>)
    requires
        m1.len() == m2.len(),
        forall|j: int|
            0 <= j < m1.len() ==> ((m1[j] is Sym <==> #[trigger] m2[j] is Sym) && (m1[j] is Sym
                ==> sym_name(m1, j) == sym_name(m2, j))),
    ensures
        find_sym(m2, name) == find_sym(m1, name),
    decreases m1.len(),
{
    if m1.len() > 0 {
        lemma_find_sym_compat(m1.drop_last(), m2.drop_last(), name);
    }
}

/// An interned symbol keeps its index when the heap grows.
pub proof fn lemma_find_sym_grow(m: Seq<Node>, l: int, name: Seq<u8>)
    requires
        0 <= l <= m.len(),
        find_sym(m.take(l), name) is Some,
    ensures
        find_sym(m, name) == find_sym(m.take(l), name),
    decreases m.len(),
{
    if m.len() > l {
        assert(m.drop_last().take(l) =~= m.take(l));
        lemma_find_sym_grow(m.drop_last(), l, name);
    } else {
        assert(m.take(l) =~= m);
    }
}

/// A change that satisfies `agrees_except` keeps every interned
/// symbol's index.
pub proof fn lemma_find_sym_stable(m1: Seq<Node>, m2: Seq<Node>, t: int, name: Seq<u8>)
    requires
        agrees_except(m1, m2, t),
        find_sym(m1, name) is Some,
    ensures
        find_sym(m2, name) == find_sym(m1, name),
{
    let l = m1.len() as int;
    assert forall|j: int| 0 <= j < l implies ((m1[j] is Sym <==> #[trigger] m2.take(l)[j] is Sym)
        && (m1[j] is Sym ==> sym_name(m1, j) == sym_name(m2.take(l), j))) by {
        assert(m2.take(l)[j] == m2[j]);
    }
    lemma_find_sym_compat(m1, m2.take(l), name);
    lemma_find_sym_grow(m2, l, name);
}

/// What a successful symbol lookup says of the node it found.
pub proof fn lemma_find_sym_sym(m: Seq<Node>, name: Seq<u8>)
    requires
        find_sym(m, name) is Some,
    ensures
        0 <= find_sym(m, name)->Some_0 < m.len(),
        is_sym(m, find_sym(m, name)->Some_0),
        sym_name(m, find_sym(m, name)->Some_0) == name,
    decreases m.len(),
{
    if m.len() > 0 {
        if find_sym(m.drop_last(), name) is Some {
            lemma_find_sym_sym(m.drop_last(), name);
        }
    }
}

/// A symbol found nowhere below `i` and sitting at `i` is the one the
/// whole heap interns.
pub proof fn lemma_find_sym_at(m: Seq<Node>, i: int, name: Seq<u8>)
    requires
        0 <= i < m.len(),
        find_sym(m.take(i), name) is None,
        m[i] is Sym,
        sym_name(m, i) == name,
    ensures
        find_sym(m, name) == Some(i),
{
    assert(m.take(i + 1).drop_last() =~= m.take(i));
    assert(m.take(i + 1)[i] == m[i]);
    assert(find_sym(m.take(i + 1), name) == Some(i));
    lemma_find_sym_grow(m, i + 1, name);
}

/// A scan that has not found the name is not stopped by a node that
/// does not carry it.
pub proof fn lemma_find_sym_none_step(m: Seq<Node>, i: int, name: Seq<u8>)
    requires
        0 <= i < m.len(),
        find_sym(m.take(i), name) is None,
        !(m[i] is Sym && sym_name(m, i) == name),
    ensures
        find_sym(m.take(i + 1), name) is None,
{
    assert(m.take(i + 1).drop_last() =~= m.take(i));
    assert(m.take(i + 1)[i] == m[i]);
}

/// A name interned nowhere is carried by no symbol node.
pub proof fn lemma_find_sym_none(m: Seq<Node>, name: Seq<u8>)
    requires
        find_sym(m, name) is None,
    ensures
        forall|i: int| 0 <= i < m.len() ==> !(m[i] is Sym && sym_name(m, i) == name),
    decreases m.len(),
{
    if m.len() > 0 {
        lemma_find_sym_none(m.drop_last(), name);
        assert forall|i: int| 0 <= i < m.len() implies !(m[i] is Sym && sym_name(m, i)
            == name) by {
            if i < m.len() - 1 {
                assert(m.drop_last()[i] == m[i]);
                assert(sym_name(m.drop_last(), i) == sym_name(m, i));
            }
        }
    }
}

/// In a bounded heap every spine pair stays inside the heap.
pub proof fn lemma_spine_bounded(m: Seq<Node>, i: int)
    requires
        nodes_bounded(m),
        i < m.len(),
    ensures
        forall|q: int|
            0 <= q < spine(m, i).len() ==> 0 <= #[trigger] spine(m, i)[q].0 < m.len() && 0 <= spine(
                m,
                i,
            )[q].1 < m.len(),
    decreases i,
{
    if 0 <= i < m.len() {
        match m[i] {
            Node::Cons { cdr, .. } => {
                assert(node_wf(m, i));
                let s = spine(m, i);
                if (cdr as int) < i {
                    lemma_spine_bounded(m, cdr as int);
                    let rest = spine(m, cdr as int);
                    assert forall|q: int| 0 <= q < s.len() implies 0 <= #[trigger] s[q].0
                        < m.len() && 0 <= s[q].1 < m.len() by {
                        if q > 0 {
                            assert(s[q] == rest[q - 1]);
                        }
                    }
                } else {
                    assert(s.len() == 1);
                }
            },
            _ => {},
        }
    }
}

/// In a bounded heap every chain entry's value stays inside the heap.
pub proof fn lemma_chain_entries_bounded(m: Seq<Node>, i: int)
    requires
        nodes_bounded(m),
        i < m.len(),
    ensures
        forall|q: int|
            0 <= q < chain_entries(m, i).len() ==> 0 <= #[trigger] chain_entries(m, i)[q].1
                < m.len(),
    decreases i,
{
    if 0 <= i < m.len() {
        match m[i] {
            Node::Cons { car, cdr, tag, .. } => {
                assert(node_wf(m, i));
                let s = chain_entries(m, i);
                if (cdr as int) < i {
                    lemma_chain_entries_bounded(m, cdr as int);
                    let rest = chain_entries(m, cdr as int);
                    if is_sym(m, tag as int) && !(kind_at(m, car as int) is Unbound) {
                        assert forall|q: int| 0 <= q < s.len() implies 0 <= #[trigger] s[q].1
                            < m.len() by {
                            if q > 0 {
                                assert(s[q] == rest[q - 1]);
                            }
                        }
                    }
                } else {
                    if is_sym(m, tag as int) && !(kind_at(m, car as int) is Unbound) {
                        assert(s.len() == 1);
                    }
                }
            },
            _ => {},
        }
    }
}

/// In a bounded heap every bucket entry's value stays inside the heap.
pub proof fn lemma_buckets_entries_bounded(m: Seq<Node>, elems: Seq<usize>, k: int)
    requires
        nodes_bounded(m),
        forall|j: int| 0 <= j < elems.len() ==> (elems[j] as int) < m.len(),
    ensures
        forall|q: int|
            0 <= q < buckets_entries(m, elems, k).len() ==> 0 <= #[trigger] buckets_entries(
                m,
                elems,
                k,
            )[q].1 < m.len(),
    decreases k,
{
    if 0 < k <= elems.len() {
        lemma_buckets_entries_bounded(m, elems, k - 1);
        lemma_chain_entries_bounded(m, elems[k - 1] as int);
        let s = buckets_entries(m, elems, k);
        let a = buckets_entries(m, elems, k - 1);
        let b = chain_entries(m, elems[k - 1] as int);
        assert forall|q: int| 0 <= q < s.len() implies 0 <= #[trigger] s[q].1 < m.len() by {
            if q < a.len() {
                assert(s[q] == a[q]);
            } else {
                assert(s[q] == b[q - a.len()]);
            }
        }
    }
}

/// In a well-formed heap every visible environment entry's value stays
/// inside the heap.
pub proof fn lemma_env_entries_bounded(m: Seq<Node>, e: int)
    requires
        nodes_bounded(m),
        0 <= e < m.len(),
    ensures
        forall|q: int|
            0 <= q < env_entries(m, e).len() ==> 0 <= #[trigger] env_entries(m, e)[q].1 < m.len(),
{
    let ht = env_hashtab(m, e);
    if ht != 0 {
        assert(node_wf(m, e));
        if 0 <= ht < m.len() {
            assert(node_wf(m, ht));
            lemma_buckets_entries_bounded(m, vec_elems(m, ht), vec_elems(m, ht).len() as int);
        }
    } else {
        assert(node_wf(m, e));
        lemma_chain_entries_bounded(m, env_frame(m, e));
    }
}

/// Appending one node that is itself sound, is no environment, and
/// interns no already-interned name keeps the heap well-formed.
pub proof fn lemma_push_keeps_wf(m1: Seq<Node>, n: Node)
    requires
        mem_wf(m1),
        node_wf(m1.push(n), m1.len() as int),
        n is Environment ==> env_sane(m1.push(n), m1.len() as int),
        n is Sym ==> find_sym(m1, sym_name(m1.push(n), m1.len() as int)) is None,
    ensures
        mem_wf(m1.push(n)),
        agrees_except(m1, m1.push(n), -1),
{
    let m2 = m1.push(n);
    let l = m1.len() as int;
    assert forall|i: int| 0 <= i < m2.len() implies node_wf(m2, i) by {
        if i < l {
            assert(node_wf(m1, i));
        }
    }
    assert forall|i: int| 0 <= i < m2.len() && m2[i] is Environment implies env_sane(m2, i) by {
        if i < l {
        lemma_env_stable(m1, m2, -1, i);
        assert(env_sane(m1, i));
        let ht = env_hashtab(m1, i);
        if ht != 0 {
            assert(node_wf(m1, i));
            let elems = vec_elems(m1, ht);
            assert(env_hashtab(m2, i) == ht);
            assert(vec_elems(m2, ht) == elems);
            assert forall|k: int| 0 <= k < elems.len() implies chain_names(
                m2,
                #[trigger] elems[k] as int,
            ) == chain_names(m1, elems[k] as int) by {
                assert(node_wf(m1, ht));
                lemma_chain_stable(m1, m2, -1, elems[k] as int);
            }
        } else {
            assert(node_wf(m1, i));
            lemma_chain_stable(m1, m2, -1, env_frame(m1, i));
        }
        }
    }
    if n is Sym {
        lemma_find_sym_none(m1, sym_name(m2, l));
        assert forall|i: int, j: int|
            0 <= i < j < m2.len() && m2[i] is Sym && m2[j] is Sym implies sym_name(m2, i)
            != sym_name(m2, j) by {
            if j < l {
                assert(m1[i] == m2[i] && m1[j] == m2[j]);
                assert(sym_name(m1, i) == sym_name(m2, i) && sym_name(m1, j) == sym_name(m2, j));
            } else {
                assert(sym_name(m1, i) == sym_name(m2, i));
            }
        }
    } else {
        assert forall|i: int, j: int|
            0 <= i < j < m2.len() && m2[i] is Sym && m2[j] is Sym implies sym_name(m2, i)
            != sym_name(m2, j) by {
            assert(j < l);
            assert(sym_name(m1, i) == sym_name(m2, i) && sym_name(m1, j) == sym_name(m2, j));
        }
    }
}

/// The closure projections of the node at `i`.
pub open spec fn clo_formals(m: Seq<Node>, i: int) -> int {
    if 0 <= i < m.len() {
        match m[i] {
            Node::Closure { formals, .. } => formals as int,
            _ => 0,
        }
    } else {
        0
    }
}

pub open spec fn clo_body(m: Seq<Node>, i: int) -> int {
    if 0 <= i < m.len() {
        match m[i] {
            Node::Closure { body, .. } => body as int,
            _ => 0,
        }
    } else {
        0
    }
}

pub open spec fn clo_env(m: Seq<Node>, i: int) -> int {
    if 0 <= i < m.len() {
        match m[i] {
            Node::Closure { env, .. } => env as int,
            _ => 0,
        }
    } else {
        0
    }
}

/// The promise projections of the node at `i`.
pub open spec fn prom_code(m: Seq<Node>, i: int) -> int {
    if 0 <= i < m.len() {
        match m[i] {
            Node::Promise { code, .. } => code as int,
            _ => 0,
        }
    } else {
        0
    }
}

pub open spec fn prom_env(m: Seq<Node>, i: int) -> int {
    if 0 <= i < m.len() {
        match m[i] {
            Node::Promise { env, .. } => env as int,
            _ => 0,
        }
    } else {
        0
    }
}

pub open spec fn prom_value(m: Seq<Node>, i: int) -> int {
    if 0 <= i < m.len() {
        match m[i] {
            Node::Promise { value, .. } => value as int,
            _ => 0,
        }
    } else {
        0
    }
}

pub open spec fn prom_seen(m: Seq<Node>, i: int) -> bool {
    if 0 <= i < m.len() {
        match m[i] {
            Node::Promise { seen, .. } => seen,
            _ => false,
        }
    } else {
        false
    }
}

/// The element indices of the vector node at `i`, as integers.
pub open spec fn list_ids(m: Seq<Node>, i: int) -> Seq<int> {
    vec_elems(m, i).map_values(|u: usize| u as int)
}

/// A change that satisfies `agrees_except` leaves every named spine
/// view below the old length unchanged.
pub proof fn lemma_named_vals_stable(m1: Seq<Node>, m2: Seq<Node>, t: int, i: int)
    requires
        agrees_except(m1, m2, t),
        nodes_bounded(m1),
        i < m1.len(),
    ensures
        spine_named_vals(m2, i) == spine_named_vals(m1, i),
{
    lemma_spine_stable(m1, m2, t, i);
    lemma_spine_bounded(m1, i);
    let s = spine(m1, i);
    assert forall|q: int| 0 <= q < s.len() implies tag_name(m2, #[trigger] s[q].0) == tag_name(
        m1,
        s[q].0,
    ) by {
        assert(0 <= s[q].0 < m1.len());
    }
    assert(spine_named_vals(m2, i) =~= spine_named_vals(m1, i));
}

/// Whether some entry of `s` carries the name `n`.
pub open spec fn has_entry_name(s: Seq<(Seq<u8>, int)>, n: Seq<u8>) -> bool {
    exists|q: int| 0 <= q < s.len() && (#[trigger] s[q]).0 == n
}

/// Membership in a concatenation splits over its parts.
pub proof fn lemma_contains_concat<A>(a: Seq<A>, b: Seq<A>, x: A)
    ensures
        (a + b).contains(x) <==> a.contains(x) || b.contains(x),
{
    if (a + b).contains(x) {
        let q = choose|q: int| 0 <= q < (a + b).len() && (a + b)[q] == x;
        if q < a.len() {
            assert(a[q] == x);
        } else {
            assert(b[q - a.len()] == x);
        }
    }
    if a.contains(x) {
        let q = choose|q: int| 0 <= q < a.len() && a[q] == x;
        assert((a + b)[q] == x);
    }
    if b.contains(x) {
        let q = choose|q: int| 0 <= q < b.len() && b[q] == x;
        assert((a + b)[a.len() + q] == x);
    }
}

/// Prepending a fresh element keeps a sequence duplicate-free.
pub proof fn lemma_no_dup_cons<A>(x: A, s: Seq<A>)
    requires
        !s.contains(x),
        s.no_duplicates(),
    ensures
        (seq![x] + s).no_duplicates(),
{
    let t = seq![x] + s;
    assert forall|i: int, j: int| 0 <= i < t.len() && 0 <= j < t.len() && i != j implies t[i]
        != t[j] by {
        if i == 0 {
            assert(t[j] == s[j - 1]);
            if t[0] == t[j] {
                assert(s.contains(s[j - 1]));
            }
        } else if j == 0 {
            assert(t[i] == s[i - 1]);
            if t[0] == t[i] {
                assert(s.contains(s[i - 1]));
            }
        } else {
            assert(t[i] == s[i - 1] && t[j] == s[j - 1]);
        }
    }
}

/// The mapping of an entry sequence with one entry prepended.
pub proof fn lemma_entry_map_cons(p: (Seq<u8>, int), s: Seq<(Seq<u8>, int)>)
    ensures
        entry_map(seq![p] + s) == entry_map(s).insert(p.0, p.1),
{
    assert((seq![p] + s).drop_first() =~= s);
    assert((seq![p] + s)[0] == p);
}

/// Insertion on the preferred side commutes with union.
pub proof fn lemma_union_insert(x: Map<Seq<u8>, int>, y: Map<Seq<u8>, int>, k: Seq<u8>, v: int)
    ensures
        x.union_prefer_right(y.insert(k, v)) == x.union_prefer_right(y).insert(k, v),
{
    assert(x.union_prefer_right(y.insert(k, v)) =~= x.union_prefer_right(y).insert(k, v));
}

/// Insertion on the other side commutes with union when the preferred
/// side lacks the key.
pub proof fn lemma_insert_union(x: Map<Seq<u8>, int>, y: Map<Seq<u8>, int>, k: Seq<u8>, v: int)
    requires
        !y.dom().contains(k),
    ensures
        x.insert(k, v).union_prefer_right(y) == x.union_prefer_right(y).insert(k, v),
{
    assert(x.insert(k, v).union_prefer_right(y) =~= x.union_prefer_right(y).insert(k, v));
}

/// The mapping of a concatenation: the front part shadows the back.
pub proof fn lemma_entry_map_concat(a: Seq<(Seq<u8>, int)>, b: Seq<(Seq<u8>, int)>)
    ensures
        entry_map(a + b) == entry_map(b).union_prefer_right(entry_map(a)),
    decreases a.len(),
{
    if a.len() == 0 {
        assert(a + b =~= b);
        assert(entry_map(b).union_prefer_right(entry_map(a)) =~= entry_map(b));
    } else {
        assert((a + b).drop_first() =~= a.drop_first() + b);
        assert((a + b)[0] == a[0]);
        lemma_entry_map_concat(a.drop_first(), b);
        lemma_union_insert(entry_map(b), entry_map(a.drop_first()), a[0].0, a[0].1);
    }
}

/// A name carried by no entry is outside the mapping's domain.
pub proof fn lemma_entry_map_dom(s: Seq<(Seq<u8>, int)>, n: Seq<u8>)
    requires
        !has_entry_name(s, n),
    ensures
        !entry_map(s).dom().contains(n),
    decreases s.len(),
{
    if s.len() > 0 {
        if has_entry_name(s.drop_first(), n) {
            let q = choose|q: int|
                0 <= q < s.drop_first().len() && (#[trigger] s.drop_first()[q]).0 == n;
            assert(s[q + 1].0 == n);
        }
        lemma_entry_map_dom(s.drop_first(), n);
        assert(s[0].0 != n);
    }
}

/// A name carried by no chain of the buckets appears in no bucket
/// entry.
pub proof fn lemma_buckets_no_name(m: Seq<Node>, elems: Seq<usize>, n: Seq<u8>, k: int)
    requires
        forall|j: int|
            0 <= j < elems.len() ==> !has_entry_name(
                chain_entries(m, #[trigger] elems[j] as int),
                n,
            ),
        k <= elems.len(),
    ensures
        !has_entry_name(buckets_entries(m, elems, k), n),
    decreases k,
{
    if 0 < k {
        lemma_buckets_no_name(m, elems, n, k - 1);
        let a = buckets_entries(m, elems, k - 1);
        let c = chain_entries(m, elems[k - 1] as int);
        if has_entry_name(a + c, n) {
            let q = choose|q: int| 0 <= q < (a + c).len() && (#[trigger] (a + c)[q]).0 == n;
            if q < a.len() {
                assert(a[q].0 == n);
            } else {
                assert(c[q - a.len()].0 == n);
            }
        }
    }
}

/// A name tagged in some bucket chain is tagged in the bucket view.
pub proof fn lemma_buckets_names_member(
    m: Seq<Node>,
    elems: Seq<usize>,
    n: Seq<u8>,
    j: int,
    k: int,
)
    requires
        0 <= j < k <= elems.len(),
        chain_names(m, elems[j] as int).contains(n),
    ensures
        buckets_names(m, elems, k).contains(n),
    decreases k,
{
    let a = buckets_names(m, elems, k - 1);
    let c = chain_names(m, elems[k - 1] as int);
    if j == k - 1 {
        lemma_contains_concat(a, c, n);
    } else {
        lemma_buckets_names_member(m, elems, n, j, k - 1);
        lemma_contains_concat(a, c, n);
    }
}

/// Prepending one tagged name to bucket `b` adds exactly that name to
/// the bucket name view.
pub proof fn lemma_buckets_names_update(
    m1: Seq<Node>,
    m2: Seq<Node>,
    elems1: Seq<usize>,
    elems2: Seq<usize>,
    b: int,
    name: Seq<u8>,
    k: int,
)
    requires
        0 <= b < elems1.len(),
        elems2.len() == elems1.len(),
        forall|j: int|
            0 <= j < elems1.len() && j != b ==> chain_names(m2, #[trigger] elems2[j] as int)
                == chain_names(m1, elems1[j] as int),
        chain_names(m2, elems2[b] as int) == seq![name] + chain_names(m1, elems1[b] as int),
        k <= elems1.len(),
    ensures
        forall|x: Seq<u8>|
            #[trigger] buckets_names(m2, elems2, k).contains(x) <==> (buckets_names(
                m1,
                elems1,
                k,
            ).contains(x) || (k > b && x == name)),
    decreases k,
{
    if 0 < k {
        lemma_buckets_names_update(m1, m2, elems1, elems2, b, name, k - 1);
        let a1 = buckets_names(m1, elems1, k - 1);
        let c1 = chain_names(m1, elems1[k - 1] as int);
        let a2 = buckets_names(m2, elems2, k - 1);
        let c2 = chain_names(m2, elems2[k - 1] as int);
        assert forall|x: Seq<u8>|
            #[trigger] buckets_names(m2, elems2, k).contains(x) <==> (buckets_names(
                m1,
                elems1,
                k,
            ).contains(x) || (k > b && x == name)) by {
            lemma_contains_concat(a1, c1, x);
            lemma_contains_concat(a2, c2, x);
            if k - 1 == b {
                lemma_contains_concat(seq![name], chain_names(m1, elems1[b] as int), x);
                if x == name {
                    assert(seq![name][0] == x);
                    assert(seq![name].contains(x));
                }
                if seq![name].contains(x) {
                    let q = choose|q: int| 0 <= q < 1 && seq![name][q] == x;
                    assert(x == name);
                }
            }
        }
    }
}

/// Prepending one visible entry to bucket `b` inserts exactly that
/// binding into the bucket mapping, provided the name is fresh.
pub proof fn lemma_buckets_insert(
    m1: Seq<Node>,
    m2: Seq<Node>,
    elems1: Seq<usize>,
    elems2: Seq<usize>,
    b: int,
    name: Seq<u8>,
    v: int,
    k: int,
)
    requires
        0 <= b < elems1.len(),
        elems2.len() == elems1.len(),
        forall|j: int|
            0 <= j < elems1.len() && j != b ==> chain_entries(m2, #[trigger] elems2[j] as int)
                == chain_entries(m1, elems1[j] as int),
        chain_entries(m2, elems2[b] as int) == seq![(name, v)] + chain_entries(
            m1,
            elems1[b] as int,
        ),
        forall|j: int|
            0 <= j < elems1.len() ==> !has_entry_name(
                chain_entries(m1, #[trigger] elems1[j] as int),
                name,
            ),
        k <= elems1.len(),
    ensures
        k <= b ==> entry_map(buckets_entries(m2, elems2, k)) == entry_map(
            buckets_entries(m1, elems1, k),
        ),
        k > b ==> entry_map(buckets_entries(m2, elems2, k)) == entry_map(
            buckets_entries(m1, elems1, k),
        ).insert(name, v),
    decreases k,
{
    if 0 < k {
        lemma_buckets_insert(m1, m2, elems1, elems2, b, name, v, k - 1);
        let a1 = buckets_entries(m1, elems1, k - 1);
        let c1 = chain_entries(m1, elems1[k - 1] as int);
        let a2 = buckets_entries(m2, elems2, k - 1);
        let c2 = chain_entries(m2, elems2[k - 1] as int);
        lemma_entry_map_concat(a1, c1);
        lemma_entry_map_concat(a2, c2);
        if k - 1 < b {
            assert(entry_map(a2) == entry_map(a1) && c2 == c1);
        } else if k - 1 == b {
            lemma_entry_map_cons((name, v), c1);
            lemma_buckets_no_name(m1, elems1, name, b);
            lemma_entry_map_dom(a1, name);
            lemma_insert_union(entry_map(c1), entry_map(a1), name, v);
        } else {
            lemma_union_insert(entry_map(c1), entry_map(a1), name, v);
        }
    }
}

/// The bucket views of a vector of empty buckets are empty.
pub proof fn lemma_nil_buckets(m: Seq<Node>, elems: Seq<usize>, k: int)
    requires
        m.len() > 0,
        m[0] is Nil,
        forall|j: int| 0 <= j < elems.len() ==> (#[trigger] elems[j]) == 0,
        k <= elems.len(),
    ensures
        buckets_entries(m, elems, k) == Seq::<(Seq<u8>, int)>::empty(),
        buckets_names(m, elems, k) == Seq::<Seq<u8>>::empty(),
    decreases k,
{
    if 0 < k {
        lemma_nil_buckets(m, elems, k - 1);
        assert(chain_entries(m, 0) =~= Seq::<(Seq<u8>, int)>::empty());
        assert(chain_names(m, 0) =~= Seq::<Seq<u8>>::empty());
        assert(buckets_entries(m, elems, k) =~= Seq::<(Seq<u8>, int)>::empty());
        assert(buckets_names(m, elems, k) =~= Seq::<Seq<u8>>::empty());
    }
}

/// Every visible entry's name is among the chain's tagged names.
pub proof fn lemma_chain_entry_names(m: Seq<Node>, i: int)
    ensures
        forall|q: int|
            0 <= q < chain_entries(m, i).len() ==> chain_names(m, i).contains(
                (#[trigger] chain_entries(m, i)[q]).0,
            ),
    decreases i,
{
    if 0 <= i < m.len() {
        match m[i] {
            Node::Cons { car, cdr, tag, .. } => {
                let ce = chain_entries(m, i);
                let cn = chain_names(m, i);
                let re = if (cdr as int) < i {
                    chain_entries(m, cdr as int)
                } else {
                    Seq::<(Seq<u8>, int)>::empty()
                };
                let rn = if (cdr as int) < i {
                    chain_names(m, cdr as int)
                } else {
                    Seq::<Seq<u8>>::empty()
                };
                if (cdr as int) < i {
                    lemma_chain_entry_names(m, cdr as int);
                }
                let tagged = is_sym(m, tag as int);
                let nmh = sym_name(m, tag as int);
                assert forall|q: int| 0 <= q < ce.len() implies cn.contains(
                    (#[trigger] ce[q]).0,
                ) by {
                    if tagged {
                        if !(kind_at(m, car as int) is Unbound) {
                            if q == 0 {
                                assert(cn[0] == nmh);
                            } else {
                                assert(ce[q] == re[q - 1]);
                                lemma_contains_concat(seq![nmh], rn, ce[q].0);
                            }
                        } else {
                            assert(ce[q] == re[q]);
                            lemma_contains_concat(seq![nmh], rn, ce[q].0);
                        }
                    } else {
                        assert(ce[q] == re[q]);
                    }
                }
            },
            _ => {},
        }
    }
}

/// A spine starting at `i` has at most `i + 1` cells.
pub proof fn lemma_spine_len_bound(m: Seq<Node>, i: int)
    ensures
        0 <= i ==> spine(m, i).len() <= i + 1,
    decreases i,
{
    if 0 <= i < m.len() {
        match m[i] {
            Node::Cons { cdr, .. } => {
                if (cdr as int) < i {
                    lemma_spine_len_bound(m, cdr as int);
                }
            },
            _ => {},
        }
    }
}

/// Sequence prefixing is transitive.
pub proof fn lemma_prefix_trans(a: Seq<Node>, b: Seq<Node>, c: Seq<Node>)
    requires
        a.is_prefix_of(b),
        b.is_prefix_of(c),
    ensures
        a.is_prefix_of(c),
{
    assert(a =~= c.take(a.len() as int));
}

} // verus!
