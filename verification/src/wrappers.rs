use vstd::prelude::*;
use crate::heap::Robj;
use crate::sexp::Node;

verus! {

/// Every handle of the sequence points inside the heap.
pub open spec fn robjs_valid(s: Seq<Robj>, m: Seq<Node>) -> bool {
    forall|j: int| 0 <= j < s.len() ==> (#[trigger] s[j]).valid(m)
}

/// The heap indices of a handle sequence.
pub open spec fn seq_ids(s: Seq<Robj>) -> Seq<int> {
    s.map_values(|o: Robj| o.id())
}

/// Wrapper for creating symbols: a named reference interned by exact
/// byte sequence.  Two wrappers with equal text denote the same
/// interned identity after materialization.  Interning is idempotent
/// but not free, so hot paths should cache the materialized handle.
#[derive(Debug, PartialEq, Eq, Clone)]
pub struct Symbol(pub Vec<u8>);

/// Wrapper for one element of the character cache, distinct from a
/// plain native string in that it round-trips through the foreign
/// character representation.
#[derive(Debug, PartialEq, Eq, Clone)]
pub struct Character(pub Vec<u8>);

/// Wrapper for a raw byte vector; materialization copies the bytes
/// into a freshly allocated fixed-length foreign buffer.
#[derive(Debug, PartialEq, Eq, Clone)]
pub struct Raw(pub Vec<u8>);

/// Wrapper for a call expression: operator first, then operands,
/// materialized as a right-folded cons spine of call cells.
#[derive(Debug, PartialEq, Eq, Clone)]
pub struct Lang(pub Vec<Robj>);

impl Lang {
    pub open spec fn ids(self) -> Seq<int> {
        seq_ids(self.0@)
    }
}

/// Wrapper for a dotted-pair list: an ordered sequence of optionally
/// named values, materialized as a cons spine whose cells carry the
/// name tags.
#[derive(Debug, PartialEq, Eq, Clone)]
pub struct Pairlist {
    pub names_and_values: Vec<(Option<Vec<u8>>, Robj)>,
}

/// The `(optional name, index)` view of a pairlist wrapper's content.
pub open spec fn named_ids(s: Seq<(Option<Vec<u8>>, Robj)>) -> Seq<(Option<Seq<u8>>, int)> {
    s.map_values(
        |p: (Option<Vec<u8>>, Robj)|
            (
                match p.0 {
                    Some(n) => Some(n@),
                    None => None,
                },
                p.1.id(),
            ),
    )
}

impl Pairlist {
    pub open spec fn ids(self) -> Seq<(Option<Seq<u8>>, int)> {
        named_ids(self.names_and_values@)
    }
}

/// Wrapper for a generic list: a size-known sequence of values
/// materialized into one contiguous foreign vector.
#[derive(Debug, PartialEq, Eq, Clone)]
pub struct List(pub Vec<Robj>);

impl List {
    pub open spec fn ids(self) -> Seq<int> {
        seq_ids(self.0@)
    }
}

/// Wrapper for a quoted-expression list: as `List`, under the
/// expression type tag.
#[derive(Debug, PartialEq, Eq, Clone)]
pub struct Expr(pub Vec<Robj>);

impl Expr {
    pub open spec fn ids(self) -> Seq<int> {
        seq_ids(self.0@)
    }
}

/// Wrapper for a lexical environment: a parent plus a mapping from
/// names to values.
#[derive(Debug, PartialEq, Eq, Clone)]
pub struct Env {
    pub parent: Robj,
    pub names_and_values: Vec<(Vec<u8>, Robj)>,
}

/// The `(name, index)` view of an environment wrapper's content.
pub open spec fn entry_ids(s: Seq<(Vec<u8>, Robj)>) -> Seq<(Seq<u8>, int)> {
    s.map_values(|p: (Vec<u8>, Robj)| (p.0@, p.1.id()))
}

impl Env {
    pub open spec fn ids(self) -> Seq<(Seq<u8>, int)> {
        entry_ids(self.names_and_values@)
    }
}

/// Wrapper for a closure: its formals, body and defining environment.
/// Closures are never synthesized from scratch by this layer, so the
/// wrapper is extraction-only.
#[derive(Debug, PartialEq, Eq, Clone)]
pub struct Func {
    pub formals: Robj,
    pub body: Robj,
    pub env: Robj,
}

/// Wrapper for a deferred-evaluation record: unevaluated code, the
/// defining environment, the cached value (or the unbound sentinel),
/// and the forced flag.  Extraction-only.
#[derive(Debug, PartialEq, Eq, Clone)]
pub struct Promise {
    pub code: Robj,
    pub env: Robj,
    pub value: Robj,
    pub seen: bool,
}

/// Wrapper for resolving a built-in (or special-form) function by
/// name.  Materializing a name not bound to a built-in yields the
/// empty-list sentinel: a defined fallback, not an error.
#[derive(Debug, PartialEq, Eq, Clone)]
pub struct Primitive(pub Vec<u8>);

/// A plain byte string is accepted wherever a named reference is
/// expected.
impl From<Vec<u8>> for Symbol {
    fn from(v: Vec<u8>) -> (r: Symbol) {
        Symbol(v)
    }
}

impl vstd::std_specs::convert::FromSpecImpl<Vec<u8>> for Symbol {
    open spec fn obeys_from_spec() -> bool {
        true
    }

    open spec fn from_spec(v: Vec<u8>) -> Symbol {
        Symbol(v)
    }
}

} // verus!
