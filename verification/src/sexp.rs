use vstd::prelude::*;

verus! {

/// Dynamic type tag of one foreign heap object: the closed type lattice
/// that every narrowing conversion dispatches on.
#[derive(Clone, Copy, PartialEq, Eq, Structural, Debug)]
pub enum SexpType {
    /// The empty-list sentinel.
    Nil,
    /// The unbound-value sentinel marking deleted environment slots.
    Unbound,
    /// A scalar integer value.
    Int,
    /// An interned symbol.
    Sym,
    /// One element of the character cache.
    Char,
    /// A fixed-length byte vector.
    RawBytes,
    /// A call expression: a cons spine whose head cell carries this tag.
    Lang,
    /// A dotted-pair list: a cons spine of plain cells.
    PairList,
    /// A generic vector of handles.
    VecList,
    /// A quoted-expression vector of handles.
    ExprList,
    /// A lexical environment.
    Environment,
    /// A closure.
    Closure,
    /// A deferred-evaluation record.
    Promise,
    /// A built-in function.
    Builtin,
    /// A special form.
    Special,
}

/// One object in the model of the foreign heap.  Every `usize` field is
/// the index of another node of the same heap.
pub enum Node {
    Nil,
    Unbound,
    Int { value: i64 },
    /// `value` is the symbol's bound value slot (the unbound sentinel
    /// unless the name denotes a built-in of the loaded runtime).
    Sym { name: Vec<u8>, value: usize },
    Char { text: Vec<u8> },
    RawBytes { bytes: Vec<u8> },
    /// A two-slot cell.  `tag` is the optional name slot (a symbol, or
    /// the nil sentinel).  `is_lang` distinguishes call-expression cells
    /// from plain pair-list cells.
    Cons { is_lang: bool, car: usize, cdr: usize, tag: usize },
    VecList { is_expr: bool, elems: Vec<usize> },
    /// `frame` is a cons chain of direct bindings; `hashtab`, when not
    /// nil, is a vector of cons chains (one bucket per hash value).
    Environment { parent: usize, frame: usize, hashtab: usize },
    Closure { formals: usize, body: usize, env: usize },
    Promise { code: usize, env: usize, value: usize, seen: bool },
    Builtin { is_special: bool },
}

impl Node {
    /// The dynamic type tag of this node.
    pub open spec fn kind(self) -> SexpType {
        match self {
            Node::Nil => SexpType::Nil,
            Node::Unbound => SexpType::Unbound,
            Node::Int { .. } => SexpType::Int,
            Node::Sym { .. } => SexpType::Sym,
            Node::Char { .. } => SexpType::Char,
            Node::RawBytes { .. } => SexpType::RawBytes,
            Node::Cons { is_lang, .. } => if is_lang {
                SexpType::Lang
            } else {
                SexpType::PairList
            },
            Node::VecList { is_expr, .. } => if is_expr {
                SexpType::ExprList
            } else {
                SexpType::VecList
            },
            Node::Environment { .. } => SexpType::Environment,
            Node::Closure { .. } => SexpType::Closure,
            Node::Promise { .. } => SexpType::Promise,
            Node::Builtin { is_special } => if is_special {
                SexpType::Special
            } else {
                SexpType::Builtin
            },
        }
    }

    /// Computes the dynamic type tag.
    pub fn type_of(&self) -> (t: SexpType)
        ensures
            t == self.kind(),
    {
        match self {
            Node::Nil => SexpType::Nil,
            Node::Unbound => SexpType::Unbound,
            Node::Int { .. } => SexpType::Int,
            Node::Sym { .. } => SexpType::Sym,
            Node::Char { .. } => SexpType::Char,
            Node::RawBytes { .. } => SexpType::RawBytes,
            Node::Cons { is_lang, .. } => if *is_lang {
                SexpType::Lang
            } else {
                SexpType::PairList
            },
            Node::VecList { is_expr, .. } => if *is_expr {
                SexpType::ExprList
            } else {
                SexpType::VecList
            },
            Node::Environment { .. } => SexpType::Environment,
            Node::Closure { .. } => SexpType::Closure,
            Node::Promise { .. } => SexpType::Promise,
            Node::Builtin { is_special } => if *is_special {
                SexpType::Special
            } else {
                SexpType::Builtin
            },
        }
    }
}

} // verus!
