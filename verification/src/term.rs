//! The term model: value nodes, unification variables, and the helper that
//! sizes a substitution by the largest variable index a term mentions.

use vstd::prelude::*;

verus! {

/// One-based index of a unification variable.
pub type UnifVar = usize;

/// A constructor of an alphabet together with its fixed arity.
pub struct TermData<T> {
    pub arity: u8,
    pub data: T,
}

/// An arity-tagged alphabet. Callers consult it while building terms; the
/// unifier itself consumes already-constructed terms and never validates
/// arities against it.
pub struct Language<T> {
    pub syntax: Vec<TermData<T>>,
}

/// A concrete value node: a constructor tag and its ordered child terms.
#[derive(Debug)]
pub struct TermNode {
    pub data: char,
    pub children: Vec<Box<UnifTerm>>,
}

/// A unification term: either a value node or a reference to a variable.
#[derive(Debug)]
pub enum UnifTerm {
    Val { value: TermNode },
    Var { value: UnifVar },
}

/// Mathematical model of a value node.
pub struct TermNodeV {
    pub data: char,
    pub children: Seq<TermV>,
}

/// Mathematical model of a term.
pub enum TermV {
    Val { value: TermNodeV },
    Var { value: nat },
}

pub open spec fn term_view(t: UnifTerm) -> TermV
    decreases t,
{
    match t {
        UnifTerm::Val { value } => TermV::Val { value: node_view(value) },
        UnifTerm::Var { value } => TermV::Var { value: value as nat },
    }
}

pub open spec fn node_view(n: TermNode) -> TermNodeV
    decreases n,
{
    TermNodeV { data: n.data, children: children_view(n.children@) }
}

pub open spec fn children_view(s: Seq<Box<UnifTerm>>) -> Seq<TermV>
    decreases s,
{
    if s.len() == 0 {
        Seq::empty()
    } else {
        children_view(s.drop_last()).push(term_view(*s.last()))
    }
}

impl View for UnifTerm {
    type V = TermV;

    open spec fn view(&self) -> TermV {
        term_view(*self)
    }
}

impl View for TermNode {
    type V = TermNodeV;

    open spec fn view(&self) -> TermNodeV {
        node_view(*self)
    }
}

/// `children_view` is the pointwise view of the child sequence.
pub proof fn lemma_children_view(s: Seq<Box<UnifTerm>>)
    ensures
        children_view(s).len() == s.len(),
        forall|i: int| 0 <= i < s.len() ==> children_view(s)[i] == term_view(*s[i]),
    decreases s,
{
    if s.len() > 0 {
        lemma_children_view(s.drop_last());
        assert forall|i: int| 0 <= i < s.len() implies children_view(s)[i] == term_view(*s[i]) by {
            if i < s.len() - 1 {
                assert(s.drop_last()[i] == s[i]);
            }
        }
    }
}

pub open spec fn nat_max(a: nat, b: nat) -> nat {
    if a < b {
        b
    } else {
        a
    }
}

/// The largest variable index mentioned anywhere in `t`; 0 when no variable occurs.
pub open spec fn max_var(t: TermV) -> nat
    decreases t,
{
    match t {
        TermV::Val { value } => max_var_children(value.children),
        TermV::Var { value } => value,
    }
}

pub open spec fn max_var_children(s: Seq<TermV>) -> nat
    decreases s,
{
    if s.len() == 0 {
        0
    } else {
        nat_max(max_var_children(s.drop_last()), max_var(s.last()))
    }
}

/// No child mentions a variable index above the maximum over the sequence.
pub proof fn lemma_max_var_children_bound(s: Seq<TermV>, i: int)
    requires
        0 <= i < s.len(),
    ensures
        max_var(s[i]) <= max_var_children(s),
    decreases s,
{
    if i < s.len() - 1 {
        lemma_max_var_children_bound(s.drop_last(), i);
        assert(s.drop_last()[i] == s[i]);
    }
}

/// The number of nodes in a term.
pub open spec fn weight(t: TermV) -> nat
    decreases t,
{
    match t {
        TermV::Var { .. } => 1,
        TermV::Val { value } => 1 + weight_children(value.children),
    }
}

pub open spec fn weight_children(s: Seq<TermV>) -> nat
    decreases s,
{
    if s.len() == 0 {
        0
    } else {
        weight_children(s.drop_last()) + weight(s.last())
    }
}

pub proof fn lemma_weight_pos(t: TermV)
    ensures
        weight(t) >= 1,
{
    match t {
        TermV::Var { .. } => {},
        TermV::Val { .. } => {},
    }
}

/// Variable `k` occurs somewhere in the term.
pub open spec fn has_var(t: TermV, k: nat) -> bool
    decreases t,
{
    match t {
        TermV::Var { value } => value == k,
        TermV::Val { value } => exists|i: int|
            0 <= i < value.children.len() && has_var(#[trigger] value.children[i], k),
    }
}

proof fn lemma_max_var_children_attained(s: Seq<TermV>)
    ensures
        max_var_children(s) > 0 ==> exists|i: int|
            0 <= i < s.len() && has_var(#[trigger] s[i], max_var_children(s)),
    decreases s,
{
    if s.len() > 0 {
        lemma_max_var_children_attained(s.drop_last());
        lemma_max_var_attained(s.last());
        if max_var_children(s) > 0 {
            let m = max_var_children(s);
            if max_var(s.last()) == m {
                assert(s[s.len() - 1] == s.last());
            } else {
                let i = choose|i: int|
                    0 <= i < s.drop_last().len() && has_var(
                        #[trigger] s.drop_last()[i],
                        max_var_children(s.drop_last()),
                    );
                assert(s.drop_last()[i] == s[i]);
            }
        }
    }
}

/// The computed maximum variable index bounds every variable occurring in the
/// term, whatever order a traversal visits them in.
pub proof fn lemma_max_var_is_bound(t: TermV, k: nat)
    requires
        has_var(t, k),
    ensures
        k <= max_var(t),
    decreases t,
{
    match t {
        TermV::Var { .. } => {},
        TermV::Val { value } => {
            let i = choose|i: int|
                0 <= i < value.children.len() && has_var(#[trigger] value.children[i], k);
            lemma_max_var_is_bound(value.children[i], k);
            lemma_max_var_children_bound(value.children, i);
        },
    }
}

/// The computed maximum variable index is attained by an occurring variable
/// whenever it is nonzero; for a term in which no variable occurs it is zero.
pub proof fn lemma_max_var_attained(t: TermV)
    ensures
        max_var(t) > 0 ==> has_var(t, max_var(t)),
        (forall|k: nat| !has_var(t, k)) ==> max_var(t) == 0,
    decreases t,
{
    match t {
        TermV::Var { value: v } => {
            assert(has_var(t, v));
        },
        TermV::Val { value } => {
            lemma_max_var_children_attained(value.children);
            if max_var(t) > 0 {
                let m = max_var_children(value.children);
                let i = choose|i: int|
                    0 <= i < value.children.len() && has_var(#[trigger] value.children[i], m);
                assert(has_var(t, m));
            }
        },
    }
}

/// A normalized term: every variable index is one-based (at least 1).
pub open spec fn term_wf(t: TermV) -> bool
    decreases t,
{
    match t {
        TermV::Val { value } => node_wf(value),
        TermV::Var { value } => value >= 1,
    }
}

pub open spec fn node_wf(n: TermNodeV) -> bool
    decreases n,
{
    forall|i: int| 0 <= i < n.children.len() ==> term_wf(#[trigger] n.children[i])
}

/// Computes the maximum variable index referenced anywhere in a term, by an
/// exhaustive traversal; used to size a substitution before unification.
#[verifier::loop_isolation(false)]
pub fn max_unif_vars(t: &UnifTerm) -> (r: usize)
    ensures
        r as nat == max_var(t@),
    decreases *t,
{
    match t {
        UnifTerm::Var { value } => *value,
        UnifTerm::Val { value } => {
            let ghost sv = children_view(value.children@);
            proof {
                lemma_children_view(value.children@);
            }
            let mut r: usize = 0;
            let mut i: usize = 0;
            while i < value.children.len()
                invariant
                    i <= value.children@.len(),
                    sv == children_view(value.children@),
                    sv.len() == value.children@.len(),
                    forall|j: int| 0 <= j < sv.len() ==> sv[j] == term_view(*value.children@[j]),
                    r as nat == max_var_children(sv.subrange(0, i as int)),
                decreases value.children@.len() - i,
            {
                let m = max_unif_vars(&value.children[i]);
                if m > r {
                    r = m;
                }
                proof {
                    let pre = sv.subrange(0, i as int);
                    let post = sv.subrange(0, i + 1 as int);
                    assert(post.drop_last() =~= pre);
                    assert(post.last() == sv[i as int]);
                }
                i = i + 1;
            }
            proof {
                assert(sv.subrange(0, i as int) =~= sv);
            }
            r
        },
    }
}

/// Structurally copies a term.
pub fn copy_term(t: &UnifTerm) -> (r: UnifTerm)
    ensures
        r@ == t@,
    decreases *t,
{
    match t {
        UnifTerm::Var { value } => UnifTerm::Var { value: *value },
        UnifTerm::Val { value } => UnifTerm::Val { value: copy_node(value) },
    }
}

/// Structurally copies a value node.
#[verifier::loop_isolation(false)]
pub fn copy_node(n: &TermNode) -> (r: TermNode)
    ensures
        r@ == n@,
    decreases *n,
{
    let mut children: Vec<Box<UnifTerm>> = Vec::new();
    let mut i: usize = 0;
    while i < n.children.len()
        invariant
            i <= n.children@.len(),
            children@.len() == i,
            forall|j: int|
                0 <= j < i ==> term_view(*#[trigger] children@[j]) == term_view(*n.children@[j]),
        decreases n.children@.len() - i,
    {
        let c = copy_term(&n.children[i]);
        children.push(Box::new(c));
        i = i + 1;
    }
    proof {
        lemma_children_view(children@);
        lemma_children_view(n.children@);
        assert(children_view(children@) =~= children_view(n.children@));
    }
    TermNode { data: n.data, children }
}

} // verus!
