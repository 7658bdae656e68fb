//! The worklist unifier: repeatedly pops a pending pair of terms, dereferences
//! both sides through the substitution, and either decomposes two value nodes,
//! binds a variable class to a value node, or merges two variable classes.

use vstd::prelude::*;

use crate::subst::{
    cells_wf, int_min, is_rep, lemma_bind, lemma_rep_of, lemma_union, rep_of, spec_resolve, Cell,
    CellV, Substitution,
};
use crate::term::{
    copy_term, lemma_children_view, lemma_max_var_children_bound, lemma_weight_pos, max_unif_vars,
    max_var, max_var_children, nat_max, node_wf, term_wf, weight, weight_children, TermNodeV,
    TermV, UnifTerm,
};

verus! {

/// Why a unification attempt failed.
#[derive(Debug)]
pub enum SubstitutionError {
    /// Two dereferenced value nodes disagreed in tag or in number of children.
    ErrAtomComparison,
    /// The run was cut off after exhausting its step budget. Bindings may tie
    /// a variable class to a term that transitively contains the class itself
    /// (no occurs check is performed before binding), and decomposition of
    /// such a self-referential binding never empties the worklist; the budget
    /// turns that into an error instead of an endless run.
    ErrOccursCheck,
}

/// Both terms are value nodes that disagree in tag or in number of children.
pub open spec fn top_mismatch(a: TermV, b: TermV) -> bool {
    &&& a matches TermV::Val { value: na }
    &&& b matches TermV::Val { value: nb }
    &&& (na.data != nb.data || na.children.len() != nb.children.len())
}

/// Both terms are childless value nodes carrying the same tag.
pub open spec fn equal_atoms(a: TermV, b: TermV) -> bool {
    &&& a matches TermV::Val { value: na }
    &&& b matches TermV::Val { value: nb }
    &&& na.data == nb.data
    &&& na.children.len() == 0
    &&& nb.children.len() == 0
}

/// A term fit for a substitution over `n` variables: normalized, mentioning
/// no variable index above `n`.
pub open spec fn term_ok(t: TermV, n: nat) -> bool {
    term_wf(t) && max_var(t) <= n
}

/// A value node fit for a substitution over `n` variables.
pub open spec fn node_ok(nv: TermNodeV, n: nat) -> bool {
    node_wf(nv) && max_var_children(nv.children) <= n
}

spec fn pair_ok(p: (UnifTerm, UnifTerm), n: nat) -> bool {
    term_ok(p.0@, n) && term_ok(p.1@, n)
}

/// The two terms have the same shape: variables aligned with variables, and
/// value nodes aligned with value nodes of the same tag and arity, throughout.
/// Such terms differ at most in which variables they mention, in particular a
/// term has the same shape as itself and as any renaming of its variables.
pub open spec fn same_shape(a: TermV, b: TermV) -> bool
    decreases a,
{
    match (a, b) {
        (TermV::Var { .. }, TermV::Var { .. }) => true,
        (TermV::Val { value: na }, TermV::Val { value: nb }) => na.data == nb.data
            && na.children.len() == nb.children.len() && (forall|i: int|
            0 <= i < na.children.len() ==> same_shape(
                #[trigger] na.children[i],
                nb.children[i],
            )),
        _ => false,
    }
}

/// Every term has its own shape.
pub proof fn lemma_same_shape_refl(t: TermV)
    ensures
        same_shape(t, t),
    decreases t,
{
    match t {
        TermV::Var { .. } => {},
        TermV::Val { value } => {
            assert forall|i: int| 0 <= i < value.children.len() implies same_shape(
                #[trigger] value.children[i],
                value.children[i],
            ) by {
                lemma_same_shape_refl(value.children[i]);
            }
        },
    }
}

/// Total node count of the left-hand sides of a worklist.
spec fn wsum(s: Seq<(UnifTerm, UnifTerm)>) -> nat
    decreases s,
{
    if s.len() == 0 {
        0
    } else {
        wsum(s.drop_last()) + weight(s.last().0@)
    }
}

proof fn lemma_wsum_push(s: Seq<(UnifTerm, UnifTerm)>, p: (UnifTerm, UnifTerm))
    ensures
        wsum(s.push(p)) == wsum(s) + weight(p.0@),
{
    assert(s.push(p).drop_last() =~= s);
    assert(s.push(p).last() == p);
}

/// Outcome of the abstract decomposition run: success with the final cells, a
/// structural clash, or fuel exhausted with pairs still pending.
pub enum RunResult {
    RunOk { cells: Seq<CellV> },
    RunFail,
    RunOut,
}

/// The cells of a fresh substitution over `n` variables: all self-links.
pub open spec fn fresh_cells(n: nat) -> Seq<CellV> {
    Seq::new(n, |i: int| CellV::Link(i))
}

/// The corresponding children of two value nodes, paired by position.
pub open spec fn child_pairs(na: TermNodeV, nb: TermNodeV) -> Seq<(TermV, TermV)> {
    Seq::new(na.children.len(), |i: int| (na.children[i], nb.children[i]))
}

/// Binding the class of `x` to the node `n`, on the mathematical cells.
pub open spec fn spec_bind(cells: Seq<CellV>, x: int, n: TermNodeV) -> Seq<CellV> {
    cells.update(rep_of(cells, x), CellV::Bound(n))
}

/// Merging the classes of `x1` and `x2`: the larger representative is
/// relinked to the smaller, on the mathematical cells.
pub open spec fn spec_union(cells: Seq<CellV>, x1: int, x2: int) -> Seq<CellV> {
    if rep_of(cells, x1) <= rep_of(cells, x2) {
        cells.update(rep_of(cells, x2), CellV::Link(rep_of(cells, x1)))
    } else {
        cells.update(rep_of(cells, x1), CellV::Link(rep_of(cells, x2)))
    }
}

/// The decomposition algorithm itself, as a mathematical function: resolve the
/// last pending pair through the cells, then fail on a tag or arity clash,
/// decompose two value nodes, bind a variable class, or merge two classes.
/// One unit of fuel is spent per resolved pair; `unify` refines this run.
#[verifier::opaque]
pub open spec fn run_unify(cells: Seq<CellV>, wl: Seq<(TermV, TermV)>, fuel: nat) -> RunResult
    decreases fuel,
{
    if wl.len() == 0 {
        RunResult::RunOk { cells }
    } else if fuel == 0 {
        RunResult::RunOut
    } else {
        match (spec_resolve(cells, wl.last().0), spec_resolve(cells, wl.last().1)) {
            (CellV::Bound(na), CellV::Bound(nb)) => {
                if na.data != nb.data || na.children.len() != nb.children.len() {
                    RunResult::RunFail
                } else {
                    run_unify(cells, wl.drop_last() + child_pairs(na, nb), (fuel - 1) as nat)
                }
            },
            (CellV::Bound(n), CellV::Link(x)) => run_unify(
                spec_bind(cells, x, n),
                wl.drop_last(),
                (fuel - 1) as nat,
            ),
            (CellV::Link(x), CellV::Bound(n)) => run_unify(
                spec_bind(cells, x, n),
                wl.drop_last(),
                (fuel - 1) as nat,
            ),
            (CellV::Link(x1), CellV::Link(x2)) => run_unify(
                spec_union(cells, x1, x2),
                wl.drop_last(),
                (fuel - 1) as nat,
            ),
        }
    }
}

/// The abstract run on the pair `t1v`, `t2v` from a fresh substitution sized
/// to them, after `f` steps: the reference that `unify`'s contract refines.
pub open spec fn unify_run(t1v: TermV, t2v: TermV, f: nat) -> RunResult {
    run_unify(fresh_cells(nat_max(max_var(t1v), max_var(t2v))), seq![(t1v, t2v)], f)
}

/// An empty worklist is a finished, successful run.
proof fn lemma_run_empty(cells: Seq<CellV>, wl: Seq<(TermV, TermV)>)
    requires
        wl.len() == 0,
    ensures
        run_unify(cells, wl, 0) == (RunResult::RunOk { cells: cells }),
{
    reveal(run_unify);
}

/// A nonempty worklist without fuel is an unfinished run.
proof fn lemma_run_pending(cells: Seq<CellV>, wl: Seq<(TermV, TermV)>)
    requires
        wl.len() > 0,
    ensures
        run_unify(cells, wl, 0) == RunResult::RunOut,
{
    reveal(run_unify);
}

/// A run that has finished gives the same result under any larger fuel.
pub proof fn lemma_run_monotone(cells: Seq<CellV>, wl: Seq<(TermV, TermV)>, f1: nat, f2: nat)
    requires
        f1 <= f2,
        !(run_unify(cells, wl, f1) is RunOut),
    ensures
        run_unify(cells, wl, f2) == run_unify(cells, wl, f1),
    decreases f1,
{
    reveal(run_unify);
    if wl.len() == 0 {
    } else {
        match (spec_resolve(cells, wl.last().0), spec_resolve(cells, wl.last().1)) {
            (CellV::Bound(na), CellV::Bound(nb)) => {
                if !(na.data != nb.data || na.children.len() != nb.children.len()) {
                    lemma_run_monotone(
                        cells,
                        wl.drop_last() + child_pairs(na, nb),
                        (f1 - 1) as nat,
                        (f2 - 1) as nat,
                    );
                }
            },
            (CellV::Bound(n), CellV::Link(x)) => {
                lemma_run_monotone(
                    spec_bind(cells, x, n),
                    wl.drop_last(),
                    (f1 - 1) as nat,
                    (f2 - 1) as nat,
                );
            },
            (CellV::Link(x), CellV::Bound(n)) => {
                lemma_run_monotone(
                    spec_bind(cells, x, n),
                    wl.drop_last(),
                    (f1 - 1) as nat,
                    (f2 - 1) as nat,
                );
            },
            (CellV::Link(x1), CellV::Link(x2)) => {
                lemma_run_monotone(
                    spec_union(cells, x1, x2),
                    wl.drop_last(),
                    (f1 - 1) as nat,
                    (f2 - 1) as nat,
                );
            },
        }
    }
}

/// Two finished runs of the same problem agree, whatever their fuels.
pub proof fn lemma_run_confluent(cells: Seq<CellV>, wl: Seq<(TermV, TermV)>, f1: nat, f2: nat)
    requires
        !(run_unify(cells, wl, f1) is RunOut),
        !(run_unify(cells, wl, f2) is RunOut),
    ensures
        run_unify(cells, wl, f1) == run_unify(cells, wl, f2),
{
    if f1 <= f2 {
        lemma_run_monotone(cells, wl, f1, f2);
    } else {
        lemma_run_monotone(cells, wl, f2, f1);
    }
}

/// Two cell states present the same classes and the same representatives'
/// cells; everything the algorithm observes of a substitution.
#[verifier::opaque]
pub open spec fn cells_equiv(a: Seq<CellV>, b: Seq<CellV>) -> bool {
    &&& a.len() == b.len()
    &&& cells_wf(a)
    &&& cells_wf(b)
    &&& forall|j: int| rep_of(a, j) == rep_of(b, j)
    &&& forall|j: int| 0 <= j < a.len() && is_rep(a, j) ==> a[j] == b[j]
}

proof fn lemma_equiv_is_rep(a: Seq<CellV>, b: Seq<CellV>, j: int)
    requires
        cells_equiv(a, b),
    ensures
        is_rep(a, j) <==> is_rep(b, j),
{
    reveal(cells_equiv);
    if 0 <= j < a.len() {
        lemma_rep_of(a, j);
        lemma_rep_of(b, j);
    }
}

/// Equivalent cell states resolve every fitting term alike.
pub proof fn lemma_equiv_resolve(a: Seq<CellV>, b: Seq<CellV>, t: TermV)
    requires
        cells_equiv(a, b),
        term_wf(t),
        max_var(t) <= a.len(),
    ensures
        spec_resolve(a, t) == spec_resolve(b, t),
{
    reveal(cells_equiv);
    match t {
        TermV::Var { value: v } => {
            lemma_rep_of(a, v - 1);
        },
        TermV::Val { .. } => {},
    }
}

/// Equal well-formed cell states are equivalent.
proof fn lemma_equiv_same(a: Seq<CellV>, b: Seq<CellV>)
    requires
        a == b,
        cells_wf(a),
    ensures
        cells_equiv(a, b),
{
    reveal(cells_equiv);
}

/// Extends an equivalence across a change that keeps classes and
/// representatives' cells (path compression).
proof fn lemma_equiv_step(s: Seq<CellV>, a: Seq<CellV>, b: Seq<CellV>)
    requires
        cells_equiv(s, a),
        cells_wf(b),
        a.len() == b.len(),
        forall|j: int| rep_of(b, j) == rep_of(a, j),
        forall|j: int| 0 <= j < a.len() && is_rep(a, j) ==> b[j] == a[j],
    ensures
        cells_equiv(s, b),
{
    reveal(cells_equiv);
    assert forall|j: int| 0 <= j < s.len() && is_rep(s, j) implies s[j] == b[j] by {
        lemma_equiv_is_rep(s, a, j);
    }
}

/// A concrete binding step refines `spec_bind`: its result is equivalent to
/// `spec_bind` applied to any cells equivalent to its starting cells.
proof fn lemma_bind_refines(spec_pre: Seq<CellV>, a: Seq<CellV>, b: Seq<CellV>, x: int, n: TermNodeV)
    requires
        cells_equiv(spec_pre, a),
        0 <= x < a.len(),
        cells_wf(b),
        b.len() == a.len(),
        forall|j: int| rep_of(b, j) == rep_of(a, j),
        b[rep_of(a, x)] == CellV::Bound(n),
        forall|j: int| 0 <= j < b.len() && j != rep_of(a, x) && is_rep(a, j) ==> b[j] == a[j],
    ensures
        cells_equiv(spec_bind(spec_pre, x, n), b),
        spec_bind(spec_pre, x, n).len() == spec_pre.len(),
{
    reveal(cells_equiv);
    let q = rep_of(spec_pre, x);
    lemma_rep_of(spec_pre, x);
    lemma_bind(spec_pre, q, n);
    let sp = spec_bind(spec_pre, x, n);
    assert forall|j: int| 0 <= j < sp.len() && is_rep(sp, j) implies sp[j] == b[j] by {
        if j != q {
            assert(sp[j] == spec_pre[j]);
            assert(is_rep(spec_pre, j));
            lemma_equiv_is_rep(spec_pre, a, j);
        }
    }
}

/// A concrete merge step refines `spec_union` in the same way.
proof fn lemma_union_refines(spec_pre: Seq<CellV>, a: Seq<CellV>, b: Seq<CellV>, x1: int, x2: int)
    requires
        cells_equiv(spec_pre, a),
        0 <= x1 < a.len(),
        0 <= x2 < a.len(),
        cells_wf(b),
        b.len() == a.len(),
        forall|j: int|
            rep_of(b, j) == if rep_of(a, j) == rep_of(a, x1) || rep_of(a, j) == rep_of(a, x2) {
                int_min(rep_of(a, x1), rep_of(a, x2))
            } else {
                rep_of(a, j)
            },
        forall|j: int|
            0 <= j < b.len() && is_rep(a, j) && j != rep_of(a, x1) && j != rep_of(a, x2) ==> b[j]
                == a[j],
        rep_of(a, x1) != rep_of(a, x2) ==> b[int_min(rep_of(a, x1), rep_of(a, x2))] == a[int_min(
            rep_of(a, x1),
            rep_of(a, x2),
        )],
        b[if rep_of(a, x1) <= rep_of(a, x2) {
            rep_of(a, x2)
        } else {
            rep_of(a, x1)
        }] == CellV::Link(int_min(rep_of(a, x1), rep_of(a, x2))),
    ensures
        cells_equiv(spec_union(spec_pre, x1, x2), b),
        spec_union(spec_pre, x1, x2).len() == spec_pre.len(),
{
    reveal(cells_equiv);
    let q1 = rep_of(spec_pre, x1);
    let q2 = rep_of(spec_pre, x2);
    lemma_rep_of(spec_pre, x1);
    lemma_rep_of(spec_pre, x2);
    let sp = spec_union(spec_pre, x1, x2);
    if q1 <= q2 {
        lemma_union(spec_pre, q2, q1);
    } else {
        lemma_union(spec_pre, q1, q2);
    }
    let lo = int_min(q1, q2);
    let hi = if q1 <= q2 {
        q2
    } else {
        q1
    };
    assert forall|j: int| 0 <= j < sp.len() && is_rep(sp, j) implies sp[j] == b[j] by {
        if j == hi {
        } else if j == lo {
            lemma_equiv_is_rep(spec_pre, a, j);
        } else {
            assert(sp[j] == spec_pre[j]);
            assert(is_rep(spec_pre, j));
            lemma_equiv_is_rep(spec_pre, a, j);
        }
    }
}

/// With a bare variable on either side, the run succeeds after one step and
/// its final cells resolve both sides to one and the same cell.
pub proof fn lemma_run_var(a: TermV, b: TermV, n: nat)
    requires
        term_wf(a),
        term_wf(b),
        a is Var || b is Var,
        max_var(a) <= n,
        max_var(b) <= n,
    ensures
        run_unify(fresh_cells(n), seq![(a, b)], 1) matches RunResult::RunOk { cells: c }
            && spec_resolve(c, a) == spec_resolve(c, b),
{
    reveal(run_unify);
    let cells = fresh_cells(n);
    let wl: Seq<(TermV, TermV)> = seq![(a, b)];
    assert(wl.last() == (a, b));
    assert(wl.drop_last().len() == 0);
    match (a, b) {
        (TermV::Var { value: va }, TermV::Var { value: vb }) => {
            assert(rep_of(cells, va - 1) == va - 1);
            assert(rep_of(cells, vb - 1) == vb - 1);
            assert(spec_resolve(cells, a) == CellV::Link(va - 1));
            assert(spec_resolve(cells, b) == CellV::Link(vb - 1));
            let c = spec_union(cells, va - 1, vb - 1);
            assert(run_unify(c, wl.drop_last(), 0) == (RunResult::RunOk { cells: c }));
            let lo = int_min(va - 1, vb - 1);
            let hi = if va <= vb {
                vb - 1
            } else {
                va - 1
            };
            assert(c == cells.update(hi, CellV::Link(lo)));
            if va == vb {
                assert(spec_resolve(c, a) == spec_resolve(c, b));
            } else {
                assert(c[lo] == CellV::Link(lo));
                assert(rep_of(c, lo) == lo);
                assert(rep_of(c, hi) == lo);
                assert(spec_resolve(c, a) == c[lo]);
                assert(spec_resolve(c, b) == c[lo]);
            }
        },
        (TermV::Var { value: va }, TermV::Val { value: nb }) => {
            assert(rep_of(cells, va - 1) == va - 1);
            assert(spec_resolve(cells, a) == CellV::Link(va - 1));
            assert(spec_resolve(cells, b) == CellV::Bound(nb));
            let c = spec_bind(cells, va - 1, nb);
            assert(run_unify(c, wl.drop_last(), 0) == (RunResult::RunOk { cells: c }));
            assert(c[va - 1] == CellV::Bound(nb));
            assert(rep_of(c, va - 1) == va - 1);
            assert(spec_resolve(c, a) == CellV::Bound(nb));
        },
        (TermV::Val { value: na }, TermV::Var { value: vb }) => {
            assert(rep_of(cells, vb - 1) == vb - 1);
            assert(spec_resolve(cells, a) == CellV::Bound(na));
            assert(spec_resolve(cells, b) == CellV::Link(vb - 1));
            let c = spec_bind(cells, vb - 1, na);
            assert(run_unify(c, wl.drop_last(), 0) == (RunResult::RunOk { cells: c }));
            assert(c[vb - 1] == CellV::Bound(na));
            assert(rep_of(c, vb - 1) == vb - 1);
            assert(spec_resolve(c, b) == CellV::Bound(na));
        },
        (TermV::Val { .. }, TermV::Val { .. }) => {},
    }
}

/// On two childless value nodes of one tag, the run succeeds after one step.
pub proof fn lemma_run_atoms(a: TermV, b: TermV, n: nat)
    requires
        equal_atoms(a, b),
    ensures
        run_unify(fresh_cells(n), seq![(a, b)], 1) is RunOk,
{
    reveal(run_unify);
    let cells = fresh_cells(n);
    let wl: Seq<(TermV, TermV)> = seq![(a, b)];
    assert(wl.last() == (a, b));
    match (a, b) {
        (TermV::Val { value: na }, TermV::Val { value: nb }) => {
            assert(spec_resolve(cells, a) == CellV::Bound(na));
            assert(spec_resolve(cells, b) == CellV::Bound(nb));
            let wl2 = wl.drop_last() + child_pairs(na, nb);
            assert(wl2.len() == 0);
            assert(run_unify(cells, wl2, 0) == (RunResult::RunOk { cells }));
        },
        _ => {},
    }
}

/// On two value nodes that disagree in tag or arity, the run fails after one
/// step.
pub proof fn lemma_run_mismatch(a: TermV, b: TermV, n: nat)
    requires
        top_mismatch(a, b),
    ensures
        run_unify(fresh_cells(n), seq![(a, b)], 1) == RunResult::RunFail,
{
    reveal(run_unify);
    let cells = fresh_cells(n);
    let wl: Seq<(TermV, TermV)> = seq![(a, b)];
    assert(wl.last() == (a, b));
    match (a, b) {
        (TermV::Val { value: na }, TermV::Val { value: nb }) => {
            assert(spec_resolve(cells, a) == CellV::Bound(na));
            assert(spec_resolve(cells, b) == CellV::Bound(nb));
        },
        _ => {},
    }
}

/// Computes a most general unifier of `t1` and `t2`: sizes a substitution to
/// the larger variable index referenced by either term, then decomposes the
/// pair worklist-style until it is empty (success) or two value nodes clash
/// (failure). Inputs are assumed normalized: variable indices are one-based
/// and drawn from one shared namespace.
///
/// The contract ties the result to `unify_run`, the same decomposition stated
/// as a mathematical function: success returns a substitution presenting the
/// classes and bindings of the run's final cells, the clash error is returned
/// when the run fails, and the budget error only when the run is still
/// decomposing after every fuel the budget covers. With `lemma_run_monotone`
/// and `lemma_run_confluent` these outcomes exclude one another, so evaluating
/// `unify_run` on given terms decides which result this function must return.
#[verifier::loop_isolation(false)]
#[verifier::rlimit(100)]
pub fn unify(t1: &UnifTerm, t2: &UnifTerm) -> (r: Result<Substitution, SubstitutionError>)
    requires
        term_wf(t1@),
        term_wf(t2@),
    ensures
        r matches Ok(s) ==> s.wf() && s@.len() == nat_max(max_var(t1@), max_var(t2@)),
        t1@ is Var || t2@ is Var ==> (r matches Ok(s) && spec_resolve(s@, t1@) == spec_resolve(
            s@,
            t2@,
        )),
        top_mismatch(t1@, t2@) ==> (r matches Err(e) && e is ErrAtomComparison),
        equal_atoms(t1@, t2@) ==> r is Ok,
        same_shape(t1@, t2@) && weight(t1@) <= usize::MAX ==> r is Ok,
        r matches Ok(s) ==> exists|f: nat|
            (#[trigger] unify_run(t1@, t2@, f)) matches RunResult::RunOk { cells: c }
                && cells_equiv(c, s@),
        r == Err::<Substitution, SubstitutionError>(SubstitutionError::ErrAtomComparison)
            ==> exists|f: nat| #[trigger] unify_run(t1@, t2@, f) == RunResult::RunFail,
        r == Err::<Substitution, SubstitutionError>(SubstitutionError::ErrOccursCheck)
            ==> forall|f: nat| f <= usize::MAX ==> unify_run(t1@, t2@, f) == RunResult::RunOut,
{
    let ghost shaped = same_shape(t1@, t2@) && weight(t1@) <= usize::MAX;
    let m1 = max_unif_vars(t1);
    let m2 = max_unif_vars(t2);
    let num_vars = if m1 < m2 {
        m2
    } else {
        m1
    };
    let mut sigma = Substitution::new(num_vars);
    let mut to_unify: Vec<(UnifTerm, UnifTerm)> = Vec::new();
    let ta0 = copy_term(t1);
    let tb0 = copy_term(t2);
    let ghost p0: (UnifTerm, UnifTerm) = (ta0, tb0);
    to_unify.push((ta0, tb0));
    proof {
        lemma_wsum_push(Seq::empty(), p0);
        assert(wsum(Seq::empty()) == 0);
    }
    let mut fuel: usize = usize::MAX;
    let ghost init_cells = fresh_cells(num_vars as nat);
    let ghost init_wl: Seq<(TermV, TermV)> = seq![(t1@, t2@)];
    let ghost mut spec_cells: Seq<CellV> = fresh_cells(num_vars as nat);
    let ghost mut wlv: Seq<(TermV, TermV)> = seq![(t1@, t2@)];
    let ghost mut steps: nat = 0;
    proof {
        assert(spec_cells =~= sigma@);
        lemma_equiv_same(spec_cells, sigma@);
        assert(num_vars as nat == nat_max(max_var(t1@), max_var(t2@)));
        assert(wlv[0] == (to_unify@[0].0@, to_unify@[0].1@));
    }
    while to_unify.len() > 0
        invariant
            sigma.wf(),
            sigma@.len() == num_vars,
            forall|k: int|
                0 <= k < to_unify@.len() ==> pair_ok(#[trigger] to_unify@[k], num_vars as nat),
            forall|k: int|
                0 <= k < sigma@.len() ==> (#[trigger] sigma@[k] matches CellV::Bound(nv)
                    ==> node_ok(nv, num_vars as nat)),
            shaped ==> ((forall|k: int|
                0 <= k < sigma@.len() ==> !((#[trigger] sigma@[k]) is Bound)) && (forall|k: int|
                0 <= k < to_unify@.len() ==> same_shape(
                    (#[trigger] to_unify@[k]).0@,
                    to_unify@[k].1@,
                )) && fuel >= wsum(to_unify@)),
            cells_equiv(spec_cells, sigma@),
            spec_cells.len() == num_vars,
            wlv.len() == to_unify@.len(),
            forall|k: int|
                0 <= k < wlv.len() ==> #[trigger] wlv[k] == (to_unify@[k].0@, to_unify@[k].1@),
            steps + fuel == usize::MAX,
            forall|f: nat| #[trigger] run_unify(spec_cells, wlv, f) == run_unify(
                init_cells,
                init_wl,
                (steps + f) as nat,
            ),
        decreases fuel,
    {
        if fuel == 0 {
            proof {
                if shaped {
                    lemma_weight_pos(to_unify@.last().0@);
                }
                lemma_run_pending(spec_cells, wlv);
                assert forall|f: nat| f <= usize::MAX implies run_unify(init_cells, init_wl, f)
                    == RunResult::RunOut by {
                    if run_unify(init_cells, init_wl, f) != RunResult::RunOut {
                        lemma_run_monotone(init_cells, init_wl, f, steps);
                    }
                }
                assert forall|f: nat| f <= usize::MAX implies unify_run(t1@, t2@, f)
                    == RunResult::RunOut by {
                    assert(unify_run(t1@, t2@, f) == run_unify(init_cells, init_wl, f));
                }
                if t1@ is Var || t2@ is Var {
                    lemma_run_var(t1@, t2@, num_vars as nat);
                }
                if equal_atoms(t1@, t2@) {
                    lemma_run_atoms(t1@, t2@, num_vars as nat);
                }
                if top_mismatch(t1@, t2@) {
                    lemma_run_mismatch(t1@, t2@, num_vars as nat);
                }
            }
            return Err(SubstitutionError::ErrOccursCheck);
        }
        let ghost wl_head = to_unify@;
        fuel = fuel - 1;
        let pair = to_unify.pop().unwrap();
        let ta = pair.0;
        let tb = pair.1;
        let ghost wsum_rest = wsum(to_unify@);
        let ghost wl_rest = to_unify@;
        let ghost wlv_head = wlv;
        let ghost steps0 = steps;
        proof {
            wlv = wlv.drop_last();
            assert(wlv_head.last() == (ta@, tb@));
            assert forall|k: int| 0 <= k < wlv.len() implies #[trigger] wlv[k] == (
            to_unify@[k].0@,
            to_unify@[k].1@,
            ) by {
                assert(wlv_head[k] == (wl_head[k].0@, wl_head[k].1@));
            }
            if shaped {
                assert(wl_head.drop_last() =~= to_unify@);
                assert(same_shape(ta@, tb@));
                assert(fuel + 1 >= wsum_rest + weight(ta@));
                lemma_weight_pos(ta@);
            }
        }
        let ghost sigma0 = sigma@;
        let ca = sigma.lookup(&ta);
        proof {
            match ta@ {
                TermV::Var { value: va } => {
                    lemma_rep_of(sigma0, va - 1);
                },
                TermV::Val { .. } => {},
            }
            assert(forall|k: int|
                0 <= k < sigma@.len() ==> (#[trigger] sigma@[k] matches CellV::Bound(nv)
                    ==> node_ok(nv, num_vars as nat)));
            assert(ca@ matches CellV::Bound(nv) ==> node_ok(nv, num_vars as nat));
            lemma_equiv_resolve(spec_cells, sigma0, ta@);
            lemma_equiv_step(spec_cells, sigma0, sigma@);
            assert(spec_resolve(spec_cells, ta@) == ca@);
            if shaped {
                assert(forall|k: int| 0 <= k < sigma@.len() ==> !((#[trigger] sigma@[k]) is Bound));
            }
        }
        let ghost sigma1 = sigma@;
        let cb = sigma.lookup(&tb);
        proof {
            match tb@ {
                TermV::Var { value: vb } => {
                    lemma_rep_of(sigma1, vb - 1);
                },
                TermV::Val { .. } => {},
            }
            assert(forall|k: int|
                0 <= k < sigma@.len() ==> (#[trigger] sigma@[k] matches CellV::Bound(nv)
                    ==> node_ok(nv, num_vars as nat)));
            assert(cb@ matches CellV::Bound(nv) ==> node_ok(nv, num_vars as nat));
            lemma_equiv_resolve(spec_cells, sigma1, tb@);
            lemma_equiv_step(spec_cells, sigma1, sigma@);
            assert(spec_resolve(spec_cells, tb@) == cb@);
            if shaped {
                assert(forall|k: int| 0 <= k < sigma@.len() ==> !((#[trigger] sigma@[k]) is Bound));
            }
        }
        match (ca, cb) {
            (Cell::Bound(na), Cell::Bound(nb)) => {
                proof {
                    lemma_children_view(na.children@);
                    lemma_children_view(nb.children@);
                    assert(node_ok(na@, num_vars as nat));
                    assert(node_ok(nb@, num_vars as nat));
                }
                let arity = na.children.len();
                if na.data != nb.data || arity != nb.children.len() {
                    proof {
                        reveal(run_unify);
                        assert(run_unify(spec_cells, wlv_head, 1) == RunResult::RunFail);
                        assert(run_unify(init_cells, init_wl, (steps0 + 1) as nat)
                            == RunResult::RunFail);
                        assert(num_vars as nat == nat_max(max_var(t1@), max_var(t2@)));
                        assert(unify_run(t1@, t2@, (steps0 + 1) as nat) == RunResult::RunFail);
                        if t1@ is Var || t2@ is Var {
                            lemma_run_var(t1@, t2@, num_vars as nat);
                            lemma_run_confluent(init_cells, init_wl, 1, (steps0 + 1) as nat);
                        }
                        if equal_atoms(t1@, t2@) {
                            lemma_run_atoms(t1@, t2@, num_vars as nat);
                            lemma_run_confluent(init_cells, init_wl, 1, (steps0 + 1) as nat);
                        }
                        if shaped {
                            assert(ta@ is Val);
                            assert(tb@ is Val);
                            assert(!(na@.data != nb@.data || na@.children.len()
                                != nb@.children.len()));
                        }
                    }
                    return Err(SubstitutionError::ErrAtomComparison);
                }
                proof {
                    if shaped {
                        assert(ta@ is Val);
                        assert(tb@ is Val);
                        assert(weight(ta@) == 1 + weight_children(na@.children));
                        assert(forall|k: int|
                            0 <= k < na@.children.len() ==> same_shape(
                                #[trigger] na@.children[k],
                                nb@.children[k],
                            ));
                        assert(fuel >= wsum_rest + weight_children(na@.children));
                        assert(na@.children.subrange(0, 0) =~= Seq::<TermV>::empty());
                    }
                }
                let mut i: usize = 0;
                while i < arity
                    invariant
                        i <= arity,
                        forall|k: int|
                            0 <= k < to_unify@.len() ==> pair_ok(
                                #[trigger] to_unify@[k],
                                num_vars as nat,
                            ),
                        to_unify@.len() == wl_rest.len() + i,
                        forall|k: int|
                            0 <= k < wl_rest.len() ==> #[trigger] to_unify@[k] == wl_rest[k],
                        forall|k: int|
                            wl_rest.len() <= k < to_unify@.len() ==> (#[trigger] to_unify@[k]).0@
                                == na@.children[k - wl_rest.len()] && to_unify@[k].1@
                                == nb@.children[k - wl_rest.len()],
                        shaped ==> ((forall|k: int|
                            0 <= k < to_unify@.len() ==> same_shape(
                                (#[trigger] to_unify@[k]).0@,
                                to_unify@[k].1@,
                            )) && wsum(to_unify@) == wsum_rest + weight_children(
                            na@.children.subrange(0, i as int),
                        )),
                    decreases arity - i,
                {
                    proof {
                        lemma_max_var_children_bound(na@.children, i as int);
                        lemma_max_var_children_bound(nb@.children, i as int);
                        assert(term_ok(na@.children[i as int], num_vars as nat));
                        assert(term_ok(nb@.children[i as int], num_vars as nat));
                    }
                    let xa = copy_term(&na.children[i]);
                    let xb = copy_term(&nb.children[i]);
                    proof {
                        assert(xa@ == na@.children[i as int]);
                        assert(xb@ == nb@.children[i as int]);
                        assert(pair_ok((xa, xb), num_vars as nat));
                    }
                    let ghost pv: (UnifTerm, UnifTerm) = (xa, xb);
                    let ghost wl0 = to_unify@;
                    to_unify.push((xa, xb));
                    proof {
                        lemma_wsum_push(wl0, pv);
                        if shaped {
                            assert(same_shape(pv.0@, pv.1@));
                            assert(na@.children.subrange(0, i + 1).drop_last() =~= na@.children
                                .subrange(0, i as int));
                            assert(na@.children.subrange(0, i + 1).last() == na@.children[
                                i as int]);
                        }
                    }
                    i = i + 1;
                }
                proof {
                    if shaped {
                        assert(na@.children.subrange(0, arity as int) =~= na@.children);
                    }
                    wlv = wlv + child_pairs(na@, nb@);
                    steps = steps + 1;
                    assert(wlv.len() == to_unify@.len());
                    assert forall|k: int| 0 <= k < wlv.len() implies #[trigger] wlv[k] == (
                    to_unify@[k].0@,
                    to_unify@[k].1@,
                    ) by {
                        if k < wl_rest.len() {
                            assert(to_unify@[k] == wl_rest[k]);
                        }
                    }
                    assert forall|f: nat| #[trigger] run_unify(spec_cells, wlv, f) == run_unify(
                        init_cells,
                        init_wl,
                        (steps + f) as nat,
                    ) by {
                        reveal(run_unify);
                        assert(run_unify(spec_cells, wlv_head, (f + 1) as nat) == run_unify(
                            init_cells,
                            init_wl,
                            (steps0 + (f + 1)) as nat,
                        ));
                    }
                }
            },
            (Cell::Bound(n), Cell::Link(x)) => {
                proof {
                    assert(node_ok(n@, num_vars as nat));
                    if shaped {
                        assert(ta@ is Val);
                        assert(tb@ is Var);
                        assert(!same_shape(ta@, tb@));
                    }
                }
                let ghost sigma2 = sigma@;
                sigma.binding_set(x, &n);
                proof {
                    let sph = spec_cells;
                    lemma_bind_refines(sph, sigma2, sigma@, x as int, n@);
                    spec_cells = spec_bind(sph, x as int, n@);
                    steps = steps + 1;
                    assert forall|f: nat| #[trigger] run_unify(spec_cells, wlv, f) == run_unify(
                        init_cells,
                        init_wl,
                        (steps + f) as nat,
                    ) by {
                        reveal(run_unify);
                        assert(run_unify(sph, wlv_head, (f + 1) as nat) == run_unify(
                            init_cells,
                            init_wl,
                            (steps0 + (f + 1)) as nat,
                        ));
                    }
                }
            },
            (Cell::Link(x), Cell::Bound(n)) => {
                proof {
                    assert(node_ok(n@, num_vars as nat));
                    if shaped {
                        assert(ta@ is Var);
                        assert(tb@ is Val);
                        assert(!same_shape(ta@, tb@));
                    }
                }
                let ghost sigma2 = sigma@;
                sigma.binding_set(x, &n);
                proof {
                    let sph = spec_cells;
                    lemma_bind_refines(sph, sigma2, sigma@, x as int, n@);
                    spec_cells = spec_bind(sph, x as int, n@);
                    steps = steps + 1;
                    assert forall|f: nat| #[trigger] run_unify(spec_cells, wlv, f) == run_unify(
                        init_cells,
                        init_wl,
                        (steps + f) as nat,
                    ) by {
                        reveal(run_unify);
                        assert(run_unify(sph, wlv_head, (f + 1) as nat) == run_unify(
                            init_cells,
                            init_wl,
                            (steps0 + (f + 1)) as nat,
                        ));
                    }
                }
            },
            (Cell::Link(x1), Cell::Link(x2)) => {
                let ghost sigma2 = sigma@;
                sigma.binding_eq(x1, x2);
                proof {
                    if shaped {
                        assert(forall|k: int|
                            0 <= k < sigma@.len() ==> !((#[trigger] sigma@[k]) is Bound));
                    }
                    let sph = spec_cells;
                    lemma_union_refines(sph, sigma2, sigma@, x1 as int, x2 as int);
                    spec_cells = spec_union(sph, x1 as int, x2 as int);
                    steps = steps + 1;
                    assert forall|f: nat| #[trigger] run_unify(spec_cells, wlv, f) == run_unify(
                        init_cells,
                        init_wl,
                        (steps + f) as nat,
                    ) by {
                        reveal(run_unify);
                        assert(run_unify(sph, wlv_head, (f + 1) as nat) == run_unify(
                            init_cells,
                            init_wl,
                            (steps0 + (f + 1)) as nat,
                        ));
                    }
                }
            },
        }
    }
    proof {
        lemma_run_empty(spec_cells, wlv);
        assert(run_unify(init_cells, init_wl, (steps + 0) as nat) == (RunResult::RunOk {
            cells: spec_cells,
        }));
        assert(num_vars as nat == nat_max(max_var(t1@), max_var(t2@)));
        assert(unify_run(t1@, t2@, steps) == (RunResult::RunOk { cells: spec_cells }));
        if top_mismatch(t1@, t2@) {
            lemma_run_mismatch(t1@, t2@, num_vars as nat);
            lemma_run_confluent(init_cells, init_wl, 1, steps);
        }
        if t1@ is Var || t2@ is Var {
            lemma_run_var(t1@, t2@, num_vars as nat);
            lemma_run_confluent(init_cells, init_wl, 1, steps);
            lemma_equiv_resolve(spec_cells, sigma@, t1@);
            lemma_equiv_resolve(spec_cells, sigma@, t2@);
            assert(spec_resolve(sigma@, t1@) == spec_resolve(sigma@, t2@));
        }
    }
    Ok(sigma)
}

} // verus!
