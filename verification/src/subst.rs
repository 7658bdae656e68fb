//! The substitution: a union-find forest over variable indices. Each class
//! representative either carries a binding to a value node or is a self-link
//! (an unbound variable). Links always point toward a strictly smaller index,
//! so every chain of links reaches a representative.

use vstd::prelude::*;

use crate::term::{
    children_view, copy_node, lemma_children_view, lemma_max_var_children_bound, max_var,
    max_var_children, node_view, node_wf, term_view, term_wf, TermNode, TermNodeV, TermV, UnifTerm,
};

verus! {

/// A union-find cell: the binding of a class representative, or a link to the
/// cell's provisional parent (a self-link marks an unbound representative).
#[derive(Debug)]
pub enum Cell {
    Bound(TermNode),
    Link(usize),
}

/// Mathematical model of a cell.
pub enum CellV {
    Bound(TermNodeV),
    Link(int),
}

pub open spec fn cell_view(c: Cell) -> CellV {
    match c {
        Cell::Bound(n) => CellV::Bound(node_view(n)),
        Cell::Link(i) => CellV::Link(i as int),
    }
}

impl View for Cell {
    type V = CellV;

    open spec fn view(&self) -> CellV {
        cell_view(*self)
    }
}

/// Links never point upward: cell `i` may only link to some `j <= i`.
/// This orients the forest and rules out cycles among links.
pub open spec fn cells_wf(cells: Seq<CellV>) -> bool {
    forall|i: int|
        0 <= i < cells.len() ==> (#[trigger] cells[i] matches CellV::Link(j) ==> 0 <= j <= i)
}

/// The representative of the class of cell `i`: the cell reached by following
/// links until a binding or a self-link.
pub open spec fn rep_of(cells: Seq<CellV>, i: int) -> int
    decreases i,
{
    if 0 <= i < cells.len() {
        match cells[i] {
            CellV::Bound(_) => i,
            CellV::Link(j) => if 0 <= j < i {
                rep_of(cells, j)
            } else {
                i
            },
        }
    } else {
        i
    }
}

/// Cell `i` is a class representative: it holds a binding or a self-link.
pub open spec fn is_rep(cells: Seq<CellV>, i: int) -> bool {
    0 <= i < cells.len() && (cells[i] is Bound || cells[i] == CellV::Link(i))
}

pub open spec fn int_min(a: int, b: int) -> int {
    if a <= b {
        a
    } else {
        b
    }
}

/// Following links from a cell in range reaches a representative at or below it.
pub proof fn lemma_rep_of(cells: Seq<CellV>, i: int)
    requires
        cells_wf(cells),
        0 <= i < cells.len(),
    ensures
        0 <= rep_of(cells, i) <= i,
        is_rep(cells, rep_of(cells, i)),
        is_rep(cells, i) ==> rep_of(cells, i) == i,
        !is_rep(cells, i) ==> rep_of(cells, i) < i,
    decreases i,
{
    match cells[i] {
        CellV::Bound(_) => {},
        CellV::Link(j) => {
            if 0 <= j < i {
                lemma_rep_of(cells, j);
            }
        },
    }
}

proof fn lemma_relink_at(cells: Seq<CellV>, s: int, r: int, j: int)
    requires
        cells_wf(cells),
        0 <= s < cells.len(),
        r == rep_of(cells, s),
        r < s,
    ensures
        rep_of(cells.update(s, CellV::Link(r)), j) == rep_of(cells, j),
    decreases j,
{
    let cells2 = cells.update(s, CellV::Link(r));
    lemma_rep_of(cells, s);
    if 0 <= j < cells.len() {
        if j == s {
            lemma_relink_at(cells, s, r, r);
        } else {
            match cells[j] {
                CellV::Bound(_) => {},
                CellV::Link(jj) => {
                    if 0 <= jj < j {
                        lemma_relink_at(cells, s, r, jj);
                    }
                },
            }
        }
    }
}

/// Relinking a non-representative cell directly to its representative (path
/// compression) changes no class.
pub proof fn lemma_relink(cells: Seq<CellV>, s: int, r: int)
    requires
        cells_wf(cells),
        0 <= s < cells.len(),
        r == rep_of(cells, s),
        r < s,
    ensures
        cells_wf(cells.update(s, CellV::Link(r))),
        forall|j: int| rep_of(cells.update(s, CellV::Link(r)), j) == rep_of(cells, j),
{
    lemma_rep_of(cells, s);
    assert forall|j: int| rep_of(cells.update(s, CellV::Link(r)), j) == rep_of(cells, j) by {
        lemma_relink_at(cells, s, r, j);
    }
}

proof fn lemma_bind_at(cells: Seq<CellV>, p: int, nv: TermNodeV, j: int)
    requires
        cells_wf(cells),
        is_rep(cells, p),
    ensures
        rep_of(cells.update(p, CellV::Bound(nv)), j) == rep_of(cells, j),
    decreases j,
{
    if 0 <= j < cells.len() && j != p {
        match cells[j] {
            CellV::Bound(_) => {},
            CellV::Link(jj) => {
                if 0 <= jj < j {
                    lemma_bind_at(cells, p, nv, jj);
                }
            },
        }
    }
}

/// Overwriting a representative's cell with a binding changes no class.
pub proof fn lemma_bind(cells: Seq<CellV>, p: int, nv: TermNodeV)
    requires
        cells_wf(cells),
        is_rep(cells, p),
    ensures
        cells_wf(cells.update(p, CellV::Bound(nv))),
        forall|j: int| rep_of(cells.update(p, CellV::Bound(nv)), j) == rep_of(cells, j),
{
    assert forall|j: int| rep_of(cells.update(p, CellV::Bound(nv)), j) == rep_of(cells, j) by {
        lemma_bind_at(cells, p, nv, j);
    }
}

proof fn lemma_union_at(cells: Seq<CellV>, hi: int, lo: int, j: int)
    requires
        cells_wf(cells),
        0 <= lo <= hi < cells.len(),
        is_rep(cells, hi),
        is_rep(cells, lo),
    ensures
        rep_of(cells.update(hi, CellV::Link(lo)), j) == if rep_of(cells, j) == hi {
            lo
        } else {
            rep_of(cells, j)
        },
    decreases j,
{
    let cells2 = cells.update(hi, CellV::Link(lo));
    if 0 <= j < cells.len() {
        if j == hi {
            if lo < hi {
                lemma_union_at(cells, hi, lo, lo);
            }
        } else {
            match cells[j] {
                CellV::Bound(_) => {},
                CellV::Link(jj) => {
                    if 0 <= jj < j {
                        lemma_union_at(cells, hi, lo, jj);
                    }
                },
            }
        }
    }
}

/// Relinking one representative to a representative at or below it merges the
/// two classes; every other class is untouched.
pub proof fn lemma_union(cells: Seq<CellV>, hi: int, lo: int)
    requires
        cells_wf(cells),
        0 <= lo <= hi < cells.len(),
        is_rep(cells, hi),
        is_rep(cells, lo),
    ensures
        cells_wf(cells.update(hi, CellV::Link(lo))),
        forall|j: int|
            rep_of(cells.update(hi, CellV::Link(lo)), j) == if rep_of(cells, j) == hi {
                lo
            } else {
                rep_of(cells, j)
            },
{
    assert forall|j: int|
        rep_of(cells.update(hi, CellV::Link(lo)), j) == if rep_of(cells, j) == hi {
            lo
        } else {
            rep_of(cells, j)
        } by {
        lemma_union_at(cells, hi, lo, j);
    }
}

/// Resolving a term through a substitution: a value term stands for its own
/// node; a variable stands for its class representative's cell.
pub open spec fn spec_resolve(cells: Seq<CellV>, t: TermV) -> CellV {
    match t {
        TermV::Val { value } => CellV::Bound(value),
        TermV::Var { value } => cells[rep_of(cells, value - 1)],
    }
}

/// Applying a substitution to a term, one dereference step per variable
/// occurrence: a variable whose class is bound is replaced by the class's
/// stored value node verbatim (the node's own variables are not rewritten
/// further); an unbound variable is renamed to its class representative's
/// one-based index. Value nodes are rebuilt with rewritten children.
pub open spec fn spec_rewrite(cells: Seq<CellV>, t: TermV) -> TermV
    decreases t,
{
    match t {
        TermV::Val { value } => TermV::Val {
            value: TermNodeV {
                data: value.data,
                children: spec_rewrite_children(cells, value.children),
            },
        },
        TermV::Var { value } => match cells[rep_of(cells, value - 1)] {
            CellV::Bound(nv) => TermV::Val { value: nv },
            CellV::Link(r) => TermV::Var { value: (r + 1) as nat },
        },
    }
}

pub open spec fn spec_rewrite_children(cells: Seq<CellV>, s: Seq<TermV>) -> Seq<TermV>
    decreases s,
{
    if s.len() == 0 {
        Seq::empty()
    } else {
        spec_rewrite_children(cells, s.drop_last()).push(spec_rewrite(cells, s.last()))
    }
}

/// `spec_rewrite_children` is the pointwise rewrite of the sequence.
pub proof fn lemma_rewrite_children(cells: Seq<CellV>, s: Seq<TermV>)
    ensures
        spec_rewrite_children(cells, s).len() == s.len(),
        forall|i: int|
            0 <= i < s.len() ==> spec_rewrite_children(cells, s)[i] == spec_rewrite(cells, s[i]),
    decreases s,
{
    if s.len() > 0 {
        lemma_rewrite_children(cells, s.drop_last());
        assert forall|i: int|
            0 <= i < s.len() implies spec_rewrite_children(cells, s)[i] == spec_rewrite(
            cells,
            s[i],
        ) by {
            if i < s.len() - 1 {
                assert(s.drop_last()[i] == s[i]);
            }
        }
    }
}

/// Two cell states with the same classes and the same representatives' cells
/// rewrite every fitting term alike.
pub proof fn lemma_rewrite_same(a: Seq<CellV>, b: Seq<CellV>, t: TermV)
    requires
        cells_wf(a),
        a.len() == b.len(),
        forall|j: int| rep_of(b, j) == rep_of(a, j),
        forall|j: int| 0 <= j < a.len() && is_rep(a, j) ==> b[j] == a[j],
        term_wf(t),
        max_var(t) <= a.len(),
    ensures
        spec_rewrite(b, t) == spec_rewrite(a, t),
    decreases t,
{
    match t {
        TermV::Var { value: v } => {
            lemma_rep_of(a, v - 1);
        },
        TermV::Val { value } => {
            lemma_rewrite_same_children(a, b, value.children);
        },
    }
}

proof fn lemma_rewrite_same_children(a: Seq<CellV>, b: Seq<CellV>, s: Seq<TermV>)
    requires
        cells_wf(a),
        a.len() == b.len(),
        forall|j: int| rep_of(b, j) == rep_of(a, j),
        forall|j: int| 0 <= j < a.len() && is_rep(a, j) ==> b[j] == a[j],
        forall|i: int| 0 <= i < s.len() ==> term_wf(#[trigger] s[i]),
        max_var_children(s) <= a.len(),
    ensures
        spec_rewrite_children(b, s) == spec_rewrite_children(a, s),
    decreases s,
{
    if s.len() > 0 {
        assert forall|i: int| 0 <= i < s.drop_last().len() implies term_wf(
            #[trigger] s.drop_last()[i],
        ) by {
            assert(s.drop_last()[i] == s[i]);
        }
        lemma_rewrite_same_children(a, b, s.drop_last());
        lemma_max_var_children_bound(s, s.len() - 1);
        lemma_rewrite_same(a, b, s.last());
    }
}

/// A union-find forest over variable indices, one cell per variable (the
/// one-based variable `k` of a term occupies the 0-based cell `k - 1`).
/// Created fresh per unification attempt and mutated in place.
#[derive(Debug)]
pub struct Substitution {
    indices: Vec<Cell>,
}

impl View for Substitution {
    type V = Seq<CellV>;

    closed spec fn view(&self) -> Seq<CellV> {
        Seq::new(self.indices@.len(), |i: int| cell_view(self.indices@[i]))
    }
}

impl Substitution {
    pub open spec fn wf(self) -> bool {
        cells_wf(self@)
    }

    /// Creates a substitution of `num_vars` fresh, unconstrained variables,
    /// each cell initialized as a self-link.
    pub fn new(num_vars: usize) -> (r: Self)
        ensures
            r.wf(),
            r@.len() == num_vars,
            forall|i: int| 0 <= i < num_vars ==> r@[i] == CellV::Link(i),
    {
        let mut indices: Vec<Cell> = Vec::new();
        let mut i: usize = 0;
        while i < num_vars
            invariant
                i <= num_vars,
                indices@.len() == i,
                forall|j: int| 0 <= j < i ==> cell_view(indices@[j]) == CellV::Link(j),
            decreases num_vars - i,
        {
            indices.push(Cell::Link(i));
            i = i + 1;
        }
        Substitution { indices }
    }

    /// Path-compression search for the representative of variable `n`: follows
    /// links until a binding or self-link, then relinks every visited cell
    /// directly to the representative found.
    fn find_parent(&mut self, n: usize) -> (r: usize)
        requires
            old(self).wf(),
            n < old(self)@.len(),
        ensures
            final(self).wf(),
            final(self)@.len() == old(self)@.len(),
            r < final(self)@.len(),
            r as int == rep_of(old(self)@, n as int),
            is_rep(old(self)@, r as int),
            is_rep(final(self)@, r as int),
            forall|j: int| rep_of(final(self)@, j) == rep_of(old(self)@, j),
            forall|j: int|
                0 <= j < final(self)@.len() && is_rep(old(self)@, j) ==> final(self)@[j] == old(self)@[j],
            forall|j: int|
                0 <= j < final(self)@.len() ==> final(self)@[j] == old(self)@[j] || final(self)@[j] == CellV::Link(
                    r as int,
                ),
            !is_rep(old(self)@, n as int) ==> final(self)@[n as int] == CellV::Link(r as int),
            forall|j: int|
                0 <= j < final(self)@.len() && final(self)@[j] != old(self)@[j] ==> (!is_rep(
                    old(self)@,
                    j,
                ) && rep_of(old(self)@, j) == rep_of(old(self)@, n as int) && final(self)@[j]
                    == CellV::Link(r as int)),
    {
        let ghost cells0 = self@;
        let mut r: usize = n;
        let mut stale: Vec<usize> = Vec::new();
        let mut done = false;
        while !done
            invariant
                self@ == cells0,
                self@.len() == self.indices@.len(),
                cells_wf(cells0),
                n < cells0.len(),
                r < cells0.len(),
                rep_of(cells0, r as int) == rep_of(cells0, n as int),
                done ==> is_rep(cells0, r as int),
                forall|k: int|
                    0 <= k < stale@.len() ==> (#[trigger] stale@[k]) < cells0.len() && !is_rep(
                        cells0,
                        stale@[k] as int,
                    ) && rep_of(cells0, stale@[k] as int) == rep_of(cells0, n as int),
                stale@.len() == 0 ==> r == n,
                stale@.len() > 0 ==> stale@[0] == n,
            decreases r, (if done { 0int } else { 1int }),
        {
            let mut next: usize = r;
            match &self.indices[r] {
                Cell::Link(i) => {
                    next = *i;
                },
                Cell::Bound(_) => {},
            }
            if next != r {
                stale.push(r);
                r = next;
            } else {
                done = true;
            }
        }
        let p = r;
        proof {
            lemma_rep_of(cells0, p as int);
        }
        let mut k: usize = 0;
        while k < stale.len()
            invariant
                self@.len() == cells0.len(),
                self@.len() == self.indices@.len(),
                cells_wf(cells0),
                cells_wf(self@),
                p < cells0.len(),
                p as int == rep_of(cells0, n as int),
                is_rep(cells0, p as int),
                forall|j: int| rep_of(self@, j) == rep_of(cells0, j),
                forall|j: int|
                    0 <= j < cells0.len() && is_rep(cells0, j) ==> self@[j] == cells0[j],
                forall|j: int|
                    0 <= j < cells0.len() ==> self@[j] == cells0[j] || self@[j] == CellV::Link(
                        p as int,
                    ),
                k <= stale@.len(),
                forall|kk: int|
                    0 <= kk < stale@.len() ==> (#[trigger] stale@[kk]) < cells0.len() && !is_rep(
                        cells0,
                        stale@[kk] as int,
                    ) && rep_of(cells0, stale@[kk] as int) == p,
                stale@.len() == 0 ==> is_rep(cells0, n as int),
                k > 0 && stale@[0] == n ==> self@[n as int] == CellV::Link(p as int),
                forall|j: int|
                    0 <= j < cells0.len() && self@[j] != cells0[j] ==> (!is_rep(cells0, j)
                        && rep_of(cells0, j) == p && self@[j] == CellV::Link(p as int)),
            decreases stale@.len() - k,
        {
            let s = stale[k];
            let ghost pre = self@;
            proof {
                lemma_rep_of(cells0, s as int);
                lemma_relink(pre, s as int, p as int);
            }
            self.indices[s] = Cell::Link(p);
            proof {
                assert(self@ =~= pre.update(s as int, CellV::Link(p as int)));
            }
            k = k + 1;
        }
        proof {
            assert(is_rep(self@, p as int)) by {
                assert(self@[p as int] == cells0[p as int]);
            }
            if !is_rep(cells0, n as int) {
                assert(stale@.len() > 0 && stale@[0] == n);
                assert(self@[n as int] == CellV::Link(p as int));
            }
        }
        p
    }

    /// Follows links from variable `n` to its class representative, with path
    /// compression, and returns the representative's cell: its binding, or a
    /// self-link carrying the representative's (0-based) index.
    pub fn find(&mut self, n: usize) -> (r: Cell)
        requires
            old(self).wf(),
            n < old(self)@.len(),
        ensures
            final(self).wf(),
            final(self)@.len() == old(self)@.len(),
            forall|j: int| rep_of(final(self)@, j) == rep_of(old(self)@, j),
            forall|j: int|
                0 <= j < final(self)@.len() && is_rep(old(self)@, j) ==> final(self)@[j] == old(self)@[j],
            forall|j: int| 0 <= j < final(self)@.len() ==> final(self)@[j] == old(self)@[j] || final(self)@[j] is Link,
            r@ == old(self)@[rep_of(old(self)@, n as int)],
            r@ matches CellV::Link(x) ==> 0 <= x < final(self)@.len() && x == rep_of(old(self)@, n as int)
                && final(self)@[x] == CellV::Link(x),
    {
        let p = self.find_parent(n);
        match &self.indices[p] {
            Cell::Bound(node) => Cell::Bound(copy_node(node)),
            Cell::Link(i) => Cell::Link(*i),
        }
    }

    /// Binds the class of variable `n` to (a copy of) the value node `term`.
    /// Any binding the class previously held is silently replaced.
    pub fn binding_set(&mut self, n: usize, term: &TermNode)
        requires
            old(self).wf(),
            n < old(self)@.len(),
        ensures
            final(self).wf(),
            final(self)@.len() == old(self)@.len(),
            forall|j: int| rep_of(final(self)@, j) == rep_of(old(self)@, j),
            final(self)@[rep_of(old(self)@, n as int)] == CellV::Bound(term@),
            forall|j: int|
                0 <= j < final(self)@.len() && j != rep_of(old(self)@, n as int) && is_rep(
                    old(self)@,
                    j,
                ) ==> final(self)@[j] == old(self)@[j],
            forall|j: int|
                0 <= j < final(self)@.len() && j != rep_of(old(self)@, n as int) && final(self)@[j] is Bound
                    ==> final(self)@[j] == old(self)@[j],
    {
        let p = self.find_parent(n);
        let ghost pre = self@;
        proof {
            lemma_bind(pre, p as int, term@);
        }
        let node = copy_node(term);
        self.indices[p] = Cell::Bound(node);
        proof {
            assert(self@ =~= pre.update(p as int, CellV::Bound(term@)));
        }
    }

    /// Merges the classes of `x1` and `x2`: the representative with the larger
    /// index is relinked to the other. A binding held by the relinked
    /// representative is discarded; in particular, with both classes bound one
    /// side's binding is lost, and merging a bound class with itself unbinds
    /// it. The unifier only merges classes whose representatives are unbound.
    pub fn binding_eq(&mut self, x1: usize, x2: usize)
        requires
            old(self).wf(),
            x1 < old(self)@.len(),
            x2 < old(self)@.len(),
        ensures
            final(self).wf(),
            final(self)@.len() == old(self)@.len(),
            forall|j: int|
                rep_of(final(self)@, j) == if rep_of(old(self)@, j) == rep_of(old(self)@, x1 as int)
                    || rep_of(old(self)@, j) == rep_of(old(self)@, x2 as int) {
                    int_min(rep_of(old(self)@, x1 as int), rep_of(old(self)@, x2 as int))
                } else {
                    rep_of(old(self)@, j)
                },
            rep_of(final(self)@, x1 as int) == rep_of(final(self)@, x2 as int),
            forall|j: int|
                0 <= j < final(self)@.len() && is_rep(old(self)@, j) && j != rep_of(
                    old(self)@,
                    x1 as int,
                ) && j != rep_of(old(self)@, x2 as int) ==> final(self)@[j] == old(self)@[j],
            rep_of(old(self)@, x1 as int) != rep_of(old(self)@, x2 as int) ==> final(self)@[int_min(
                rep_of(old(self)@, x1 as int),
                rep_of(old(self)@, x2 as int),
            )] == old(self)@[int_min(rep_of(old(self)@, x1 as int), rep_of(old(self)@, x2 as int))],
            final(self)@[if rep_of(old(self)@, x1 as int) <= rep_of(old(self)@, x2 as int) {
                rep_of(old(self)@, x2 as int)
            } else {
                rep_of(old(self)@, x1 as int)
            }] == CellV::Link(int_min(rep_of(old(self)@, x1 as int), rep_of(old(self)@, x2 as int))),
            forall|j: int|
                0 <= j < final(self)@.len() && final(self)@[j] is Bound ==> final(self)@[j]
                    == old(self)@[j],
    {
        let p1 = self.find_parent(x1);
        let p2 = self.find_parent(x2);
        let ghost pre = self@;
        if p1 <= p2 {
            proof {
                lemma_union(pre, p2 as int, p1 as int);
            }
            self.indices[p2] = Cell::Link(p1);
            proof {
                assert(self@ =~= pre.update(p2 as int, CellV::Link(p1 as int)));
            }
        } else {
            proof {
                lemma_union(pre, p1 as int, p2 as int);
            }
            self.indices[p1] = Cell::Link(p2);
            proof {
                assert(self@ =~= pre.update(p1 as int, CellV::Link(p2 as int)));
            }
        }
    }

    /// Applies the substitution to `t`, allocating a fresh term; follows
    /// `spec_rewrite`: each variable occurrence is resolved one step, to its
    /// class's stored value node verbatim or to its class representative's
    /// one-based index when the class is unbound.
    pub fn rewrite_term(&mut self, t: &UnifTerm) -> (r: UnifTerm)
        requires
            old(self).wf(),
            term_wf(t@),
            max_var(t@) <= old(self)@.len(),
        ensures
            final(self).wf(),
            final(self)@.len() == old(self)@.len(),
            forall|j: int| rep_of(final(self)@, j) == rep_of(old(self)@, j),
            forall|j: int|
                0 <= j < final(self)@.len() && is_rep(old(self)@, j) ==> final(self)@[j] == old(
                    self,
                )@[j],
            r@ == spec_rewrite(old(self)@, t@),
        decreases *t,
    {
        match t {
            UnifTerm::Var { value } => {
                proof {
                    lemma_rep_of(self@, *value as int - 1);
                }
                let c = self.find(*value - 1);
                match c {
                    Cell::Bound(node) => UnifTerm::Val { value: node },
                    Cell::Link(x) => UnifTerm::Var { value: x + 1 },
                }
            },
            UnifTerm::Val { value } => UnifTerm::Val { value: self.rewrite_node(value) },
        }
    }

    #[verifier::loop_isolation(false)]
    fn rewrite_node(&mut self, n: &TermNode) -> (r: TermNode)
        requires
            old(self).wf(),
            node_wf(n@),
            max_var_children(n@.children) <= old(self)@.len(),
        ensures
            final(self).wf(),
            final(self)@.len() == old(self)@.len(),
            forall|j: int| rep_of(final(self)@, j) == rep_of(old(self)@, j),
            forall|j: int|
                0 <= j < final(self)@.len() && is_rep(old(self)@, j) ==> final(self)@[j] == old(
                    self,
                )@[j],
            r@ == (TermNodeV {
                data: n@.data,
                children: spec_rewrite_children(old(self)@, n@.children),
            }),
        decreases *n,
    {
        let ghost cells0 = self@;
        proof {
            lemma_children_view(n.children@);
        }
        let mut children: Vec<Box<UnifTerm>> = Vec::new();
        let mut i: usize = 0;
        while i < n.children.len()
            invariant
                i <= n.children@.len(),
                children@.len() == i,
                self.wf(),
                self@.len() == cells0.len(),
                forall|j: int| rep_of(self@, j) == rep_of(cells0, j),
                forall|j: int| 0 <= j < cells0.len() && is_rep(cells0, j) ==> self@[j] == cells0[j],
                forall|j: int|
                    0 <= j < i ==> term_view(*#[trigger] children@[j]) == spec_rewrite(
                        cells0,
                        n@.children[j],
                    ),
            decreases n.children@.len() - i,
        {
            proof {
                lemma_max_var_children_bound(n@.children, i as int);
            }
            let ghost pre = self@;
            let c = self.rewrite_term(&n.children[i]);
            proof {
                lemma_rewrite_same(cells0, pre, n@.children[i as int]);
            }
            children.push(Box::new(c));
            i = i + 1;
        }
        proof {
            lemma_children_view(children@);
            lemma_rewrite_children(cells0, n@.children);
            assert(children_view(children@) =~= spec_rewrite_children(cells0, n@.children));
        }
        TermNode { data: n.data, children }
    }

    /// Resolves a term through the substitution: a value term resolves to (a
    /// copy of) its own node, a variable to its class representative's cell.
    pub fn lookup(&mut self, u: &UnifTerm) -> (r: Cell)
        requires
            old(self).wf(),
            u@ matches TermV::Var { value } ==> 1 <= value <= old(self)@.len(),
        ensures
            final(self).wf(),
            final(self)@.len() == old(self)@.len(),
            forall|j: int| rep_of(final(self)@, j) == rep_of(old(self)@, j),
            forall|j: int|
                0 <= j < final(self)@.len() && is_rep(old(self)@, j) ==> final(self)@[j] == old(self)@[j],
            forall|j: int| 0 <= j < final(self)@.len() ==> final(self)@[j] == old(self)@[j] || final(self)@[j] is Link,
            r@ == spec_resolve(old(self)@, u@),
            r@ matches CellV::Link(x) ==> 0 <= x < final(self)@.len() && final(self)@[x] == CellV::Link(x),
            u@ is Val ==> *final(self) == *old(self),
    {
        match u {
            UnifTerm::Val { value } => Cell::Bound(copy_node(value)),
            UnifTerm::Var { value } => self.find(*value - 1),
        }
    }
}

} // verus!
