//! The ACTION/GOTO table of a canonical collection, with conflicts kept as trees.
use vstd::prelude::*;
use vstd::string::*;

use crate::grammar::{toks, Grammar};
use crate::item::{expected_of, Family, Item};
use crate::token::{NonTerminal, Terminal, Token, TokenModel};

verus! {

/// One ACTION cell.
#[derive(Debug)]
pub enum ActionCell {
    /// Shift, and go to this state.
    Shift(usize),
    /// Reduce by this production.
    Reduce(usize),
    /// Two or more outcomes, in the order they were written.
    Conflict(Box<ActionCell>, Box<ActionCell>),
    Accept,
    Empty,
}

/// The outcomes a cell holds, left to right; a cell that is no conflict is its own only leaf.
pub open spec fn leaves(c: ActionCell) -> Seq<ActionCell>
    decreases c,
{
    match c {
        ActionCell::Conflict(a, b) => leaves(*a) + leaves(*b),
        _ => seq![c],
    }
}

/// The cell that writing `outs` in order into an empty cell makes: the first outcome alone,
/// then each later one as `Conflict(what was there, new)`.
pub open spec fn build_cell(outs: Seq<ActionCell>) -> ActionCell
    decreases outs.len(),
{
    if outs.len() == 0 {
        ActionCell::Empty
    } else if outs.len() == 1 {
        outs[0]
    } else {
        ActionCell::Conflict(Box::new(build_cell(outs.drop_last())), Box::new(outs.last()))
    }
}

/// What a cell written with `outs`, in that order, holds as leaves.
pub open spec fn cell_leaves(outs: Seq<ActionCell>) -> Seq<ActionCell> {
    if outs.len() == 0 {
        seq![ActionCell::Empty]
    } else {
        outs
    }
}

impl Clone for ActionCell {
    fn clone(&self) -> (r: Self)
        ensures
            r == *self,
        decreases self,
    {
        match self {
            ActionCell::Shift(s) => ActionCell::Shift(*s),
            ActionCell::Reduce(p) => ActionCell::Reduce(*p),
            ActionCell::Conflict(a, b) => {
                let a2 = (**a).clone();
                let b2 = (**b).clone();
                ActionCell::Conflict(Box::new(a2), Box::new(b2))
            },
            ActionCell::Accept => ActionCell::Accept,
            ActionCell::Empty => ActionCell::Empty,
        }
    }
}

impl PartialEq for ActionCell {
    fn eq(&self, other: &ActionCell) -> (r: bool)
        decreases self,
    {
        match (self, other) {
            (ActionCell::Shift(a), ActionCell::Shift(b)) => *a == *b,
            (ActionCell::Reduce(a), ActionCell::Reduce(b)) => *a == *b,
            (ActionCell::Conflict(a1, b1), ActionCell::Conflict(a2, b2)) => (**a1).eq(&**a2) && (**b1).eq(&**b2),
            (ActionCell::Accept, ActionCell::Accept) => true,
            (ActionCell::Empty, ActionCell::Empty) => true,
            _ => false,
        }
    }
}

impl vstd::std_specs::cmp::PartialEqSpecImpl for ActionCell {
    open spec fn obeys_eq_spec() -> bool {
        true
    }

    open spec fn eq_spec(&self, other: &ActionCell) -> bool {
        *self == *other
    }
}

impl Eq for ActionCell {

}

/// Leaves of a conflict number at least two; any other cell is one leaf.
pub proof fn lemma_leaves_len(c: ActionCell)
    ensures
        c is Conflict <==> leaves(c).len() > 1,
        leaves(c).len() >= 1,
    decreases c,
{
    if let ActionCell::Conflict(a, b) = c {
        lemma_leaves_len(*a);
        lemma_leaves_len(*b);
    }
}

/// A cell whose only leaf is `Empty` is `Empty`.
pub proof fn lemma_only_empty(c: ActionCell)
    ensures
        leaves(c) == seq![ActionCell::Empty] ==> c is Empty,
{
    lemma_leaves_len(c);
    if !(c is Conflict) {
        assert(leaves(c)[0] == c);
    }
}

/// Writing a non-empty leaf `n` into a cell that holds `outs` makes it hold `outs` and `n`.
pub proof fn lemma_write(old_cell: ActionCell, new_cell: ActionCell, n: ActionCell, outs: Seq<ActionCell>)
    requires
        leaves(old_cell) == cell_leaves(outs),
        old_cell == build_cell(outs),
        forall|i: int| 0 <= i < outs.len() ==> !(#[trigger] outs[i] is Empty),
        !(n is Empty),
        !(n is Conflict),
        old_cell is Empty ==> new_cell == n,
        !(old_cell is Empty) ==> new_cell == ActionCell::Conflict(Box::new(old_cell), Box::new(n)),
    ensures
        leaves(new_cell) == cell_leaves(outs.push(n)),
        new_cell == build_cell(outs.push(n)),
{
    lemma_only_empty(old_cell);
    if old_cell is Empty {
        if outs.len() > 0 {
            assert(!(outs[0] is Empty));
            assert(leaves(old_cell) == seq![old_cell]);
        }
        assert(outs.push(n) =~= seq![n]);
        assert(outs.len() == 0);
    } else {
        if outs.len() == 0 {
            assert(leaves(old_cell) == seq![ActionCell::Empty]);
        }
        assert(leaves(*Box::new(n)) == seq![n]);
        assert(leaves(old_cell) + seq![n] =~= outs.push(n));
        assert(outs.push(n).drop_last() =~= outs);
    }
}

/// No outcome list holds `Empty`.
pub proof fn lemma_outcomes_leaves(g: Grammar, row: Seq<(usize, usize)>, items: Seq<Item>, t: nat)
    ensures
        forall|i: int| 0 <= i < shift_cells(row, t).len() ==> !(#[trigger] shift_cells(row, t)[i] is Empty),
        forall|i: int| 0 <= i < reduce_cells(g, items, t).len() ==> !(#[trigger] reduce_cells(g, items, t)[i] is Empty),
        forall|i: int| 0 <= i < (shift_cells(row, t) + reduce_cells(g, items, t)).len() ==> !(#[trigger] (shift_cells(row, t) + reduce_cells(g, items, t))[i] is Empty),
    decreases row.len() + items.len(),
{
    if row.len() > 0 {
        lemma_outcomes_leaves(g, row.drop_last(), items, t);
    }
    if items.len() > 0 {
        lemma_outcomes_leaves(g, row, items.drop_last(), t);
    }
    let a = shift_cells(row, t);
    let b = reduce_cells(g, items, t);
    assert forall|i: int| 0 <= i < (a + b).len() implies !(#[trigger] (a + b)[i] is Empty) by {
        if i < a.len() {
            assert((a + b)[i] == a[i]);
        } else {
            assert((a + b)[i] == b[i - a.len()]);
        }
    }
}

impl ActionCell {
    pub fn is_empty(&self) -> (r: bool)
        ensures
            r == (*self is Empty),
    {
        matches!(self, ActionCell::Empty)
    }

    pub fn is_conflict(&self) -> (r: bool)
        ensures
            r == (*self is Conflict),
    {
        matches!(self, ActionCell::Conflict(_, _))
    }

    /// Writes `cell` into this cell: an empty cell takes it, an empty `cell` changes nothing,
    /// and otherwise the cell becomes the conflict of what it held and `cell`. Returns whether
    /// a conflict was made.
    pub fn update(&mut self, cell: ActionCell) -> (r: bool)
        ensures
            *old(self) is Empty ==> *final(self) == cell && !r,
            !(*old(self) is Empty) && cell is Empty ==> *final(self) == *old(self) && !r,
            !(*old(self) is Empty) && !(cell is Empty) ==> *final(self) == ActionCell::Conflict(
                Box::new(*old(self)),
                Box::new(cell),
            ) && r,
    {
        let mut this = ActionCell::Empty;
        std::mem::swap(&mut this, self);
        if this.is_empty() {
            *self = cell;
            false
        } else if cell.is_empty() {
            *self = this;
            false
        } else {
            *self = ActionCell::Conflict(Box::new(this), Box::new(cell));
            true
        }
    }

    /// The leaves, left to right.
    pub fn flatten(&self) -> (r: Vec<ActionCell>)
        ensures
            r@ == leaves(*self),
        decreases self,
    {
        match self {
            ActionCell::Conflict(a, b) => {
                let mut l = (**a).flatten();
                let mut rt = (**b).flatten();
                l.append(&mut rt);
                l
            },
            _ => {
                let mut v: Vec<ActionCell> = Vec::new();
                v.push(self.clone());
                assert(v@ =~= seq![*self]);
                v
            },
        }
    }
}

/// The outcome of a reducible item of production `p` on terminal `t`.
pub open spec fn outcome(g: Grammar, p: int, t: nat) -> ActionCell {
    if p == 0 && t == g.eof_id() {
        ActionCell::Accept
    } else {
        ActionCell::Reduce(p as usize)
    }
}

/// The shifts on terminal `t` that a row of edges writes, in order.
pub open spec fn shift_cells(row: Seq<(usize, usize)>, t: nat) -> Seq<ActionCell>
    decreases row.len(),
{
    if row.len() == 0 {
        Seq::empty()
    } else if row.last().0 == t {
        shift_cells(row.drop_last(), t).push(ActionCell::Shift(row.last().1))
    } else {
        shift_cells(row.drop_last(), t)
    }
}

/// The reductions on terminal `t` that a list of items writes, in order.
pub open spec fn reduce_cells(g: Grammar, items: Seq<Item>, t: nat) -> Seq<ActionCell>
    decreases items.len(),
{
    if items.len() == 0 {
        Seq::empty()
    } else if expected_of(g, items.last().prod as int, items.last().dot as int) is None
        && items.last().look@[t as int] {
        reduce_cells(g, items.drop_last(), t).push(outcome(g, items.last().prod as int, t))
    } else {
        reduce_cells(g, items.drop_last(), t)
    }
}

/// Every outcome written to ACTION[s][t]: the shift of the edge on `t`, then the reductions
/// of the items in order.
pub open spec fn outcomes(g: Grammar, f: Family, s: int, t: nat) -> Seq<ActionCell> {
    shift_cells(f.spec_edges()[s], t) + reduce_cells(g, f.spec_states()[s].spec_items(), t)
}

/// The target of the last edge on `x` in a row of edges.
pub open spec fn goto_cell(row: Seq<(usize, usize)>, x: nat) -> Option<usize>
    decreases row.len(),
{
    if row.len() == 0 {
        None
    } else if row.last().0 == x {
        Some(row.last().1)
    } else {
        goto_cell(row.drop_last(), x)
    }
}

/// The ACTION and GOTO tables of a canonical collection.
#[derive(Debug)]
pub struct Table {
    action: Vec<Vec<ActionCell>>,
    goto: Vec<Vec<Option<usize>>>,
    terms: Vec<Terminal>,
    non_terms: Vec<NonTerminal>,
    conflict: bool,
}

impl Table {
    /// One GOTO row per ACTION row.
    #[verifier::type_invariant]
    spec fn rows_agree(self) -> bool {
        &&& self.action@.len() == self.goto@.len()
        &&& forall|x: int| 0 <= x < self.action@.len() ==> (#[trigger] self.action@[x])@.len() == self.terms@.len()
        &&& forall|x: int| 0 <= x < self.goto@.len() ==> (#[trigger] self.goto@[x])@.len() == self.non_terms@.len()
    }

    pub closed spec fn spec_action(&self) -> Seq<Seq<ActionCell>> {
        self.action@.map_values(|r: Vec<ActionCell>| r@)
    }

    pub closed spec fn spec_goto(&self) -> Seq<Seq<Option<usize>>> {
        self.goto@.map_values(|r: Vec<Option<usize>>| r@)
    }

    pub closed spec fn spec_terms(&self) -> Seq<Seq<char>> {
        self.terms@.map_values(|t: Terminal| t@)
    }

    pub closed spec fn spec_non_terms(&self) -> Seq<Seq<char>> {
        self.non_terms@.map_values(|t: NonTerminal| t@)
    }

    pub closed spec fn spec_conflict(&self) -> bool {
        self.conflict
    }

    /// The table of `f`: one row per state, one ACTION column per terminal and one GOTO
    /// column per non-terminal, in the grammar's token order.
    pub open spec fn is_table_of(&self, g: Grammar, f: Family) -> bool {
        let nt = g.spec_nt();
        let ns = g.spec_ns();
        let rows = f.spec_states().len();
        &&& self.spec_action().len() == rows
        &&& self.spec_goto().len() == rows
        &&& self.spec_terms().len() == nt
        &&& self.spec_non_terms().len() == ns - nt
        &&& forall|t: int| 0 <= t < nt ==> g.spec_tokens()[t] == TokenModel::Term(#[trigger] self.spec_terms()[t])
        &&& forall|a: int| 0 <= a < ns - nt ==> g.spec_tokens()[nt + a] == TokenModel::NonTerm(#[trigger] self.spec_non_terms()[a])
        &&& forall|s: int| 0 <= s < rows ==> (#[trigger] self.spec_action()[s]).len() == nt
        &&& forall|s: int| 0 <= s < rows ==> (#[trigger] self.spec_goto()[s]).len() == ns - nt
        &&& forall|s: int, t: int|
            0 <= s < rows && 0 <= t < nt ==> leaves(#[trigger] self.spec_action()[s][t]) == cell_leaves(outcomes(g, f, s, t as nat))
                && self.spec_action()[s][t] == build_cell(outcomes(g, f, s, t as nat))
        &&& forall|s: int, a: int|
            0 <= s < rows && 0 <= a < ns - nt ==> #[trigger] self.spec_goto()[s][a] == goto_cell(f.spec_edges()[s], (nt + a) as nat)
        &&& self.spec_conflict() == exists|s: int, t: int|
            0 <= s < rows && 0 <= t < nt && (#[trigger] outcomes(g, f, s, t as nat)).len() > 1
    }

    /// Builds the ACTION and GOTO tables of `f`: each edge on a terminal writes a shift, each
    /// edge on a non-terminal a GOTO entry, each reducible item a reduction on each of its
    /// lookaheads (accept for production 0 on end of input). A second write to a cell makes
    /// a conflict, and the table records whether any cell has one.
    pub fn build_from(f: &Family, g: &Grammar) -> (r: Table)
        requires
            g.wf(),
            f.wf(*g),
        ensures
            r.is_table_of(*g, *f),
            !r.spec_conflict() ==> forall|s: int, t: int|
                0 <= s < f.spec_states().len() && 0 <= t < g.spec_nt() ==> (#[trigger] outcomes(*g, *f, s, t as nat)).len() <= 1,
    {
        let nt = g.n_terms();
        let tokens = g.tokens();
        let ns = tokens.len();
        let mut terms: Vec<Terminal> = Vec::new();
        let mut non_terms: Vec<NonTerminal> = Vec::new();
        let mut i: usize = 0;
        while i < ns
            invariant
                g.wf(),
                nt == g.spec_nt(),
                ns == g.spec_ns(),
                toks(tokens@) == g.spec_tokens(),
                i <= ns,
                i <= nt ==> terms@.len() == i && non_terms@.len() == 0,
                i > nt ==> terms@.len() == nt && non_terms@.len() == i - nt,
                forall|t: int| 0 <= t < terms@.len() ==> g.spec_tokens()[t] == TokenModel::Term(#[trigger] terms@[t]@),
                forall|a: int| 0 <= a < non_terms@.len() ==> g.spec_tokens()[nt + a] == TokenModel::NonTerm(#[trigger] non_terms@[a]@),
            decreases ns - i,
        {
            assert(g.spec_tokens()[i as int] == tokens@[i as int]@);
            match &tokens[i] {
                Token::Terminal(t) => {
                    assert(i < nt);
                    terms.push(t.clone());
                },
                Token::NonTerminal(n) => {
                    assert(i >= nt);
                    non_terms.push(n.clone());
                },
            }
            i = i + 1;
        }
        let rows = f.len();
        let states = f.item_sets();
        let mut action: Vec<Vec<ActionCell>> = Vec::new();
        let mut goto: Vec<Vec<Option<usize>>> = Vec::new();
        let mut conflict = false;
        let mut s: usize = 0;
        while s < rows
            invariant
                g.wf(),
                f.wf(*g),
                nt == g.spec_nt(),
                ns == g.spec_ns(),
                rows == f.spec_states().len(),
                states@ == f.spec_states(),
                s <= rows,
                action@.len() == s,
                goto@.len() == s,
                forall|x: int| 0 <= x < s ==> (#[trigger] action@[x])@.len() == nt,
                forall|x: int| 0 <= x < s ==> (#[trigger] goto@[x])@.len() == ns - nt,
                forall|x: int, t: int|
                    0 <= x < s && 0 <= t < nt ==> leaves(#[trigger] action@[x]@[t]) == cell_leaves(outcomes(*g, *f, x, t as nat)) && action@[x]@[t] == build_cell(outcomes(*g, *f, x, t as nat)),
                forall|x: int, a: int|
                    0 <= x < s && 0 <= a < ns - nt ==> #[trigger] goto@[x]@[a] == goto_cell(f.spec_edges()[x], (nt + a) as nat),
                conflict == exists|x: int, t: int| 0 <= x < s && 0 <= t < nt && (#[trigger] outcomes(*g, *f, x, t as nat)).len() > 1,
            decreases rows - s,
        {
            let (cells, gotos) = Table::build_row(f, g, s);
            let mut t: usize = 0;
            let mut row_conflict = false;
            while t < nt
                invariant
                    cells@.len() == nt,
                    t <= nt,
                    row_conflict == exists|u: int| 0 <= u < t && (#[trigger] cells@[u]) is Conflict,
                decreases nt - t,
            {
                if cells[t].is_conflict() {
                    row_conflict = true;
                }
                t = t + 1;
            }
            proof {
                assert forall|u: int| 0 <= u < nt implies ((#[trigger] cells@[u]) is Conflict <==> outcomes(*g, *f, s as int, u as nat).len() > 1) by {
                    lemma_leaves_len(cells@[u]);
                }
            }
            conflict = conflict || row_conflict;
            let ghost a0 = action@;
            let ghost g0 = goto@;
            action.push(cells);
            goto.push(gotos);
            proof {
                assert forall|x: int, t: int|
                    0 <= x < s + 1 && 0 <= t < nt implies leaves(#[trigger] action@[x]@[t]) == cell_leaves(outcomes(*g, *f, x, t as nat)) && action@[x]@[t] == build_cell(outcomes(*g, *f, x, t as nat)) by {
                    if x < s {
                        assert(action@[x] == a0[x]);
                    }
                }
                assert forall|x: int, a: int|
                    0 <= x < s + 1 && 0 <= a < ns - nt implies #[trigger] goto@[x]@[a] == goto_cell(f.spec_edges()[x], (nt + a) as nat) by {
                    if x < s {
                        assert(goto@[x] == g0[x]);
                    }
                }
                assert forall|x: int| 0 <= x < s + 1 implies (#[trigger] action@[x])@.len() == nt by {
                    if x < s {
                        assert(action@[x] == a0[x]);
                    }
                }
                assert forall|x: int| 0 <= x < s + 1 implies (#[trigger] goto@[x])@.len() == ns - nt by {
                    if x < s {
                        assert(goto@[x] == g0[x]);
                    }
                }
                if conflict {
                    if !row_conflict {
                        let (x, t) = choose|x: int, t: int| 0 <= x < s && 0 <= t < nt && (#[trigger] outcomes(*g, *f, x, t as nat)).len() > 1;
                    } else {
                        let u = choose|u: int| 0 <= u < nt && (#[trigger] cells@[u]) is Conflict;
                        assert(outcomes(*g, *f, s as int, u as nat).len() > 1);
                    }
                }
                if exists|x: int, t: int| 0 <= x < s + 1 && 0 <= t < nt && (#[trigger] outcomes(*g, *f, x, t as nat)).len() > 1 {
                    let (x, t) = choose|x: int, t: int| 0 <= x < s + 1 && 0 <= t < nt && (#[trigger] outcomes(*g, *f, x, t as nat)).len() > 1;
                    if x == s {
                        assert(cells@[t] is Conflict);
                    }
                }
            }
            s = s + 1;
        }
        proof {
            assert forall|x: int| 0 <= x < action@.len() implies (#[trigger] action@[x])@.len() == terms@.len() by {}
        }
        let r = Table { action, goto, terms, non_terms, conflict };
        proof {
            assert(r.spec_action().len() == rows);
            assert forall|x: int| 0 <= x < rows implies (#[trigger] r.spec_action()[x]).len() == nt by {
                assert(r.spec_action()[x] == action@[x]@);
            }
            assert forall|x: int| 0 <= x < rows implies (#[trigger] r.spec_goto()[x]).len() == ns - nt by {
                assert(r.spec_goto()[x] == goto@[x]@);
            }
            assert forall|x: int, t: int|
                0 <= x < rows && 0 <= t < nt implies leaves(#[trigger] r.spec_action()[x][t]) == cell_leaves(outcomes(*g, *f, x, t as nat))
                    && r.spec_action()[x][t] == build_cell(outcomes(*g, *f, x, t as nat)) by {
                assert(r.spec_action()[x] == action@[x]@);
            }
            assert forall|x: int, a: int|
                0 <= x < rows && 0 <= a < ns - nt implies #[trigger] r.spec_goto()[x][a] == goto_cell(f.spec_edges()[x], (nt + a) as nat) by {
                assert(r.spec_goto()[x] == goto@[x]@);
            }
            assert forall|t: int| 0 <= t < nt implies g.spec_tokens()[t] == TokenModel::Term(#[trigger] r.spec_terms()[t]) by {
                assert(r.spec_terms()[t] == terms@[t]@);
            }
            assert forall|a: int| 0 <= a < ns - nt implies g.spec_tokens()[nt + a] == TokenModel::NonTerm(#[trigger] r.spec_non_terms()[a]) by {
                assert(r.spec_non_terms()[a] == non_terms@[a]@);
            }
        }
        r
    }

    /// The ACTION cells and GOTO entries of state `s`.
    fn build_row(f: &Family, g: &Grammar, s: usize) -> (r: (Vec<ActionCell>, Vec<Option<usize>>))
        requires
            g.wf(),
            f.wf(*g),
            s < f.spec_states().len(),
        ensures
            r.0@.len() == g.spec_nt(),
            r.1@.len() == g.spec_ns() - g.spec_nt(),
            forall|t: int| 0 <= t < g.spec_nt() ==> leaves(#[trigger] r.0@[t]) == cell_leaves(outcomes(*g, *f, s as int, t as nat)) && r.0@[t] == build_cell(outcomes(*g, *f, s as int, t as nat)),
            forall|a: int| 0 <= a < g.spec_ns() - g.spec_nt() ==> #[trigger] r.1@[a] == goto_cell(f.spec_edges()[s as int], (g.spec_nt() + a) as nat),
    {
        let nt = g.n_terms();
        let ns = g.tokens().len();
        let mut cells: Vec<ActionCell> = Vec::new();
        let mut t: usize = 0;
        while t < nt
            invariant
                t <= nt,
                cells@.len() == t,
                forall|u: int| 0 <= u < t ==> #[trigger] cells@[u] == ActionCell::Empty,
            decreases nt - t,
        {
            cells.push(ActionCell::Empty);
            t = t + 1;
        }
        let mut gotos: Vec<Option<usize>> = Vec::new();
        let mut a: usize = nt;
        while a < ns
            invariant
                nt <= a <= ns,
                gotos@.len() == a - nt,
                forall|u: int| 0 <= u < a - nt ==> #[trigger] gotos@[u] == None::<usize>,
            decreases ns - a,
        {
            gotos.push(None);
            a = a + 1;
        }
        let ghost row = f.spec_edges()[s as int];
        let mut e: usize = 0;
        let edges = f.edges_of(s);
        while e < edges.len()
            invariant
                g.wf(),
                f.wf(*g),
                nt == g.spec_nt(),
                ns == g.spec_ns(),
                s < f.spec_states().len(),
                edges@ == row,
                row == f.spec_edges()[s as int],
                e <= row.len(),
                cells@.len() == nt,
                gotos@.len() == ns - nt,
                forall|u: int| 0 <= u < nt ==> leaves(#[trigger] cells@[u]) == cell_leaves(shift_cells(row.subrange(0, e as int), u as nat)) && cells@[u] == build_cell(shift_cells(row.subrange(0, e as int), u as nat)),
                forall|u: int| 0 <= u < ns - nt ==> #[trigger] gotos@[u] == goto_cell(row.subrange(0, e as int), (nt + u) as nat),
            decreases row.len() - e,
        {
            let (x, j) = edges[e];
            proof {
                assert(crate::item::row_ok(*g, f.spec_states(), s as int, row));
                assert(row[e as int].0 < g.spec_ns());
                assert(row.subrange(0, e + 1).drop_last() =~= row.subrange(0, e as int));
                assert(row.subrange(0, e + 1).last() == (x, j));
            }
            if x < nt {
                let ghost c0 = cells@;
                let mut c = cells[x].clone();
                c.update(ActionCell::Shift(j));
                cells.set(x, c);
                proof {
                    lemma_outcomes_leaves(*g, row.subrange(0, e as int), Seq::empty(), x as nat);
                    lemma_write(c0[x as int], c, ActionCell::Shift(j), shift_cells(row.subrange(0, e as int), x as nat));
                    assert forall|u: int| 0 <= u < nt implies leaves(#[trigger] cells@[u]) == cell_leaves(shift_cells(row.subrange(0, e + 1), u as nat)) && cells@[u] == build_cell(shift_cells(row.subrange(0, e + 1), u as nat)) by {
                        if u != x {
                            assert(cells@[u] == c0[u]);
                        } else {
                            assert(shift_cells(row.subrange(0, e + 1), u as nat) == shift_cells(row.subrange(0, e as int), u as nat).push(ActionCell::Shift(j)));
                        }
                    }
                }
            } else {
                gotos.set(x - nt, Some(j));
            }
            e = e + 1;
        }
        assert(row.subrange(0, e as int) =~= row);
        let items = f.item_sets()[s].items();
        let ghost its = items@;
        let mut k: usize = 0;
        while k < items.len()
            invariant
                g.wf(),
                f.wf(*g),
                nt == g.spec_nt(),
                s < f.spec_states().len(),
                its == f.spec_states()[s as int].spec_items(),
                items@ == its,
                row == f.spec_edges()[s as int],
                k <= its.len(),
                cells@.len() == nt,
                forall|u: int| 0 <= u < nt ==> leaves(#[trigger] cells@[u]) == cell_leaves(shift_cells(row, u as nat) + reduce_cells(*g, its.subrange(0, k as int), u as nat)) && cells@[u] == build_cell(shift_cells(row, u as nat) + reduce_cells(*g, its.subrange(0, k as int), u as nat)),
            decreases its.len() - k,
        {
            let it = &items[k];
            proof {
                assert(f.spec_states()[s as int].wf(*g));
                assert(crate::item::item_wf(*g, its[k as int]));
                assert(its.subrange(0, k + 1).drop_last() =~= its.subrange(0, k as int));
                assert(its.subrange(0, k + 1).last() == *it);
            }
            let reducible = it.expected(g).is_none();
            let mut t: usize = 0;
            while t < nt
                invariant
                    g.wf(),
                    nt == g.spec_nt(),
                    t <= nt,
                    cells@.len() == nt,
                    it.look@.len() == nt,
                    k < its.len(),
                    *it == its[k as int],
                    reducible == (expected_of(*g, it.prod as int, it.dot as int) is None),
                    forall|u: int| t <= u < nt ==> leaves(#[trigger] cells@[u]) == cell_leaves(shift_cells(row, u as nat) + reduce_cells(*g, its.subrange(0, k as int), u as nat)) && cells@[u] == build_cell(shift_cells(row, u as nat) + reduce_cells(*g, its.subrange(0, k as int), u as nat)),
                    forall|u: int| 0 <= u < t ==> leaves(#[trigger] cells@[u]) == cell_leaves(shift_cells(row, u as nat) + reduce_cells(*g, its.subrange(0, k + 1), u as nat)) && cells@[u] == build_cell(shift_cells(row, u as nat) + reduce_cells(*g, its.subrange(0, k + 1), u as nat)),
                decreases nt - t,
            {
                proof {
                    assert(its.subrange(0, k + 1).drop_last() =~= its.subrange(0, k as int));
                }
                if reducible && it.look[t] {
                    let out = if it.prod == 0 && t == nt - 1 {
                        ActionCell::Accept
                    } else {
                        ActionCell::Reduce(it.prod)
                    };
                    assert(out == outcome(*g, it.prod as int, t as nat));
                    let ghost c0 = cells@;
                    let mut c = cells[t].clone();
                    c.update(out);
                    cells.set(t, c);
                    proof {
                        let before = shift_cells(row, t as nat) + reduce_cells(*g, its.subrange(0, k as int), t as nat);
                        assert(shift_cells(row, t as nat) + reduce_cells(*g, its.subrange(0, k + 1), t as nat) =~= before.push(out));
                        lemma_outcomes_leaves(*g, row, its.subrange(0, k as int), t as nat);
                        lemma_write(c0[t as int], c, out, before);
                        assert forall|u: int| t + 1 <= u < nt implies leaves(#[trigger] cells@[u]) == cell_leaves(shift_cells(row, u as nat) + reduce_cells(*g, its.subrange(0, k as int), u as nat)) && cells@[u] == build_cell(shift_cells(row, u as nat) + reduce_cells(*g, its.subrange(0, k as int), u as nat)) by {
                            assert(cells@[u] == c0[u]);
                        }
                        assert forall|u: int| 0 <= u < t implies leaves(#[trigger] cells@[u]) == cell_leaves(shift_cells(row, u as nat) + reduce_cells(*g, its.subrange(0, k + 1), u as nat)) && cells@[u] == build_cell(shift_cells(row, u as nat) + reduce_cells(*g, its.subrange(0, k + 1), u as nat)) by {
                            assert(cells@[u] == c0[u]);
                        }
                    }
                } else {
                    proof {
                        assert(reduce_cells(*g, its.subrange(0, k + 1), t as nat) == reduce_cells(*g, its.subrange(0, k as int), t as nat));
                    }
                }
                t = t + 1;
            }
            k = k + 1;
        }
        assert(its.subrange(0, k as int) =~= its);
        (cells, gotos)
    }

    /// The number of rows: one per state.
    pub fn rows(&self) -> (r: usize)
        ensures
            r == self.spec_action().len(),
    {
        self.action.len()
    }

    /// The number of ACTION columns: one per terminal.
    pub fn action_cols(&self) -> (r: usize)
        ensures
            r == self.spec_terms().len(),
    {
        self.terms.len()
    }

    /// The number of GOTO columns: one per non-terminal.
    pub fn goto_cols(&self) -> (r: usize)
        ensures
            r == self.spec_non_terms().len(),
    {
        self.non_terms.len()
    }

    /// Whether some cell holds a conflict.
    pub fn conflict(&self) -> (r: bool)
        ensures
            r == self.spec_conflict(),
    {
        self.conflict
    }

    /// The terminals of the ACTION columns, in order.
    pub fn terms(&self) -> (r: &Vec<Terminal>)
        ensures
            r@.map_values(|t: Terminal| t@) == self.spec_terms(),
    {
        &self.terms
    }

    /// The non-terminals of the GOTO columns, in order.
    pub fn non_terms(&self) -> (r: &Vec<NonTerminal>)
        ensures
            r@.map_values(|t: NonTerminal| t@) == self.spec_non_terms(),
    {
        &self.non_terms
    }

    /// The column of terminal `term`, if it has one.
    pub fn term_col(&self, term: &Terminal) -> (r: Option<usize>)
        ensures
            r matches Some(c) ==> first_index(self.spec_terms(), term@, c as int),
            r is None ==> forall|c: int| 0 <= c < self.spec_terms().len() ==> self.spec_terms()[c] != term@,
    {
        let mut c: usize = 0;
        while c < self.terms.len()
            invariant
                c <= self.terms@.len(),
                forall|k: int| 0 <= k < c ==> self.spec_terms()[k] != term@,
            decreases self.terms@.len() - c,
        {
            assert(self.spec_terms()[c as int] == self.terms@[c as int]@);
            if self.terms[c] == *term {
                return Some(c);
            }
            c = c + 1;
        }
        None
    }

    /// ACTION[state, term]; none when there is no such state or terminal.
    pub fn action(&self, state: usize, term: &Terminal) -> (r: Option<&ActionCell>)
        ensures
            r is Some <==> state < self.spec_action().len() && self.spec_terms().contains(term@),
            r matches Some(cell) ==> *cell == action_model(*self, state as int, term@),
    {
        proof {
            use_type_invariant(self);
        }
        let c = match self.term_col(term) {
            Some(c) => c,
            None => {
                return None;
            },
        };
        if state >= self.action.len() {
            return None;
        }
        let row = &self.action[state];
        assert(row@ == self.spec_action()[state as int]);
        assert(row@.len() == self.terms@.len());
        proof {
            lemma_first_index_unique(self.spec_terms(), term@, c as int);
        }
        Some(&row[c])
    }

    /// The non-empty ACTION cells of a state, with their terminals, in column order; none
    /// when there is no such state.
    pub fn actions(&self, state: usize) -> (r: Option<Vec<(Terminal, ActionCell)>>)
        ensures
            r is None <==> state >= self.spec_action().len(),
            r matches Some(v) ==> cell_views(v@) == nonempty_cells(self.spec_terms(), self.spec_action()[state as int]),
    {
        proof {
            use_type_invariant(self);
        }
        if state >= self.action.len() {
            return None;
        }
        let row = &self.action[state];
        assert(row@ == self.spec_action()[state as int]);
        let mut v: Vec<(Terminal, ActionCell)> = Vec::new();
        let mut c: usize = 0;
        assert(cell_views(v@) =~= nonempty_cells(self.spec_terms().subrange(0, 0), row@.subrange(0, 0)));
        while c < row.len()
            invariant
                row@ == self.spec_action()[state as int],
                row@.len() == self.terms@.len(),
                self.spec_terms().len() == self.terms@.len(),
                c <= row@.len(),
                cell_views(v@) == nonempty_cells(self.spec_terms().subrange(0, c as int), row@.subrange(0, c as int)),
            decreases row@.len() - c,
        {
            let ghost v0 = cell_views(v@);
            proof {
                let ts = self.spec_terms().subrange(0, c + 1);
                let rs = row@.subrange(0, c + 1);
                assert(ts.drop_last() =~= self.spec_terms().subrange(0, c as int));
                assert(rs.drop_last() =~= row@.subrange(0, c as int));
                assert(ts.last() == self.terms@[c as int]@);
                assert(rs.last() == row@[c as int]);
            }
            if !row[c].is_empty() {
                v.push((self.terms[c].clone(), row[c].clone()));
                assert(cell_views(v@) =~= v0.push((self.terms@[c as int]@, row@[c as int])));
            }
            c = c + 1;
        }
        assert(self.spec_terms().subrange(0, c as int) =~= self.spec_terms());
        assert(row@.subrange(0, c as int) =~= row@);
        Some(v)
    }

    /// GOTO[state, non_term]: none when there is no such state or non-terminal, `Some(None)`
    /// when the state has no edge on it.
    pub fn goto(&self, state: usize, non_term: &NonTerminal) -> (r: Option<Option<usize>>)
        ensures
            r is Some <==> state < self.spec_goto().len() && self.spec_non_terms().contains(non_term@),
            r matches Some(x) ==> exists|a: int| first_index(self.spec_non_terms(), non_term@, a) && x == self.spec_goto()[state as int][a],
            r matches Some(x) ==> x == goto_model(*self, state as int, non_term@),
    {
        proof {
            use_type_invariant(self);
        }
        let mut a: usize = 0;
        while a < self.non_terms.len()
            invariant
                a <= self.non_terms@.len(),
                forall|b: int| 0 <= b < a ==> self.spec_non_terms()[b] != non_term@,
            decreases self.non_terms@.len() - a,
        {
            assert(self.spec_non_terms()[a as int] == self.non_terms@[a as int]@);
            if self.non_terms[a] == *non_term {
                if state >= self.goto.len() {
                    return None;
                }
                proof {
                    use_type_invariant(self);
                }
                let row = &self.goto[state];
                assert(row@ == self.spec_goto()[state as int]);
                assert(row@.len() == self.non_terms@.len());
                assert(first_index(self.spec_non_terms(), non_term@, a as int));
                proof {
                    lemma_first_index_unique(self.spec_non_terms(), non_term@, a as int);
                }
                return Some(row[a]);
            }
            a = a + 1;
        }
        None
    }
}

/// What ACTION holds for state `s` and the terminal named `term`: `Empty` when there is no
/// such state or terminal.
pub open spec fn action_model(t: Table, s: int, term: Seq<char>) -> ActionCell {
    if 0 <= s < t.spec_action().len() && t.spec_terms().contains(term) {
        t.spec_action()[s][choose|a: int| first_index(t.spec_terms(), term, a)]
    } else {
        ActionCell::Empty
    }
}

/// What GOTO holds for state `s` and the non-terminal named `x`, if there are such.
pub open spec fn goto_model(t: Table, s: int, x: Seq<char>) -> Option<usize> {
    if 0 <= s < t.spec_goto().len() && t.spec_non_terms().contains(x) {
        t.spec_goto()[s][choose|a: int| first_index(t.spec_non_terms(), x, a)]
    } else {
        None
    }
}

/// The first position of `x` in `v` is the one `choose` picks.
pub proof fn lemma_first_index_unique(v: Seq<Seq<char>>, x: Seq<char>, a: int)
    requires
        first_index(v, x, a),
    ensures
        (choose|b: int| first_index(v, x, b)) == a,
{
    let b = choose|b: int| first_index(v, x, b);
    assert(first_index(v, x, b));
    if b < a {
        assert(v[b] != x);
    } else if a < b {
        assert(v[a] != x);
    }
}

/// `a` is the first position of `x` in `v`.
pub open spec fn first_index(v: Seq<Seq<char>>, x: Seq<char>, a: int) -> bool {
    &&& 0 <= a < v.len()
    &&& v[a] == x
    &&& forall|b: int| 0 <= b < a ==> v[b] != x
}

/// The views of (terminal, cell) pairs.
pub open spec fn cell_views(v: Seq<(Terminal, ActionCell)>) -> Seq<(Seq<char>, ActionCell)> {
    v.map_values(|x: (Terminal, ActionCell)| (x.0@, x.1))
}

/// The non-empty cells of a row, each with its column's terminal, in column order.
pub open spec fn nonempty_cells(terms: Seq<Seq<char>>, row: Seq<ActionCell>) -> Seq<(Seq<char>, ActionCell)>
    decreases row.len(),
{
    if row.len() == 0 || terms.len() != row.len() {
        Seq::empty()
    } else if row.last() is Empty {
        nonempty_cells(terms.drop_last(), row.drop_last())
    } else {
        nonempty_cells(terms.drop_last(), row.drop_last()).push((terms.last(), row.last()))
    }
}

/// The decimal digit `d`.
pub open spec fn digit_char(d: nat) -> char {
    if d == 0 {
        '0'
    } else if d == 1 {
        '1'
    } else if d == 2 {
        '2'
    } else if d == 3 {
        '3'
    } else if d == 4 {
        '4'
    } else if d == 5 {
        '5'
    } else if d == 6 {
        '6'
    } else if d == 7 {
        '7'
    } else if d == 8 {
        '8'
    } else {
        '9'
    }
}

/// The decimal numeral of `n`.
pub open spec fn dec(n: nat) -> Seq<char>
    decreases n,
{
    if n < 10 {
        seq![digit_char(n)]
    } else {
        dec(n / 10).push(digit_char(n % 10))
    }
}

fn digit_str(d: usize) -> (r: &'static str)
    requires
        d < 10,
    ensures
        r@ == seq![digit_char(d as nat)],
{
    proof {
        reveal_strlit("0");
        reveal_strlit("1");
        reveal_strlit("2");
        reveal_strlit("3");
        reveal_strlit("4");
        reveal_strlit("5");
        reveal_strlit("6");
        reveal_strlit("7");
        reveal_strlit("8");
        reveal_strlit("9");
    }
    if d == 0 {
        "0"
    } else if d == 1 {
        "1"
    } else if d == 2 {
        "2"
    } else if d == 3 {
        "3"
    } else if d == 4 {
        "4"
    } else if d == 5 {
        "5"
    } else if d == 6 {
        "6"
    } else if d == 7 {
        "7"
    } else if d == 8 {
        "8"
    } else {
        "9"
    }
}

/// Appends the decimal numeral of `n`.
pub fn push_decimal(s: &mut String, n: usize)
    ensures
        final(s)@ == old(s)@ + dec(n as nat),
    decreases n,
{
    if n < 10 {
        s.append(digit_str(n));
    } else {
        push_decimal(s, n / 10);
        s.append(digit_str(n % 10));
        assert(dec(n as nat) == dec((n / 10) as nat).push(digit_char((n % 10) as nat)));
    }
}

/// How a cell reads in the markdown table.
pub open spec fn cell_text(c: ActionCell) -> Seq<char> {
    match c {
        ActionCell::Shift(x) => seq!['s'] + dec(x as nat),
        ActionCell::Reduce(p) => seq!['r'] + dec(p as nat),
        ActionCell::Conflict(_, _) => seq!['[', 'c', 'o', 'n', 'f', 'l', 'i', 'c', 't', ']'],
        ActionCell::Accept => seq!['a', 'c', 'c'],
        ActionCell::Empty => Seq::empty(),
    }
}

/// A header column: the name in backquotes.
pub open spec fn md_col(name: Seq<char>) -> Seq<char> {
    seq![' ', '`'] + name + seq!['`', ' ', '|']
}

pub open spec fn md_cols(names: Seq<Seq<char>>) -> Seq<char>
    decreases names.len(),
{
    if names.len() == 0 {
        Seq::empty()
    } else {
        md_cols(names.drop_last()) + md_col(names.last())
    }
}

pub open spec fn md_cells(cells: Seq<ActionCell>) -> Seq<char>
    decreases cells.len(),
{
    if cells.len() == 0 {
        Seq::empty()
    } else {
        md_cells(cells.drop_last()) + seq![' '] + cell_text(cells.last()) + seq![' ', '|']
    }
}

pub open spec fn md_gotos(gotos: Seq<Option<usize>>) -> Seq<char>
    decreases gotos.len(),
{
    if gotos.len() == 0 {
        Seq::empty()
    } else {
        md_gotos(gotos.drop_last()) + match gotos.last() {
            Some(x) => seq![' '] + dec(x as nat) + seq![' ', '|'],
            None => seq![' ', ' ', '|'],
        }
    }
}

pub open spec fn md_seps(n: nat) -> Seq<char>
    decreases n,
{
    if n == 0 {
        Seq::empty()
    } else {
        md_seps((n - 1) as nat) + seq![' ', '-', ' ', '|']
    }
}

/// The line of state `i`.
pub open spec fn md_row(i: nat, cells: Seq<ActionCell>, gotos: Seq<Option<usize>>) -> Seq<char> {
    seq!['|', ' ', '$', 'I', '_', '{'] + dec(i) + seq!['}', '$', ' ', '|'] + md_cells(cells) + md_gotos(gotos)
}

/// The lines of the first `n` states, one per line.
pub open spec fn md_rows(action: Seq<Seq<ActionCell>>, goto: Seq<Seq<Option<usize>>>, n: nat) -> Seq<char>
    decreases n,
{
    if n == 0 {
        Seq::empty()
    } else if n == 1 {
        md_row(0, action[0], goto[0])
    } else {
        md_rows(action, goto, (n - 1) as nat) + seq!['\n'] + md_row((n - 1) as nat, action[n - 1], goto[n - 1])
    }
}

/// The whole markdown table: header, separator, one line per state.
pub open spec fn markdown(t: Table) -> Seq<char> {
    seq!['|', ' ', '|'] + md_cols(t.spec_terms()) + md_cols(t.spec_non_terms()) + seq!['\n'] + seq![
        '|',
        ' ',
        '-',
        ' ',
        '|',
    ] + md_seps(t.spec_terms().len() + t.spec_non_terms().len()) + seq!['\n'] + md_rows(
        t.spec_action(),
        t.spec_goto(),
        t.spec_action().len(),
    )
}

fn push_col(s: &mut String, name: &str)
    ensures
        final(s)@ == old(s)@ + md_col(name@),
{
    proof {
        reveal_strlit(" `");
        reveal_strlit("` |");
    }
    s.append(" `");
    s.append(name);
    s.append("` |");
    assert(final(s)@ =~= old(s)@ + md_col(name@));
}

fn push_sep(s: &mut String)
    ensures
        final(s)@ == old(s)@ + seq![' ', '-', ' ', '|'],
{
    proof {
        reveal_strlit(" - |");
    }
    s.append(" - |");
}

fn push_cell(s: &mut String, c: &ActionCell)
    ensures
        final(s)@ == old(s)@ + seq![' '] + cell_text(*c) + seq![' ', '|'],
{
    proof {
        reveal_strlit(" ");
        reveal_strlit(" |");
        reveal_strlit("s");
        reveal_strlit("r");
        reveal_strlit("[conflict]");
        reveal_strlit("acc");
    }
    let ghost s0 = s@;
    s.append(" ");
    match c {
        ActionCell::Shift(x) => {
            s.append("s");
            push_decimal(s, *x);
        },
        ActionCell::Reduce(p) => {
            s.append("r");
            push_decimal(s, *p);
        },
        ActionCell::Conflict(_, _) => {
            s.append("[conflict]");
        },
        ActionCell::Accept => {
            s.append("acc");
        },
        ActionCell::Empty => {},
    }
    s.append(" |");
    assert(s@ =~= s0 + seq![' '] + cell_text(*c) + seq![' ', '|']);
}

fn push_goto(s: &mut String, g: Option<usize>)
    ensures
        final(s)@ == old(s)@ + match g {
            Some(x) => seq![' '] + dec(x as nat) + seq![' ', '|'],
            None => seq![' ', ' ', '|'],
        },
{
    proof {
        reveal_strlit(" ");
        reveal_strlit(" |");
        reveal_strlit("  |");
    }
    let ghost s0 = s@;
    match g {
        Some(x) => {
            s.append(" ");
            push_decimal(s, x);
            s.append(" |");
            assert(s@ =~= s0 + seq![' '] + dec(x as nat) + seq![' ', '|']);
        },
        None => {
            s.append("  |");
        },
    }
}

fn push_row_head(s: &mut String, r: usize)
    ensures
        final(s)@ == old(s)@ + seq!['|', ' ', '$', 'I', '_', '{'] + dec(r as nat) + seq!['}', '$', ' ', '|'],
{
    proof {
        reveal_strlit("| $I_{");
        reveal_strlit("}$ |");
    }
    let ghost s0 = s@;
    s.append("| $I_{");
    push_decimal(s, r);
    s.append("}$ |");
    assert(s@ =~= s0 + seq!['|', ' ', '$', 'I', '_', '{'] + dec(r as nat) + seq!['}', '$', ' ', '|']);
}

fn push_newline(s: &mut String)
    ensures
        final(s)@ == old(s)@ + seq!['\n'],
{
    proof {
        reveal_strlit("\n");
    }
    s.append("\n");
}

impl Table {
    /// The table as markdown: a header row of terminals then non-terminals in backquotes, a
    /// separator row, and one row per state titled `$I_{i}$` with `s<n>`, `r<n>`, `acc`,
    /// `[conflict]` or nothing per ACTION cell and the target or nothing per GOTO cell.
    pub fn to_markdown(&self) -> (r: String)
        ensures
            r@ == markdown(*self),
    {
        proof {
            use_type_invariant(self);
            reveal_strlit("| |");
            reveal_strlit("| - |");
        }
        let mut s = String::new();
        s.append("| |");
        let mut i: usize = 0;
        while i < self.terms.len()
            invariant
                i <= self.terms@.len(),
                s@ == seq!['|', ' ', '|'] + md_cols(self.spec_terms().subrange(0, i as int)),
            decreases self.terms@.len() - i,
        {
            push_col(&mut s, self.terms[i].as_str());
            proof {
                let names = self.spec_terms().subrange(0, i + 1);
                assert(names.drop_last() =~= self.spec_terms().subrange(0, i as int));
                assert(names.last() == self.terms@[i as int]@);
                assert(s@ =~= seq!['|', ' ', '|'] + md_cols(names));
            }
            i = i + 1;
        }
        assert(self.spec_terms().subrange(0, i as int) =~= self.spec_terms());
        let ghost head1 = s@;
        let mut i: usize = 0;
        while i < self.non_terms.len()
            invariant
                i <= self.non_terms@.len(),
                s@ == head1 + md_cols(self.spec_non_terms().subrange(0, i as int)),
            decreases self.non_terms@.len() - i,
        {
            push_col(&mut s, self.non_terms[i].as_str());
            proof {
                let names = self.spec_non_terms().subrange(0, i + 1);
                assert(names.drop_last() =~= self.spec_non_terms().subrange(0, i as int));
                assert(names.last() == self.non_terms@[i as int]@);
                assert(s@ =~= head1 + md_cols(names));
            }
            i = i + 1;
        }
        assert(self.spec_non_terms().subrange(0, i as int) =~= self.spec_non_terms());
        push_newline(&mut s);
        s.append("| - |");
        let ghost head2 = s@;
        let mut k: usize = 0;
        while k < self.terms.len()
            invariant
                k <= self.terms@.len(),
                s@ == head2 + md_seps(k as nat),
            decreases self.terms@.len() - k,
        {
            push_sep(&mut s);
            k = k + 1;
        }
        let mut j: usize = 0;
        while j < self.non_terms.len()
            invariant
                j <= self.non_terms@.len(),
                k == self.terms@.len(),
                s@ == head2 + md_seps((k + j) as nat),
            decreases self.non_terms@.len() - j,
        {
            push_sep(&mut s);
            j = j + 1;
        }
        push_newline(&mut s);
        let ghost head3 = s@;
        let rows = self.action.len();
        let mut r: usize = 0;
        while r < rows
            invariant
                rows == self.action@.len(),
                rows == self.goto@.len(),
                r <= rows,
                s@ == head3 + md_rows(self.spec_action(), self.spec_goto(), r as nat),
            decreases rows - r,
        {
            if r > 0 {
                push_newline(&mut s);
            }
            let ghost mid = s@;
            push_row_head(&mut s, r);
            let ghost lead = s@;
            let cells = &self.action[r];
            assert(cells@ == self.spec_action()[r as int]);
            let mut c: usize = 0;
            while c < cells.len()
                invariant
                    c <= cells@.len(),
                    s@ == lead + md_cells(cells@.subrange(0, c as int)),
                decreases cells@.len() - c,
            {
                push_cell(&mut s, &cells[c]);
                proof {
                    let part = cells@.subrange(0, c + 1);
                    assert(part.drop_last() =~= cells@.subrange(0, c as int));
                    assert(part.last() == cells@[c as int]);
                    assert(s@ =~= lead + md_cells(part));
                }
                c = c + 1;
            }
            assert(cells@.subrange(0, c as int) =~= cells@);
            let ghost lead2 = s@;
            let gotos = &self.goto[r];
            assert(gotos@ == self.spec_goto()[r as int]);
            let mut c: usize = 0;
            while c < gotos.len()
                invariant
                    c <= gotos@.len(),
                    s@ == lead2 + md_gotos(gotos@.subrange(0, c as int)),
                decreases gotos@.len() - c,
            {
                push_goto(&mut s, gotos[c]);
                proof {
                    let part = gotos@.subrange(0, c + 1);
                    assert(part.drop_last() =~= gotos@.subrange(0, c as int));
                    assert(part.last() == gotos@[c as int]);
                    assert(s@ =~= lead2 + md_gotos(part));
                }
                c = c + 1;
            }
            assert(gotos@.subrange(0, c as int) =~= gotos@);
            proof {
                let row = md_row(r as nat, self.spec_action()[r as int], self.spec_goto()[r as int]);
                assert(s@ =~= mid + row);
                if r == 0 {
                    assert(s@ =~= head3 + md_rows(self.spec_action(), self.spec_goto(), 1));
                } else {
                    assert(s@ =~= head3 + md_rows(self.spec_action(), self.spec_goto(), (r + 1) as nat));
                }
            }
            r = r + 1;
        }
        s
    }
}

} // verus!
