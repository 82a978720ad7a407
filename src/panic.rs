//! Panic-mode recovery: what to do when ACTION holds nothing for the lookahead.
use vstd::prelude::*;

use crate::error::Error;
use crate::grammar::Grammar;
use crate::item::{body_of, expected_of, la_first, la_vec, rest_of, Family, Item};
use crate::table::{goto_cell, Table};
use crate::token::{Terminal, Token, TokenModel};

verus! {

/// A recovery directive.
#[derive(Debug, PartialEq, Eq)]
pub enum PanicAction {
    /// Take the missing terminal as read, and go to this state.
    Shift(Terminal, usize),
    /// Reduce by this production.
    Reduce(usize),
    Accept,
    Empty,
}

/// A recovery directive as data: a terminal is given by its code.
pub enum PanicModel {
    Shift(nat, nat),
    Reduce(nat),
    Accept,
    Empty,
}

impl PanicAction {
    pub fn is_empty(&self) -> (r: bool)
        ensures
            r == (*self is Empty),
    {
        matches!(self, PanicAction::Empty)
    }
}

/// After the terminal `x` before the dot of `it` is taken as read, the lookahead `t` can
/// follow: `it` with the dot moved reduces on `t`, or `t` is in FIRST of what follows the
/// symbol after the moved dot, with the lookaheads of `it` when that derives ε.
pub open spec fn recovers_on(g: Grammar, it: Item, t: int) -> bool {
    let len = body_of(g, it.prod as int).len();
    &&& 0 <= t
    &&& if it.dot + 1 >= len {
        it.look@[t]
    } else {
        la_first(g, rest_of(g, it.prod as int, it.dot + 1), it.look@, t as nat)
    }
}

/// The shift that item `it` of state `s` offers for lookahead code `t` (-1 when the
/// lookahead is no terminal of the grammar), if any: the terminal before its dot, taken as
/// read, when `t` can follow it.
pub open spec fn shift_step(g: Grammar, f: Family, s: int, it: Item, t: int) -> Option<PanicModel> {
    match expected_of(g, it.prod as int, it.dot as int) {
        Some(x) => if x < g.spec_nt() && recovers_on(g, it, t) {
            Some(PanicModel::Shift(x as nat, goto_cell(f.spec_edges()[s], x as nat).unwrap_or(0) as nat))
        } else {
            None
        },
        None => None,
    }
}

/// The reduction that item `it` offers, if it is reducible: accept for production 0.
pub open spec fn reduce_step(g: Grammar, it: Item) -> Option<PanicModel> {
    match expected_of(g, it.prod as int, it.dot as int) {
        Some(_) => None,
        None => Some(
            if it.prod == 0 {
                PanicModel::Accept
            } else {
                PanicModel::Reduce(it.prod as nat)
            },
        ),
    }
}

/// The first shift that the items offer, in order.
pub open spec fn shift_scan(g: Grammar, f: Family, s: int, items: Seq<Item>, t: int) -> Option<PanicModel>
    decreases items.len(),
{
    if items.len() == 0 {
        None
    } else {
        match shift_step(g, f, s, items[0], t) {
            Some(m) => Some(m),
            None => shift_scan(g, f, s, items.drop_first(), t),
        }
    }
}

/// The first reduction that the items offer, in order.
pub open spec fn reduce_scan(g: Grammar, items: Seq<Item>) -> Option<PanicModel>
    decreases items.len(),
{
    if items.len() == 0 {
        None
    } else {
        match reduce_step(g, items[0]) {
            Some(m) => Some(m),
            None => reduce_scan(g, items.drop_first()),
        }
    }
}

/// The recovery directive: a shift if some item offers one, else a reduction if some item
/// is reducible, else `Empty`.
pub open spec fn panic_scan(g: Grammar, f: Family, s: int, items: Seq<Item>, t: int) -> PanicModel {
    match shift_scan(g, f, s, items, t) {
        Some(m) => m,
        None => match reduce_scan(g, items) {
            Some(m) => m,
            None => PanicModel::Empty,
        },
    }
}

/// The directive matches its model.
pub open spec fn matches_model(g: Grammar, a: PanicAction, m: PanicModel) -> bool {
    match (a, m) {
        (PanicAction::Shift(x, j), PanicModel::Shift(xc, jc)) => g.spec_tokens()[xc as int] == TokenModel::Term(x@) && j == jc,
        (PanicAction::Reduce(p), PanicModel::Reduce(pc)) => p == pc,
        (PanicAction::Accept, PanicModel::Accept) => true,
        (PanicAction::Empty, PanicModel::Empty) => true,
        _ => false,
    }
}

/// The code of the lookahead `term`, or -1 when the grammar has no such terminal.
pub open spec fn term_code(g: Grammar, term: Seq<char>, c: int) -> bool {
    if c >= 0 {
        0 <= c < g.spec_nt() && g.spec_tokens()[c] == TokenModel::Term(term)
    } else {
        c == -1 && !g.spec_tokens().contains(TokenModel::Term(term))
    }
}

impl Table {
    /// The recovery directive for state `state` when ACTION holds nothing for `term`. First
    /// the items of the state are scanned in order for one with a terminal `x` before the dot
    /// after which `term` can follow: it gives `Shift(x, GOTO(state, x))`. Failing that, the
    /// first reducible item gives `Accept` for production 0 and otherwise `Reduce`. `Empty`
    /// comes when neither is found.
    ///
    /// Fails with `StateNotFound` when there is no such state.
    pub fn panic_action(&self, g: &Grammar, f: &Family, state: usize, term: &Terminal) -> (r: Result<PanicAction, Error>)
        requires
            g.wf(),
            f.wf(*g),
        ensures
            state >= f.spec_states().len() ==> r == Err::<PanicAction, Error>(Error::StateNotFound(state)),
            state < f.spec_states().len() ==> (r matches Ok(a) && exists|c: int| term_code(*g, term@, c)
                && matches_model(*g, a, panic_scan(*g, *f, state as int, f.spec_states()[state as int].spec_items(), c))),
    {
        if state >= f.len() {
            return Err(Error::StateNotFound(state));
        }
        let nt = g.n_terms();
        let tc: Option<usize> = match g.token_id(&Token::Terminal(term.clone())) {
            Some(c) => {
                assert(g.spec_tokens()[c as int] is Term);
                Some(c)
            },
            None => None,
        };
        let ghost c: int = match tc {
            Some(x) => x as int,
            None => -1,
        };
        proof {
            if tc is None {
                assert(!g.spec_tokens().contains(TokenModel::Term(term@)));
            }
        }
        let items = f.item_sets()[state].items();
        let ghost its = items@;
        let rules = g.rules();
        let tokens = g.tokens();
        let mut k: usize = 0;
        assert(its.subrange(0, its.len() as int) =~= its);
        while k < items.len()
            invariant
                g.wf(),
                f.wf(*g),
                state < f.spec_states().len(),
                nt == g.spec_nt(),
                rules@ == g.spec_rules(),
                crate::grammar::toks(tokens@) == g.spec_tokens(),
                its == f.spec_states()[state as int].spec_items(),
                items@ == its,
                term_code(*g, term@, c),
                tc matches Some(x) ==> c == x,
                tc is None ==> c == -1,
                k <= its.len(),
                shift_scan(*g, *f, state as int, its, c) == shift_scan(*g, *f, state as int, its.subrange(k as int, its.len() as int), c),
            decreases its.len() - k,
        {
            let it = &items[k];
            proof {
                assert(f.spec_states()[state as int].wf(*g));
                assert(crate::item::item_wf(*g, its[k as int]));
                let rest = its.subrange(k as int, its.len() as int);
                assert(rest[0] == its[k as int]);
                assert(rest.drop_first() =~= its.subrange(k + 1, its.len() as int));
            }
            let body = &rules[it.prod].body;
            assert(body@ == body_of(*g, it.prod as int));
            if it.dot < body.len() {
                let x = body[it.dot];
                if x < nt {
                    let to = match f.goto_code(state, x) {
                        Some(j) => j,
                        None => {
                            proof {
                                assert(x < g.spec_ns()) by {
                                    assert(g.spec_rules()[it.prod as int].body@[it.dot as int] < g.spec_ns());
                                }
                                let row = f.spec_edges()[state as int];
                                assert(crate::item::row_ok(*g, f.spec_states(), state as int, row));
                                assert(crate::item::expects(*g, f.spec_states()[state as int].spec_items(), (x as int) as nat)) by {
                                    assert(expected_of(*g, its[k as int].prod as int, its[k as int].dot as int) == Some(x));
                                }
                                let xi: int = x as int;
                                assert(0 <= xi < g.spec_ns());
                                assert(crate::item::expects(*g, f.spec_states()[state as int].spec_items(), xi as nat));
                                assert(exists|e: int| 0 <= e < row.len() && (#[trigger] row[e]).0 == xi);
                                let e = choose|e: int| 0 <= e < row.len() && (#[trigger] row[e]).0 == x;
                                assert(false);
                            }
                            return Err(Error::AmbiguousGrammar);
                        },
                    };
                    proof {
                        assert(crate::item::row_ok(*g, f.spec_states(), state as int, f.spec_edges()[state as int]));
                        lemma_goto_cell(f.spec_edges()[state as int], x, to);
                    }
                    let recovers = match tc {
                        None => false,
                        Some(t) => {
                            if it.dot + 1 >= body.len() {
                                it.look[t]
                            } else {
                                let la = la_vec(g, it.prod, it.dot + 1, &it.look);
                                la[t]
                            }
                        },
                    };
                    assert(recovers == recovers_on(*g, *it, c));
                    if recovers {
                        let xt = match &tokens[x] {
                            Token::Terminal(t) => t.clone(),
                            Token::NonTerminal(_) => {
                                proof {
                                    assert(g.spec_tokens()[x as int] is Term);
                                    assert(g.spec_tokens()[x as int] == tokens@[x as int]@);
                                }
                                return Err(Error::AmbiguousGrammar);
                            },
                        };
                        proof {
                            assert(g.spec_tokens()[x as int] == tokens@[x as int]@);
                        }
                        return Ok(PanicAction::Shift(xt, to));
                    }
                }
            }
            k = k + 1;
        }
        proof {
            assert(its.subrange(k as int, its.len() as int).len() == 0);
        }
        let mut k: usize = 0;
        while k < items.len()
            invariant
                g.wf(),
                f.wf(*g),
                state < f.spec_states().len(),
                rules@ == g.spec_rules(),
                its == f.spec_states()[state as int].spec_items(),
                items@ == its,
                term_code(*g, term@, c),
                shift_scan(*g, *f, state as int, its, c) is None,
                k <= its.len(),
                reduce_scan(*g, its) == reduce_scan(*g, its.subrange(k as int, its.len() as int)),
            decreases its.len() - k,
        {
            let it = &items[k];
            proof {
                assert(f.spec_states()[state as int].wf(*g));
                assert(crate::item::item_wf(*g, its[k as int]));
                let rest = its.subrange(k as int, its.len() as int);
                assert(rest[0] == its[k as int]);
                assert(rest.drop_first() =~= its.subrange(k + 1, its.len() as int));
            }
            let body = &rules[it.prod].body;
            assert(body@ == body_of(*g, it.prod as int));
            if it.dot >= body.len() {
                if it.prod == 0 {
                    return Ok(PanicAction::Accept);
                } else {
                    return Ok(PanicAction::Reduce(it.prod));
                }
            }
            k = k + 1;
        }
        proof {
            assert(its.subrange(k as int, its.len() as int).len() == 0);
        }
        Ok(PanicAction::Empty)
    }
}

/// The edge that a lookup finds is the last (and, in a single-valued row, only) edge on `x`.
proof fn lemma_goto_cell(row: Seq<(usize, usize)>, x: usize, to: usize)
    requires
        exists|e: int| 0 <= e < row.len() && #[trigger] row[e] == (x, to),
        forall|e1: int, e2: int| 0 <= e1 < e2 < row.len() ==> (#[trigger] row[e1]).0 < (#[trigger] row[e2]).0,
    ensures
        goto_cell(row, x as nat) == Some(to),
    decreases row.len(),
{
    let e = choose|e: int| 0 <= e < row.len() && #[trigger] row[e] == (x, to);
    if e == row.len() - 1 {
    } else {
        assert(row[e].0 < row[row.len() - 1].0);
        assert(row.last().0 != x);
        assert(row.drop_last()[e] == row[e]);
        lemma_goto_cell(row.drop_last(), x, to);
    }
}

} // verus!
