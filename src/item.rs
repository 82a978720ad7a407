//! LR(1) items, item sets (closed and merged), GOTO, and the canonical collection.
use vstd::prelude::*;

use crate::cfg::{
    cell, count_row, count_table, in_first, in_first_seq, lemma_count_row_le, lemma_count_row_set,
    lemma_count_table_le, lemma_count_table_update, nullable, prefix_nullable, set_cell,
    table_shape,
};
use crate::error::Error;
use crate::grammar::{clone_tokens, toks, Grammar};
use crate::token::{Terminal, Token, TokenModel};
use vstd::string::*;

verus! {

/// An LR(1) item: production id, dot position among the effective tail symbols, and the
/// lookahead set as one flag per terminal code.
#[derive(Debug)]
pub struct Item {
    pub prod: usize,
    pub dot: usize,
    pub look: Vec<bool>,
}

/// The effective tail of production `p`, in codes.
pub open spec fn body_of(g: Grammar, p: int) -> Seq<usize> {
    g.spec_rules()[p].body@
}

/// An item of `g`: a known production, a dot inside its tail, one flag per terminal, never ε.
pub open spec fn item_wf(g: Grammar, it: Item) -> bool {
    &&& it.prod < g.spec_rules().len()
    &&& it.dot <= body_of(g, it.prod as int).len()
    &&& it.look@.len() == g.spec_nt()
    &&& !it.look@[g.eps_id() as int]
}

/// The symbol after the dot, if any.
pub open spec fn expected_of(g: Grammar, p: int, d: int) -> Option<usize> {
    if d < body_of(g, p).len() {
        Some(body_of(g, p)[d])
    } else {
        None
    }
}

/// The symbols after the one after the dot.
pub open spec fn rest_of(g: Grammar, p: int, d: int) -> Seq<usize> {
    body_of(g, p).subrange(d + 1, body_of(g, p).len() as int)
}

/// `t ∈ FIRST(w L)` with ε left out: FIRST of `w`, and `L` as well when `w ⇒* ε`.
pub open spec fn la_first(g: Grammar, w: Seq<usize>, look: Seq<bool>, t: nat) -> bool {
    &&& t != g.eps_id()
    &&& (in_first_seq(g.spec_rules(), g.spec_nt(), w, t) || (prefix_nullable(
        g.spec_rules(),
        g.spec_nt(),
        w,
        w.len() as int,
    ) && look[t as int]))
}

/// Items ordered by core: production first, then dot.
pub open spec fn core_lt(a: (usize, usize), b: (usize, usize)) -> bool {
    a.0 < b.0 || (a.0 == b.0 && a.1 < b.1)
}

/// Every core of `g` in order, and the row of each production's first core.
#[derive(Debug)]
pub struct Cores {
    pub list: Vec<(usize, usize)>,
    pub start: Vec<usize>,
}

pub open spec fn cores_wf(g: Grammar, c: Cores) -> bool {
    let np = g.spec_rules().len();
    &&& c.start@.len() == np
    &&& forall|k: int|
        0 <= k < c.list@.len() ==> (#[trigger] c.list@[k]).0 < np && c.list@[k].1 <= body_of(
            g,
            c.list@[k].0 as int,
        ).len()
    &&& forall|p: int, d: int|
        0 <= p < np && 0 <= d <= body_of(g, p).len() ==> #[trigger] core_at(c.list@, c.start@, p, d)
    &&& forall|k1: int, k2: int|
        0 <= k1 < k2 < c.list@.len() ==> core_lt(#[trigger] c.list@[k1], #[trigger] c.list@[k2])
}

/// Row `start[p] + d` holds the core `(p, d)`.
pub open spec fn core_at(list: Seq<(usize, usize)>, start: Seq<usize>, p: int, d: int) -> bool {
    &&& 0 <= p < start.len()
    &&& start[p] + d < list.len()
    &&& list[start[p] + d].0 == p
    &&& list[start[p] + d].1 == d
}

/// Lists the cores of `g`.
pub fn build_cores(g: &Grammar) -> (c: Cores)
    requires
        g.wf(),
    ensures
        cores_wf(*g, c),
{
    let rules = g.rules();
    let mut list: Vec<(usize, usize)> = Vec::new();
    let mut start: Vec<usize> = Vec::new();
    let mut p: usize = 0;
    while p < rules.len()
        invariant
            rules@ == g.spec_rules(),
            p <= rules@.len(),
            start@.len() == p,
            forall|k: int|
                0 <= k < list@.len() ==> (#[trigger] list@[k]).0 < p && list@[k].1 <= body_of(
                    *g,
                    list@[k].0 as int,
                ).len(),
            forall|q: int, d: int|
                0 <= q < p && 0 <= d <= body_of(*g, q).len() ==> #[trigger] core_at(list@, start@, q, d),
            forall|k1: int, k2: int|
                0 <= k1 < k2 < list@.len() ==> core_lt(#[trigger] list@[k1], #[trigger] list@[k2]),
        decreases rules@.len() - p,
    {
        let len = rules[p].body.len();
        let ghost l0 = list@;
        let ghost s0 = start@;
        start.push(list.len());
        list.push((p, 0));
        proof {
            assert forall|q: int, d: int|
                0 <= q < p && 0 <= d <= body_of(*g, q).len() implies #[trigger] core_at(list@, start@, q, d) by {
                assert(core_at(l0, s0, q, d));
                assert(start@[q] == s0[q]);
                assert(list@[start@[q] + d] == l0[s0[q] + d]);
            }
            assert(core_at(list@, start@, p as int, 0));
        }
        let mut d: usize = 0;
        while d < len
            invariant
                rules@ == g.spec_rules(),
                p < rules@.len(),
                len == body_of(*g, p as int).len(),
                d <= len,
                start@.len() == p + 1,
                start@[p as int] + d + 1 == list@.len(),
                forall|k: int|
                    0 <= k < list@.len() ==> ((#[trigger] list@[k]).0 < p || (list@[k].0 == p
                        && list@[k].1 <= d)) && list@[k].1 <= body_of(*g, list@[k].0 as int).len(),
                forall|q: int, e: int|
                    0 <= q < p && 0 <= e <= body_of(*g, q).len() ==> #[trigger] core_at(list@, start@, q, e),
                forall|e: int| 0 <= e <= d ==> #[trigger] core_at(list@, start@, p as int, e),
                forall|k1: int, k2: int|
                    0 <= k1 < k2 < list@.len() ==> core_lt(#[trigger] list@[k1], #[trigger] list@[k2]),
            decreases len - d,
        {
            let ghost l1 = list@;
            list.push((p, d + 1));
            proof {
                assert forall|q: int, e: int|
                    0 <= q < p && 0 <= e <= body_of(*g, q).len() implies #[trigger] core_at(list@, start@, q, e) by {
                    assert(core_at(l1, start@, q, e));
                    assert(list@[start@[q] + e] == l1[start@[q] + e]);
                }
                assert forall|e: int| 0 <= e <= d + 1 implies #[trigger] core_at(list@, start@, p as int, e) by {
                    if e <= d {
                        assert(core_at(l1, start@, p as int, e));
                        assert(list@[start@[p as int] + e] == l1[start@[p as int] + e]);
                    }
                }
            }
            d = d + 1;
        }
        p = p + 1;
    }
    Cores { list, start }
}

/// Some symbol of `w` before `k`, preceded only by nullable ones, has `t` in its FIRST set.
pub open spec fn first_upto(g: Grammar, w: Seq<usize>, k: int, t: nat) -> bool {
    exists|j: int|
        0 <= j < k && prefix_nullable(g.spec_rules(), g.spec_nt(), w, j) && #[trigger] in_first(
            g.spec_rules(),
            g.spec_nt(),
            w[j] as nat,
            t,
        )
}

/// The lookahead set of the items that `(p, d)` with lookahead `look` adds for the
/// non-terminal after its dot.
pub(crate) fn la_vec(g: &Grammar, p: usize, d: usize, look: &Vec<bool>) -> (r: Vec<bool>)
    requires
        g.wf(),
        p < g.spec_rules().len(),
        d < body_of(*g, p as int).len(),
        look@.len() == g.spec_nt(),
    ensures
        r@.len() == g.spec_nt(),
        forall|t: int| 0 <= t < g.spec_nt() ==> (#[trigger] r@[t] <==> la_first(*g, rest_of(*g, p as int, d as int), look@, t as nat)),
{
    let ghost rules = g.spec_rules();
    let first = g.first_table();
    let nt = g.n_terms();
    let eps = nt - 2;
    let body = &g.rules()[p].body;
    let ghost w = rest_of(*g, p as int, d as int);
    let mut r: Vec<bool> = Vec::new();
    let mut t: usize = 0;
    while t < nt
        invariant
            t <= nt,
            r@.len() == t,
            forall|u: int| 0 <= u < t ==> !(#[trigger] r@[u]),
        decreases nt - t,
    {
        r.push(false);
        t = t + 1;
    }
    let blen = body.len();
    let mut i = d + 1;
    let mut all_null = true;
    while i < body.len() && all_null
        invariant
            g.wf(),
            rules == g.spec_rules(),
            first@ == g.spec_first(),
            nt == g.spec_nt(),
            eps == nt - 2,
            *body == g.spec_rules()[p as int].body,
            p < g.spec_rules().len(),
            d < body@.len(),
            w == body@.subrange(d + 1, body@.len() as int),
            d + 1 <= i <= body@.len(),
            r@.len() == nt,
            forall|u: int| 0 <= u < nt ==> (#[trigger] r@[u] <==> (u != eps && first_upto(*g, w, i - d - 1, u as nat))),
            all_null ==> prefix_nullable(rules, nt as nat, w, i - d - 1),
            !all_null ==> i > d + 1 && !nullable(rules, nt as nat, w[i - d - 2] as nat),
        decreases body@.len() - i,
    {
        let sym = body[i];
        let ghost j = i - d - 1;
        assert(w[j] == sym);
        assert(sym < g.spec_ns()) by {
            assert(g.spec_rules()[p as int].body@[i as int] < g.spec_ns());
        }
        let mut t: usize = 0;
        while t < nt
            invariant
                g.wf(),
                rules == g.spec_rules(),
                first@ == g.spec_first(),
                nt == g.spec_nt(),
                eps == nt - 2,
                sym < g.spec_ns(),
                0 <= j < w.len(),
                w[j] == sym,
                t <= nt,
                r@.len() == nt,
                all_null ==> prefix_nullable(rules, nt as nat, w, j),
                all_null,
                forall|u: int| t <= u < nt ==> (#[trigger] r@[u] <==> (u != eps && first_upto(*g, w, j, u as nat))),
                forall|u: int| 0 <= u < t ==> (#[trigger] r@[u] <==> (u != eps && first_upto(*g, w, j + 1, u as nat))),
            decreases nt - t,
        {
            proof {
                lemma_first_upto_step(*g, w, j, t as nat);
            }
            if t != eps && cell(first, sym, t) {
                r.set(t, true);
            }
            t = t + 1;
        }
        all_null = cell(first, sym, eps);
        proof {
            if all_null {
                assert(prefix_nullable(rules, nt as nat, w, j + 1)) by {
                    assert(in_first(rules, nt as nat, sym as nat, eps as nat));
                }
            }
        }
        i = i + 1;
    }
    let ghost k = i - d - 1;
    proof {
        assert forall|u: int| 0 <= u < nt && u != eps implies (#[trigger] first_upto(*g, w, k, u as nat)
            <==> in_first_seq(rules, nt as nat, w, u as nat)) by {
            if in_first_seq(rules, nt as nat, w, u as nat) {
                let j = choose|j: int| 0 <= j < w.len() && prefix_nullable(rules, nt as nat, w, j) && #[trigger] in_first(rules, nt as nat, w[j] as nat, u as nat);
                if j >= k {
                    assert(!all_null);
                    assert(!nullable(rules, nt as nat, w[k - 1] as nat));
                    assert(false);
                }
            }
        }
    }
    if all_null {
        let mut t: usize = 0;
        while t < nt
            invariant
                nt == g.spec_nt(),
                eps == nt - 2,
                look@.len() == nt,
                t <= nt,
                r@.len() == nt,
                forall|u: int| t <= u < nt ==> (#[trigger] r@[u] <==> (u != eps && first_upto(*g, w, k, u as nat))),
                forall|u: int| 0 <= u < t ==> (#[trigger] r@[u] <==> (u != eps && (first_upto(*g, w, k, u as nat) || look@[u]))),
            decreases nt - t,
        {
            if t != eps && look[t] {
                r.set(t, true);
            }
            t = t + 1;
        }
        proof {
            assert(k == w.len());
        }
    } else {
        proof {
            assert(!prefix_nullable(rules, nt as nat, w, w.len() as int)) by {
                assert(!nullable(rules, nt as nat, w[k - 1] as nat));
            }
        }
    }
    r
}

pub(crate) proof fn lemma_first_upto_step(g: Grammar, w: Seq<usize>, j: int, t: nat)
    requires
        0 <= j < w.len(),
    ensures
        first_upto(g, w, j + 1, t) <==> (first_upto(g, w, j, t) || (prefix_nullable(
            g.spec_rules(),
            g.spec_nt(),
            w,
            j,
        ) && in_first(g.spec_rules(), g.spec_nt(), w[j] as nat, t))),
{
    if first_upto(g, w, j + 1, t) {
        let i = choose|i: int|
            0 <= i < j + 1 && prefix_nullable(g.spec_rules(), g.spec_nt(), w, i) && #[trigger] in_first(
                g.spec_rules(),
                g.spec_nt(),
                w[i] as nat,
                t,
            );
        if i < j {
            assert(first_upto(g, w, j, t));
        }
    }
}

/// No row of a lookahead table holds ε.
pub open spec fn no_eps(g: Grammar, tab: Seq<Vec<bool>>) -> bool {
    forall|c: int| 0 <= c < tab.len() ==> !(#[trigger] tab[c])@[g.eps_id() as int]
}

/// Each flag of `a` is also set in `b`.
pub open spec fn grows(a: Seq<Vec<bool>>, b: Seq<Vec<bool>>, pa: Seq<bool>, pb: Seq<bool>) -> bool {
    &&& forall|c: int, t: int| 0 <= c < a.len() && 0 <= t < a[c]@.len() && #[trigger] a[c]@[t] ==> b[c]@[t]
    &&& forall|c: int| 0 <= c < pa.len() && #[trigger] pa[c] ==> pb[c]
}

/// For present row `c` (an item whose dot stands before non-terminal `B`) and a production
/// `q` of `B`: the item `q` with the dot first is present, with every lookahead that
/// `FIRST(β L)` gives.
pub open spec fn q_closed(
    g: Grammar,
    cs: Cores,
    tab: Seq<Vec<bool>>,
    pr: Seq<bool>,
    c: int,
    q: int,
) -> bool {
    let p = cs.list@[c].0 as int;
    let d = cs.list@[c].1 as int;
    let r0 = cs.start@[q] as int;
    &&& pr[r0]
    &&& forall|t: int| 0 <= t < g.spec_nt() && la_first(g, rest_of(g, p, d), tab[c]@, t as nat) ==> #[trigger] tab[r0]@[t]
}

/// Row `c` needs nothing more for the closure.
pub open spec fn row_closed(g: Grammar, cs: Cores, tab: Seq<Vec<bool>>, pr: Seq<bool>, c: int) -> bool {
    let p = cs.list@[c].0 as int;
    let d = cs.list@[c].1 as int;
    pr[c] && d < body_of(g, p).len() && body_of(g, p)[d] >= g.spec_nt() ==> forall|q: int|
        0 <= q < g.spec_rules().len() && g.spec_rules()[q].head == body_of(g, p)[d] ==> #[trigger] q_closed(g, cs, tab, pr, c, q)
}

/// The table is closed: every present row needs nothing more.
pub open spec fn table_closed(g: Grammar, cs: Cores, tab: Seq<Vec<bool>>, pr: Seq<bool>) -> bool {
    forall|c: int| 0 <= c < cs.list@.len() ==> #[trigger] row_closed(g, cs, tab, pr, c)
}

/// Some item of the kernel `kv` (given as views) has core `(p, d)`.
pub open spec fn kv_core(kv: Seq<(usize, usize, Seq<bool>)>, p: int, d: int) -> bool {
    exists|m: int| 0 <= m < kv.len() && (#[trigger] kv[m]).0 == p && kv[m].1 == d
}

/// Some item of the kernel `kv` (given as views) has core `(p, d)` and lookahead `t`.
pub open spec fn kv_item(kv: Seq<(usize, usize, Seq<bool>)>, p: int, d: int, t: int) -> bool {
    exists|m: int| 0 <= m < kv.len() && (#[trigger] kv[m]).0 == p && kv[m].1 == d && kv[m].2[t]
}

/// Core `(p, d)` is in the closure of `kernel` after at most `n` closure steps.
pub open spec fn reach(g: Grammar, kernel: Seq<(usize, usize, Seq<bool>)>, n: nat, p: int, d: int) -> bool
    decreases n,
{
    if n == 0 {
        kv_core(kernel, p, d)
    } else {
        reach(g, kernel, (n - 1) as nat, p, d) || (d == 0 && 0 <= p < g.spec_rules().len()
            && exists|p2: int, d2: int|
            reach(g, kernel, (n - 1) as nat, p2, d2) && #[trigger] expected_of(g, p2, d2) == Some(
                g.spec_rules()[p].head,
            ))
    }
}

/// The lookahead `t` of core `(p, d)` is in the closure of `kernel` after at most `n`
/// closure steps: it is in the kernel, or `(p, d)` is `B -> · γ` added for an item
/// `A -> α · B β` of the closure and `t ∈ FIRST(β)`, or `β ⇒* ε` and `t` is a lookahead of
/// that item.
pub open spec fn reach_la(g: Grammar, kernel: Seq<(usize, usize, Seq<bool>)>, n: nat, p: int, d: int, t: int) -> bool
    decreases n,
{
    if n == 0 {
        kv_item(kernel, p, d, t)
    } else {
        reach_la(g, kernel, (n - 1) as nat, p, d, t) || (d == 0 && 0 <= p < g.spec_rules().len()
            && exists|p2: int, d2: int|
            #[trigger] reach(g, kernel, (n - 1) as nat, p2, d2) && expected_of(g, p2, d2) == Some(
                g.spec_rules()[p].head,
            ) && ((t != g.eps_id() && in_first_seq(g.spec_rules(), g.spec_nt(), rest_of(g, p2, d2), t as nat))
                || (prefix_nullable(g.spec_rules(), g.spec_nt(), rest_of(g, p2, d2), rest_of(g, p2, d2).len() as int)
                && reach_la(g, kernel, (n - 1) as nat, p2, d2, t))))
    }
}

/// Core `(p, d)` is in the closure of `kernel`.
pub open spec fn reached(g: Grammar, kernel: Seq<(usize, usize, Seq<bool>)>, p: int, d: int) -> bool {
    exists|n: nat| reach(g, kernel, n, p, d)
}

/// The lookahead `t` of core `(p, d)` is in the closure of `kernel`.
pub open spec fn reached_la(g: Grammar, kernel: Seq<(usize, usize, Seq<bool>)>, p: int, d: int, t: int) -> bool {
    exists|n: nat| reach_la(g, kernel, n, p, d, t)
}

/// Every present row and every flag of the table is in the closure of `kernel`.
pub open spec fn sound_tab(g: Grammar, cs: Cores, kernel: Seq<(usize, usize, Seq<bool>)>, tab: Seq<Vec<bool>>, pr: Seq<bool>) -> bool {
    &&& forall|c: int| 0 <= c < pr.len() && #[trigger] pr[c] ==> reached(g, kernel, cs.list@[c].0 as int, cs.list@[c].1 as int)
    &&& forall|c: int, t: int|
        0 <= c < tab.len() && 0 <= t < tab[c]@.len() && #[trigger] tab[c]@[t] ==> reached_la(
            g,
            kernel,
            cs.list@[c].0 as int,
            cs.list@[c].1 as int,
            t,
        )
}

proof fn lemma_reach_mono(g: Grammar, kernel: Seq<(usize, usize, Seq<bool>)>, n: nat, m: nat, p: int, d: int)
    requires
        n <= m,
        reach(g, kernel, n, p, d),
    ensures
        reach(g, kernel, m, p, d),
    decreases m - n,
{
    if n < m {
        lemma_reach_mono(g, kernel, n, (m - 1) as nat, p, d);
    }
}

proof fn lemma_reach_la_mono(g: Grammar, kernel: Seq<(usize, usize, Seq<bool>)>, n: nat, m: nat, p: int, d: int, t: int)
    requires
        n <= m,
        reach_la(g, kernel, n, p, d, t),
    ensures
        reach_la(g, kernel, m, p, d, t),
    decreases m - n,
{
    if n < m {
        lemma_reach_la_mono(g, kernel, n, (m - 1) as nat, p, d, t);
    }
}

/// An item of the closure before non-terminal `B` brings `B -> · γ` for production `q`.
proof fn lemma_reach_step(g: Grammar, kernel: Seq<(usize, usize, Seq<bool>)>, p: int, d: int, q: int)
    requires
        reached(g, kernel, p, d),
        0 <= q < g.spec_rules().len(),
        expected_of(g, p, d) == Some(g.spec_rules()[q].head),
    ensures
        reached(g, kernel, q, 0),
{
    let n = choose|n: nat| reach(g, kernel, n, p, d);
    let m: nat = n + 1;
    assert(reach(g, kernel, (m - 1) as nat, p, d));
    assert(reach(g, kernel, m, q, 0));
}

/// What the lookahead computation gives for item `(p, d)` is a lookahead of `B -> · γ`.
proof fn lemma_reach_la_step(g: Grammar, kernel: Seq<(usize, usize, Seq<bool>)>, p: int, d: int, q: int, t: int)
    requires
        reached(g, kernel, p, d),
        0 <= q < g.spec_rules().len(),
        expected_of(g, p, d) == Some(g.spec_rules()[q].head),
        (t != g.eps_id() && in_first_seq(g.spec_rules(), g.spec_nt(), rest_of(g, p, d), t as nat))
            || (prefix_nullable(g.spec_rules(), g.spec_nt(), rest_of(g, p, d), rest_of(g, p, d).len() as int)
            && reached_la(g, kernel, p, d, t)),
    ensures
        reached_la(g, kernel, q, 0, t),
{
    let n1 = choose|n: nat| reach(g, kernel, n, p, d);
    if t != g.eps_id() && in_first_seq(g.spec_rules(), g.spec_nt(), rest_of(g, p, d), t as nat) {
        assert(reach_la(g, kernel, n1 + 1, q, 0, t));
    } else {
        let n2 = choose|n: nat| reach_la(g, kernel, n, p, d, t);
        let m = if n1 < n2 { n2 } else { n1 };
        lemma_reach_mono(g, kernel, n1, m, p, d);
        lemma_reach_la_mono(g, kernel, n2, m, p, d, t);
        assert(reach_la(g, kernel, m + 1, q, 0, t));
    }
}

/// Closes a lookahead table: adds, until nothing changes, every item that a present item
/// asks for.
fn close_table(g: &Grammar, cs: &Cores, tab: &mut Vec<Vec<bool>>, pr: &mut Vec<bool>, kernel: Ghost<Seq<(usize, usize, Seq<bool>)>>)
    requires
        g.wf(),
        cores_wf(*g, *cs),
        table_shape(old(tab)@, g.spec_nt(), cs.list@.len()),
        old(pr)@.len() == cs.list@.len(),
        no_eps(*g, old(tab)@),
        sound_tab(*g, *cs, kernel@, old(tab)@, old(pr)@),
    ensures
        sound_tab(*g, *cs, kernel@, final(tab)@, final(pr)@),
        table_shape(final(tab)@, g.spec_nt(), cs.list@.len()),
        final(pr)@.len() == cs.list@.len(),
        no_eps(*g, final(tab)@),
        grows(old(tab)@, final(tab)@, old(pr)@, final(pr)@),
        table_closed(*g, *cs, final(tab)@, final(pr)@),
{
    let ghost tab0 = tab@;
    let ghost pr0 = pr@;
    let nt = g.n_terms();
    let eps = nt - 2;
    let rules = g.rules();
    let nc = cs.list.len();
    proof {
        lemma_count_table_le(tab@, nt as nat);
        lemma_count_row_le(pr@);
    }
    let mut changed = true;
    while changed
        invariant
            g.wf(),
            cores_wf(*g, *cs),
            nt == g.spec_nt(),
            eps == nt - 2,
            rules@ == g.spec_rules(),
            nc == cs.list@.len(),
            table_shape(tab@, nt as nat, nc as nat),
            pr@.len() == nc,
            no_eps(*g, tab@),
                sound_tab(*g, *cs, kernel@, tab@, pr@),
            grows(tab0, tab@, pr0, pr@),
            table_shape(tab0, nt as nat, nc as nat),
            pr0.len() == nc,
            count_table(tab@) <= nc * nt,
            count_row(pr@) <= nc,
            !changed ==> table_closed(*g, *cs, tab@, pr@),
        decreases nc * nt + nc - count_table(tab@) - count_row(pr@), if changed {
            1int
        } else {
            0int
        },
    {
        let ghost tab1 = tab@;
        let ghost pr1 = pr@;
        changed = false;
        let mut c: usize = 0;
        while c < nc
            invariant
                g.wf(),
                cores_wf(*g, *cs),
                nt == g.spec_nt(),
                eps == nt - 2,
                rules@ == g.spec_rules(),
                nc == cs.list@.len(),
                c <= nc,
                table_shape(tab@, nt as nat, nc as nat),
                pr@.len() == nc,
                no_eps(*g, tab@),
                sound_tab(*g, *cs, kernel@, tab@, pr@),
                grows(tab0, tab@, pr0, pr@),
                table_shape(tab0, nt as nat, nc as nat),
                pr0.len() == nc,
                count_table(tab@) <= nc * nt,
                count_row(pr@) <= nc,
                count_table(tab@) + count_row(pr@) >= count_table(tab1) + count_row(pr1),
                changed ==> count_table(tab@) + count_row(pr@) > count_table(tab1) + count_row(pr1),
                !changed ==> tab@ == tab1 && pr@ == pr1,
                !changed ==> forall|k: int| 0 <= k < c ==> #[trigger] row_closed(*g, *cs, tab@, pr@, k),
            decreases nc - c,
        {
            let (p, d) = cs.list[c];
            let body = &rules[p].body;
            if pr[c] && d < body.len() && body[d] >= nt {
                let b = body[d];
                let la = la_vec(g, p, d, &tab[c]);
                proof {
                    assert(reached(*g, kernel@, p as int, d as int));
                    assert forall|u: int| 0 <= u < nt && #[trigger] la@[u] implies (u != eps && in_first_seq(g.spec_rules(), nt as nat, rest_of(*g, p as int, d as int), u as nat)) || (prefix_nullable(g.spec_rules(), nt as nat, rest_of(*g, p as int, d as int), rest_of(*g, p as int, d as int).len() as int) && reached_la(*g, kernel@, p as int, d as int, u)) by {
                        if !(u != eps && in_first_seq(g.spec_rules(), nt as nat, rest_of(*g, p as int, d as int), u as nat)) {
                            assert(tab@[c as int]@[u]);
                        }
                    }
                }
                let mut q: usize = 0;
                while q < rules.len()
                    invariant
                        g.wf(),
                        cores_wf(*g, *cs),
                        nt == g.spec_nt(),
                        eps == nt - 2,
                        rules@ == g.spec_rules(),
                        nc == cs.list@.len(),
                        c < nc,
                        p == cs.list@[c as int].0,
                        d == cs.list@[c as int].1,
                        p < rules@.len(),
                        d < body_of(*g, p as int).len(),
                        b == body_of(*g, p as int)[d as int],
                        q <= rules@.len(),
                        la@.len() == nt,
                        table_shape(tab@, nt as nat, nc as nat),
                        pr@.len() == nc,
                        pr@[c as int],
                        !changed ==> forall|t: int| 0 <= t < nt ==> (#[trigger] la@[t] <==> la_first(*g, rest_of(*g, p as int, d as int), tab@[c as int]@, t as nat)),
                        forall|t: int| 0 <= t < nt ==> (#[trigger] la@[t] ==> t != eps),
                        forall|u: int| 0 <= u < nt && #[trigger] la@[u] ==> (u != eps && in_first_seq(g.spec_rules(), nt as nat, rest_of(*g, p as int, d as int), u as nat)) || (prefix_nullable(g.spec_rules(), nt as nat, rest_of(*g, p as int, d as int), rest_of(*g, p as int, d as int).len() as int) && reached_la(*g, kernel@, p as int, d as int, u)),
                        reached(*g, kernel@, p as int, d as int),
                        expected_of(*g, p as int, d as int) == Some(b),
                        no_eps(*g, tab@),
                sound_tab(*g, *cs, kernel@, tab@, pr@),
                        grows(tab0, tab@, pr0, pr@),
                        table_shape(tab0, nt as nat, nc as nat),
                        pr0.len() == nc,
                        count_table(tab@) <= nc * nt,
                        count_row(pr@) <= nc,
                        count_table(tab@) + count_row(pr@) >= count_table(tab1) + count_row(pr1),
                        changed ==> count_table(tab@) + count_row(pr@) > count_table(tab1) + count_row(pr1),
                        !changed ==> tab@ == tab1 && pr@ == pr1,
                        !changed ==> forall|k: int| 0 <= k < c ==> #[trigger] row_closed(*g, *cs, tab@, pr@, k),
                        !changed ==> forall|z: int| 0 <= z < q && g.spec_rules()[z].head == b ==> #[trigger] q_closed(*g, *cs, tab@, pr@, c as int, z),
                    decreases rules@.len() - q,
                {
                    if rules[q].head == b {
                        let r0 = cs.start[q];
                        proof {
                            assert(core_at(cs.list@, cs.start@, q as int, 0));
                            assert(cs.list@[r0 as int] == (q, 0usize));
                        }
                        let mut t: usize = 0;
                        while t < nt
                            invariant
                                g.wf(),
                                nt == g.spec_nt(),
                                eps == nt - 2,
                                nc == cs.list@.len(),
                                r0 < nc,
                                c < nc,
                                t <= nt,
                                la@.len() == nt,
                                table_shape(tab@, nt as nat, nc as nat),
                                pr@.len() == nc,
                                pr@[c as int],
                                forall|u: int| 0 <= u < nt ==> (#[trigger] la@[u] ==> u != eps),
                                forall|u: int| 0 <= u < nt && #[trigger] la@[u] ==> (u != eps && in_first_seq(g.spec_rules(), nt as nat, rest_of(*g, p as int, d as int), u as nat)) || (prefix_nullable(g.spec_rules(), nt as nat, rest_of(*g, p as int, d as int), rest_of(*g, p as int, d as int).len() as int) && reached_la(*g, kernel@, p as int, d as int, u)),
                                reached(*g, kernel@, p as int, d as int),
                                expected_of(*g, p as int, d as int) == Some(b),
                                q < g.spec_rules().len(),
                                g.spec_rules()[q as int].head == b,
                                r0 == cs.start@[q as int],
                                cs.list@[r0 as int] == (q, 0usize),

                                no_eps(*g, tab@),
                sound_tab(*g, *cs, kernel@, tab@, pr@),
                                grows(tab0, tab@, pr0, pr@),
                                table_shape(tab0, nt as nat, nc as nat),
                                pr0.len() == nc,
                                count_table(tab@) <= nc * nt,
                                count_row(pr@) <= nc,
                                count_table(tab@) + count_row(pr@) >= count_table(tab1) + count_row(pr1),
                                changed ==> count_table(tab@) + count_row(pr@) > count_table(tab1) + count_row(pr1),
                                !changed ==> tab@ == tab1 && pr@ == pr1,
                                forall|u: int| 0 <= u < t && la@[u] ==> #[trigger] tab@[r0 as int]@[u],
                                p < g.spec_rules().len(),
                                d < body_of(*g, p as int).len(),
                                !changed ==> forall|u: int| 0 <= u < nt ==> (#[trigger] la@[u] <==> la_first(*g, rest_of(*g, p as int, d as int), tab@[c as int]@, u as nat)),
                                !changed ==> forall|k: int| 0 <= k < c ==> #[trigger] row_closed(*g, *cs, tab@, pr@, k),
                                !changed ==> forall|z: int| 0 <= z < q && g.spec_rules()[z].head == b ==> #[trigger] q_closed(*g, *cs, tab@, pr@, c as int, z),
                            decreases nt - t,
                        {
                            if la[t] && !cell(tab, r0, t) {
                                let ghost tb = tab@;
                                proof {
                                    lemma_count_row_set(tb[r0 as int]@, t as int);
                                }
                                set_cell(tab, r0, t);
                                proof {
                                    lemma_count_table_update(tb, r0 as int, tab@[r0 as int]);
                                    lemma_count_table_le(tab@, nt as nat);
                                    assert forall|x: int, u: int| 0 <= x < tab0.len() && 0 <= u < tab0[x]@.len() && #[trigger] tab0[x]@[u] implies tab@[x]@[u] by {
                                        assert(tb[x]@[u]);
                                    }
                                    assert forall|x: int| 0 <= x < tab@.len() implies !(#[trigger] tab@[x])@[g.eps_id() as int] by {
                                        if x != r0 {
                                            assert(tab@[x] == tb[x]);
                                        }
                                    }
                                    lemma_reach_la_step(*g, kernel@, p as int, d as int, q as int, t as int);
                                    assert forall|x: int, u: int| 0 <= x < tab@.len() && 0 <= u < tab@[x]@.len() && #[trigger] tab@[x]@[u] implies reached_la(*g, kernel@, cs.list@[x].0 as int, cs.list@[x].1 as int, u) by {
                                        if x != r0 || u != t {
                                            assert(tb[x]@[u]);
                                        }
                                    }
                                }
                                changed = true;
                            }
                            t = t + 1;
                        }
                        if !pr[r0] {
                            let ghost pb = pr@;
                            proof {
                                lemma_count_row_set(pb, r0 as int);
                            }
                            pr.set(r0, true);
                            proof {
                                lemma_count_row_le(pr@);
                                lemma_reach_step(*g, kernel@, p as int, d as int, q as int);
                                assert forall|x: int| 0 <= x < pr@.len() && #[trigger] pr@[x] implies reached(*g, kernel@, cs.list@[x].0 as int, cs.list@[x].1 as int) by {
                                    if x != r0 {
                                        assert(pb[x]);
                                    }
                                }
                                assert forall|x: int| 0 <= x < pr0.len() && #[trigger] pr0[x] implies pr@[x] by {
                                    assert(pb[x]);
                                }
                            }
                            changed = true;
                        }
                        proof {
                            if !changed {
                                assert forall|u: int| 0 <= u < g.spec_nt() && la_first(*g, rest_of(*g, p as int, d as int), tab@[c as int]@, u as nat) implies #[trigger] tab@[r0 as int]@[u] by {
                                    assert(la@[u]);
                                }
                                assert(q_closed(*g, *cs, tab@, pr@, c as int, q as int));
                            }
                        }
                    }
                    q = q + 1;
                }
                proof {
                    if !changed {
                        assert(row_closed(*g, *cs, tab@, pr@, c as int));
                    }
                }
            }
            c = c + 1;
        }
    }
}

/// What an item is, as data.
pub open spec fn item_view(it: Item) -> (usize, usize, Seq<bool>) {
    (it.prod, it.dot, it.look@)
}

pub open spec fn items_view(s: Seq<Item>) -> Seq<(usize, usize, Seq<bool>)> {
    s.map_values(|it: Item| item_view(it))
}

/// Some item of `s` has core `(p, d)`.
pub open spec fn has_core(s: Seq<Item>, p: int, d: int) -> bool {
    exists|m: int| 0 <= m < s.len() && (#[trigger] s[m]).prod == p && s[m].dot == d
}

/// Some item of `s` has core `(p, d)` and lookahead `t`.
pub open spec fn has_item(s: Seq<Item>, p: int, d: int, t: int) -> bool {
    exists|m: int| 0 <= m < s.len() && (#[trigger] s[m]).prod == p && s[m].dot == d && s[m].look@[t]
}

/// No two items share a core: they stand in strictly increasing core order.
pub open spec fn merged(s: Seq<Item>) -> bool {
    forall|i: int, j: int|
        0 <= i < j < s.len() ==> core_lt(
            ((#[trigger] s[i]).prod, s[i].dot),
            ((#[trigger] s[j]).prod, s[j].dot),
        )
}

/// Closed: for every item `A -> α · B β, L` and every production `B -> γ`, the item
/// `B -> · γ` is there, with every lookahead of `FIRST(β L)`.
pub open spec fn items_closed(g: Grammar, s: Seq<Item>) -> bool {
    forall|k: int, q: int|
        0 <= k < s.len() && 0 <= q < g.spec_rules().len() && (#[trigger] expected_of(
            g,
            s[k].prod as int,
            s[k].dot as int,
        )) == Some(g.spec_rules()[q].head) && g.spec_rules()[q].head >= g.spec_nt()
            ==> #[trigger] has_core(s, q, 0) && forall|t: int|
            0 <= t < g.spec_nt() && la_first(
                g,
                rest_of(g, s[k].prod as int, s[k].dot as int),
                s[k].look@,
                t as nat,
            ) ==> #[trigger] has_item(s, q, 0, t)
}

/// Every item of `s` is an item of `g`.
pub open spec fn all_items_wf(g: Grammar, s: Seq<Item>) -> bool {
    forall|k: int| 0 <= k < s.len() ==> item_wf(g, #[trigger] s[k])
}

/// Every item of the kernel `kv`, with each of its lookaheads, is in `s`.
pub open spec fn holds_kernel(g: Grammar, s: Seq<Item>, kv: Seq<(usize, usize, Seq<bool>)>) -> bool {
    forall|m: int|
        0 <= m < kv.len() ==> has_core(s, (#[trigger] kv[m]).0 as int, kv[m].1 as int) && forall|t: int|
            0 <= t < g.spec_nt() && kv[m].2[t] ==> has_item(s, kv[m].0 as int, kv[m].1 as int, t)
}

/// A set that covers a kernel of items of `g` holds that kernel.
pub proof fn lemma_covers_holds(g: Grammar, r: Seq<Item>, kernel: Seq<Item>)
    requires
        all_items_wf(g, kernel),
        covers(r, kernel),
    ensures
        holds_kernel(g, r, items_view(kernel)),
{
    assert forall|m: int| 0 <= m < items_view(kernel).len() implies has_core(r, (#[trigger] items_view(kernel)[m]).0 as int, items_view(kernel)[m].1 as int) && forall|t: int|
        0 <= t < g.spec_nt() && items_view(kernel)[m].2[t] ==> has_item(r, items_view(kernel)[m].0 as int, items_view(kernel)[m].1 as int, t) by {
        assert(items_view(kernel)[m] == item_view(kernel[m]));
        assert(item_wf(g, kernel[m]));
    }
}

/// Every lookahead of every item of `kernel` is in `s`, under the same core.
pub open spec fn covers(s: Seq<Item>, kernel: Seq<Item>) -> bool {
    forall|k: int|
        0 <= k < kernel.len() ==> has_core(s, (#[trigger] kernel[k]).prod as int, kernel[k].dot as int)
            && forall|t: int| 0 <= t < kernel[k].look@.len() && kernel[k].look@[t] ==> has_item(s, kernel[k].prod as int, kernel[k].dot as int, t)
}

/// Row `c` of the table is item `it`.
pub open spec fn row_is(cs: Cores, tab: Seq<Vec<bool>>, pr: Seq<bool>, c: int, it: Item) -> bool {
    &&& 0 <= c < pr.len()
    &&& pr[c]
    &&& cs.list@[c] == (it.prod, it.dot)
    &&& it.look@ == tab[c]@
}

/// `it` is some present row of the table.
pub open spec fn from_row(cs: Cores, tab: Seq<Vec<bool>>, pr: Seq<bool>, it: Item) -> bool {
    exists|c: int| #[trigger] row_is(cs, tab, pr, c, it)
}

/// A copy of a list of flags.
pub fn copy_flags(v: &Vec<bool>) -> (r: Vec<bool>)
    ensures
        r@ == v@,
{
    let mut r: Vec<bool> = Vec::new();
    let mut i: usize = 0;
    while i < v.len()
        invariant
            i <= v@.len(),
            r@ == v@.subrange(0, i as int),
        decreases v@.len() - i,
    {
        r.push(v[i]);
        i = i + 1;
        assert(r@ =~= v@.subrange(0, i as int));
    }
    assert(v@.subrange(0, i as int) =~= v@);
    r
}

/// The present rows of a table, in row order, as items.
fn items_of_table(g: &Grammar, cs: &Cores, tab: &Vec<Vec<bool>>, pr: &Vec<bool>) -> (r: Vec<Item>)
    requires
        g.wf(),
        cores_wf(*g, *cs),
        table_shape(tab@, g.spec_nt(), cs.list@.len()),
        pr@.len() == cs.list@.len(),
        no_eps(*g, tab@),
    ensures
        merged(r@),
        all_items_wf(*g, r@),
        forall|k: int| 0 <= k < r@.len() ==> #[trigger] from_row(*cs, tab@, pr@, r@[k]),
        forall|c: int| 0 <= c < pr@.len() && pr@[c] ==> exists|k: int| 0 <= k < r@.len() && #[trigger] row_is(*cs, tab@, pr@, c, r@[k]),
{
    let mut r: Vec<Item> = Vec::new();
    let mut c: usize = 0;
    let ghost mut rows: Seq<int> = Seq::empty();
    while c < pr.len()
        invariant
            g.wf(),
            cores_wf(*g, *cs),
            table_shape(tab@, g.spec_nt(), cs.list@.len()),
            pr@.len() == cs.list@.len(),
            no_eps(*g, tab@),
            c <= pr@.len(),
            rows.len() == r@.len(),
            forall|k: int| 0 <= k < r@.len() ==> 0 <= #[trigger] rows[k] < c && row_is(*cs, tab@, pr@, rows[k], r@[k]),
            forall|k1: int, k2: int| 0 <= k1 < k2 < r@.len() ==> #[trigger] rows[k1] < #[trigger] rows[k2],
            forall|x: int| 0 <= x < c && pr@[x] ==> exists|k: int| 0 <= k < r@.len() && #[trigger] row_is(*cs, tab@, pr@, x, r@[k]),
            all_items_wf(*g, r@),
        decreases pr@.len() - c,
    {
        if pr[c] {
            let (p, d) = cs.list[c];
            let look = copy_flags(&tab[c]);
            let it = Item { prod: p, dot: d, look };
            let ghost r0 = r@;
            r.push(it);
            proof {
                rows = rows.push(c as int);
                assert(row_is(*cs, tab@, pr@, c as int, r@[r@.len() - 1]));
                assert forall|x: int| 0 <= x < c + 1 && pr@[x] implies exists|k: int| 0 <= k < r@.len() && #[trigger] row_is(*cs, tab@, pr@, x, r@[k]) by {
                    if x < c {
                        let k = choose|k: int| 0 <= k < r0.len() && #[trigger] row_is(*cs, tab@, pr@, x, r0[k]);
                        assert(r@[k] == r0[k]);
                    }
                }
                assert forall|k: int| 0 <= k < r@.len() implies 0 <= #[trigger] rows[k] < c + 1 && row_is(*cs, tab@, pr@, rows[k], r@[k]) by {
                    if k < r0.len() {
                        assert(r@[k] == r0[k]);
                    }
                }
            }
        }
        c = c + 1;
    }
    proof {
        assert forall|i: int, j: int| 0 <= i < j < r@.len() implies core_lt(
            ((#[trigger] r@[i]).prod, r@[i].dot),
            ((#[trigger] r@[j]).prod, r@[j].dot),
        ) by {
            assert(rows[i] < rows[j]);
            assert(core_lt(cs.list@[rows[i]], cs.list@[rows[j]]));
        }
        assert forall|k: int| 0 <= k < r@.len() implies #[trigger] from_row(*cs, tab@, pr@, r@[k]) by {
            assert(row_is(*cs, tab@, pr@, rows[k], r@[k]));
        }
    }
    r
}

/// A table with `rows` rows of `width` unset flags.
fn empty_table(rows: usize, width: usize) -> (r: Vec<Vec<bool>>)
    ensures
        table_shape(r@, width as nat, rows as nat),
        forall|c: int, t: int| 0 <= c < rows && 0 <= t < width ==> !(#[trigger] r@[c]@[t]),
{
    let mut r: Vec<Vec<bool>> = Vec::new();
    let mut c: usize = 0;
    while c < rows
        invariant
            c <= rows,
            r@.len() == c,
            forall|x: int| 0 <= x < c ==> (#[trigger] r@[x])@.len() == width,
            forall|x: int, t: int| 0 <= x < c && 0 <= t < width ==> !(#[trigger] r@[x]@[t]),
        decreases rows - c,
    {
        r.push(empty_flags(width));
        c = c + 1;
    }
    r
}

/// `n` unset flags.
pub fn empty_flags(n: usize) -> (r: Vec<bool>)
    ensures
        r@.len() == n,
        forall|t: int| 0 <= t < n ==> !(#[trigger] r@[t]),
{
    let mut r: Vec<bool> = Vec::new();
    let mut t: usize = 0;
    while t < n
        invariant
            t <= n,
            r@.len() == t,
            forall|u: int| 0 <= u < t ==> !(#[trigger] r@[u]),
        decreases n - t,
    {
        r.push(false);
        t = t + 1;
    }
    r
}

/// The closure of a set of items: the least additions under which it is closed, merged so
/// that no two items share a core, in core order.
pub fn closure(g: &Grammar, cs: &Cores, kernel: &Vec<Item>) -> (r: Vec<Item>)
    requires
        g.wf(),
        cores_wf(*g, *cs),
        all_items_wf(*g, kernel@),
    ensures
        merged(r@),
        all_items_wf(*g, r@),
        items_closed(*g, r@),
        covers(r@, kernel@),
        forall|k: int| 0 <= k < r@.len() ==> #[trigger] in_closure(*g, items_view(kernel@), r@[k]),
{
    let nt = g.n_terms();
    let nc = cs.list.len();
    let mut tab = empty_table(nc, nt);
    let mut pr = empty_flags(nc);
    let mut k: usize = 0;
    while k < kernel.len()
        invariant
            g.wf(),
            cores_wf(*g, *cs),
            all_items_wf(*g, kernel@),
            nt == g.spec_nt(),
            nc == cs.list@.len(),
            k <= kernel@.len(),
            table_shape(tab@, nt as nat, nc as nat),
            pr@.len() == nc,
            no_eps(*g, tab@),
            sound_tab(*g, *cs, items_view(kernel@), tab@, pr@),
            forall|j: int| 0 <= j < k ==> #[trigger] kernel_in(*cs, tab@, pr@, kernel@[j]),
        decreases kernel@.len() - k,
    {
        let it = &kernel[k];
        proof {
            assert(item_wf(*g, kernel@[k as int]));
            assert(core_at(cs.list@, cs.start@, it.prod as int, it.dot as int));
        }
        let row = cs.start[it.prod] + it.dot;
        let ghost t0 = tab@;
        let ghost p0 = pr@;
        pr.set(row, true);
        assert(cs.list@[row as int] == (it.prod, it.dot));
        proof {
            assert(reach(*g, items_view(kernel@), 0, it.prod as int, it.dot as int)) by {
                assert(kernel@[k as int] == *it);
                assert(items_view(kernel@)[k as int] == item_view(*it));
            }
            assert forall|x: int| 0 <= x < pr@.len() && #[trigger] pr@[x] implies reached(*g, items_view(kernel@), cs.list@[x].0 as int, cs.list@[x].1 as int) by {
                if x != row {
                    assert(p0[x]);
                }
            }
        }
        let mut t: usize = 0;
        while t < nt
            invariant
                g.wf(),
                nt == g.spec_nt(),
                nc == cs.list@.len(),
                row < nc,
                t <= nt,
                it.look@.len() == nt,
                !it.look@[g.eps_id() as int],
                table_shape(tab@, nt as nat, nc as nat),
                table_shape(t0, nt as nat, nc as nat),
                no_eps(*g, tab@),
                forall|x: int, u: int| 0 <= x < nc && 0 <= u < nt && #[trigger] t0[x]@[u] ==> tab@[x]@[u],
                forall|u: int| 0 <= u < t && it.look@[u] ==> #[trigger] tab@[row as int]@[u],
                pr@.len() == nc,
                pr@[row as int],
                p0.len() == nc,
                forall|x: int| 0 <= x < nc && #[trigger] p0[x] ==> pr@[x],
                cs.list@[row as int] == (it.prod, it.dot),
                k < kernel@.len(),
                *it == kernel@[k as int],
                sound_tab(*g, *cs, items_view(kernel@), tab@, pr@),
            decreases nt - t,
        {
            if it.look[t] {
                let ghost tb = tab@;
                set_cell(&mut tab, row, t);
                proof {
                    assert forall|x: int| 0 <= x < tab@.len() implies !(#[trigger] tab@[x])@[g.eps_id() as int] by {
                        if x != row {
                            assert(tab@[x] == tb[x]);
                        }
                    }
                    assert forall|x: int, u: int| 0 <= x < nc && 0 <= u < nt && #[trigger] t0[x]@[u] implies tab@[x]@[u] by {
                        assert(tb[x]@[u]);
                    }
                    assert(items_view(kernel@)[k as int] == item_view(*it));
                    assert(reach_la(*g, items_view(kernel@), 0, it.prod as int, it.dot as int, t as int));
                    assert forall|x: int, u: int| 0 <= x < tab@.len() && 0 <= u < tab@[x]@.len() && #[trigger] tab@[x]@[u] implies reached_la(*g, items_view(kernel@), cs.list@[x].0 as int, cs.list@[x].1 as int, u) by {
                        if x != row || u != t {
                            assert(tb[x]@[u]);
                        }
                    }
                }
            }
            t = t + 1;
        }
        proof {
            assert(*it == kernel@[k as int]);
            assert(kernel_row(*cs, tab@, pr@, row as int, kernel@[k as int]));
            assert(kernel_in(*cs, tab@, pr@, kernel@[k as int]));
            assert forall|j: int| 0 <= j < k + 1 implies #[trigger] kernel_in(*cs, tab@, pr@, kernel@[j]) by {
                if j < k {
                    assert(kernel_in(*cs, t0, p0, kernel@[j]));
                    let c = choose|c: int| kernel_row(*cs, t0, p0, c, kernel@[j]);
                    assert(pr@[c]);
                    assert forall|u: int| 0 <= u < kernel@[j].look@.len() && kernel@[j].look@[u] implies #[trigger] tab@[c]@[u] by {
                        assert(t0[c]@[u]);
                    }
                    assert(kernel_row(*cs, tab@, pr@, c, kernel@[j]));
                }
            }
        }
        k = k + 1;
    }
    let ghost tab1 = tab@;
    let ghost pr1 = pr@;
    close_table(g, cs, &mut tab, &mut pr, Ghost(items_view(kernel@)));
    let r = items_of_table(g, cs, &tab, &pr);
    proof {
        assert forall|k: int| 0 <= k < r@.len() implies #[trigger] in_closure(*g, items_view(kernel@), r@[k]) by {
            assert(from_row(*cs, tab@, pr@, r@[k]));
            let c = choose|c: int| #[trigger] row_is(*cs, tab@, pr@, c, r@[k]);
            assert(pr@[c]);
            assert forall|t: int| 0 <= t < g.spec_nt() && r@[k].look@[t] implies reached_la(*g, items_view(kernel@), r@[k].prod as int, r@[k].dot as int, t) by {
                assert(tab@[c]@[t]);
            }
        }
        assert forall|j: int| 0 <= j < kernel@.len() implies has_core(r@, (#[trigger] kernel@[j]).prod as int, kernel@[j].dot as int)
            && forall|t: int| 0 <= t < kernel@[j].look@.len() && kernel@[j].look@[t] ==> has_item(r@, kernel@[j].prod as int, kernel@[j].dot as int, t) by {
            assert(kernel_in(*cs, tab1, pr1, kernel@[j]));
            let c = choose|c: int| kernel_row(*cs, tab1, pr1, c, kernel@[j]);
            assert(pr@[c]);
            let m = choose|m: int| 0 <= m < r@.len() && #[trigger] row_is(*cs, tab@, pr@, c, r@[m]);
            assert forall|t: int| 0 <= t < kernel@[j].look@.len() && kernel@[j].look@[t] implies has_item(r@, kernel@[j].prod as int, kernel@[j].dot as int, t) by {
                assert(tab1[c]@[t]);
                assert(r@[m].look@[t]);
            }
        }
        assert forall|k: int, q: int|
            0 <= k < r@.len() && 0 <= q < g.spec_rules().len() && (#[trigger] expected_of(
                *g,
                r@[k].prod as int,
                r@[k].dot as int,
            )) == Some(g.spec_rules()[q].head) && g.spec_rules()[q].head >= g.spec_nt()
                implies #[trigger] has_core(r@, q, 0) && forall|t: int|
                0 <= t < g.spec_nt() && la_first(
                    *g,
                    rest_of(*g, r@[k].prod as int, r@[k].dot as int),
                    r@[k].look@,
                    t as nat,
                ) ==> #[trigger] has_item(r@, q, 0, t) by {
            assert(from_row(*cs, tab@, pr@, r@[k]));
            let c = choose|c: int| #[trigger] row_is(*cs, tab@, pr@, c, r@[k]);
            assert(row_closed(*g, *cs, tab@, pr@, c));
            assert(q_closed(*g, *cs, tab@, pr@, c, q));
            assert(core_at(cs.list@, cs.start@, q, 0));
            let r0 = cs.start@[q];
            let m = choose|m: int| 0 <= m < r@.len() && #[trigger] row_is(*cs, tab@, pr@, r0 as int, r@[m]);
            assert(r@[m].prod == q && r@[m].dot == 0);
            assert forall|t: int| 0 <= t < g.spec_nt() && la_first(
                    *g,
                    rest_of(*g, r@[k].prod as int, r@[k].dot as int),
                    r@[k].look@,
                    t as nat,
                ) implies #[trigger] has_item(r@, q, 0, t) by {
                assert(tab@[r0 as int]@[t]);
                assert(r@[m].look@[t]);
            }
        }
    }
    r
}

/// Item `it` and each of its lookaheads are in the closure of `kernel`.
pub open spec fn in_closure(g: Grammar, kernel: Seq<(usize, usize, Seq<bool>)>, it: Item) -> bool {
    &&& reached(g, kernel, it.prod as int, it.dot as int)
    &&& forall|t: int| 0 <= t < g.spec_nt() && it.look@[t] ==> reached_la(g, kernel, it.prod as int, it.dot as int, t)
}

/// Row `c` holds the core of `it` and at least its lookaheads.
pub open spec fn kernel_row(cs: Cores, tab: Seq<Vec<bool>>, pr: Seq<bool>, c: int, it: Item) -> bool {
    &&& 0 <= c < pr.len()
    &&& pr[c]
    &&& cs.list@[c] == (it.prod, it.dot)
    &&& forall|t: int| 0 <= t < it.look@.len() && it.look@[t] ==> #[trigger] tab[c]@[t]
}

/// Some row holds the core of `it` and at least its lookaheads.
pub open spec fn kernel_in(cs: Cores, tab: Seq<Vec<bool>>, pr: Seq<bool>, it: Item) -> bool {
    exists|c: int| kernel_row(cs, tab, pr, c, it)
}

/// The items of `s` with the dot before `x`, moved past it, as views: the kernel of
/// `GOTO(s, x)`.
pub open spec fn moved_views(g: Grammar, s: Seq<Item>, x: nat) -> Seq<(usize, usize, Seq<bool>)>
    decreases s.len(),
{
    if s.len() == 0 {
        Seq::empty()
    } else if expected_of(g, s.last().prod as int, s.last().dot as int) == Some(x as usize) {
        moved_views(g, s.drop_last(), x).push((s.last().prod, (s.last().dot + 1) as usize, s.last().look@))
    } else {
        moved_views(g, s.drop_last(), x)
    }
}

/// Every item of `j`, with each of its lookaheads, is in the closure of the kernel `kv`.
pub open spec fn all_in_closure(g: Grammar, kv: Seq<(usize, usize, Seq<bool>)>, j: Seq<Item>) -> bool {
    forall|k: int| 0 <= k < j.len() ==> #[trigger] in_closure(g, kv, j[k])
}

/// The items of `i` with the dot before `x`, moved past it: `J` holds each with its lookaheads.
pub open spec fn covers_moved(g: Grammar, i: Seq<Item>, x: nat, j: Seq<Item>) -> bool {
    forall|k: int|
        0 <= k < i.len() && #[trigger] expected_of(g, i[k].prod as int, i[k].dot as int) == Some(x as usize)
            ==> has_core(j, i[k].prod as int, i[k].dot + 1) && forall|t: int|
            0 <= t < i[k].look@.len() && i[k].look@[t] ==> has_item(j, i[k].prod as int, i[k].dot + 1, t)
}

/// Some item of `i` has the dot before `x`.
pub open spec fn expects(g: Grammar, i: Seq<Item>, x: nat) -> bool {
    exists|k: int| 0 <= k < i.len() && #[trigger] expected_of(g, i[k].prod as int, i[k].dot as int) == Some(x as usize)
}

/// Two lists of items agree item by item.
pub open spec fn same_items(a: Seq<Item>, b: Seq<Item>) -> bool {
    &&& a.len() == b.len()
    &&& forall|k: int| 0 <= k < a.len() ==> #[trigger] item_view(a[k]) == item_view(b[k])
}

/// Whether two lists of flags are equal.
fn flags_eq(a: &Vec<bool>, b: &Vec<bool>) -> (r: bool)
    ensures
        r == (a@ == b@),
{
    if a.len() != b.len() {
        return false;
    }
    let mut i: usize = 0;
    while i < a.len()
        invariant
            i <= a@.len(),
            a@.len() == b@.len(),
            forall|k: int| 0 <= k < i ==> a@[k] == b@[k],
        decreases a@.len() - i,
    {
        if a[i] != b[i] {
            return false;
        }
        i = i + 1;
    }
    assert(a@ =~= b@);
    true
}

/// Whether two lists of items agree item by item.
fn items_eq(a: &Vec<Item>, b: &Vec<Item>) -> (r: bool)
    ensures
        r == same_items(a@, b@),
{
    if a.len() != b.len() {
        return false;
    }
    let mut i: usize = 0;
    while i < a.len()
        invariant
            i <= a@.len(),
            a@.len() == b@.len(),
            forall|k: int| 0 <= k < i ==> #[trigger] item_view(a@[k]) == item_view(b@[k]),
        decreases a@.len() - i,
    {
        if a[i].prod != b[i].prod || a[i].dot != b[i].dot || !flags_eq(&a[i].look, &b[i].look) {
            assert(item_view(a@[i as int]) != item_view(b@[i as int]));
            return false;
        }
        i = i + 1;
    }
    true
}

proof fn lemma_same_items(g: Grammar, i: Seq<Item>, x: nat, a: Seq<Item>, b: Seq<Item>)
    requires
        same_items(a, b),
        covers_moved(g, i, x, a),
        all_in_closure(g, moved_views(g, i, x), a),
        holds_kernel(g, a, moved_views(g, i, x)),
        merged(a),
        all_items_wf(g, a),
        items_closed(g, a),
    ensures
        covers_moved(g, i, x, b),
        all_in_closure(g, moved_views(g, i, x), b),
        holds_kernel(g, b, moved_views(g, i, x)),
        merged(b),
        all_items_wf(g, b),
        items_closed(g, b),
{
    assert forall|p: int, d: int| has_core(a, p, d) implies has_core(b, p, d) by {
        let m = choose|m: int| 0 <= m < a.len() && (#[trigger] a[m]).prod == p && a[m].dot == d;
        assert(item_view(a[m]) == item_view(b[m]));
    }
    assert forall|p: int, d: int, t: int| has_item(a, p, d, t) implies has_item(b, p, d, t) by {
        let m = choose|m: int| 0 <= m < a.len() && (#[trigger] a[m]).prod == p && a[m].dot == d && a[m].look@[t];
        assert(item_view(a[m]) == item_view(b[m]));
    }
    assert forall|k1: int, k2: int| 0 <= k1 < k2 < b.len() implies core_lt(
        ((#[trigger] b[k1]).prod, b[k1].dot),
        ((#[trigger] b[k2]).prod, b[k2].dot),
    ) by {
        assert(item_view(a[k1]) == item_view(b[k1]));
        assert(item_view(a[k2]) == item_view(b[k2]));
    }
    assert forall|k: int| 0 <= k < b.len() implies #[trigger] in_closure(g, moved_views(g, i, x), b[k]) by {
        assert(item_view(a[k]) == item_view(b[k]));
        assert(in_closure(g, moved_views(g, i, x), a[k]));
    }
    let kv = moved_views(g, i, x);
    assert forall|m: int| 0 <= m < kv.len() implies has_core(b, (#[trigger] kv[m]).0 as int, kv[m].1 as int) && forall|t: int|
        0 <= t < g.spec_nt() && kv[m].2[t] ==> has_item(b, kv[m].0 as int, kv[m].1 as int, t) by {
        assert(has_core(a, kv[m].0 as int, kv[m].1 as int));
    }
    assert forall|k: int| 0 <= k < b.len() implies item_wf(g, #[trigger] b[k]) by {
        assert(item_view(a[k]) == item_view(b[k]));
        assert(item_wf(g, a[k]));
    }
    assert forall|k: int, q: int|
        0 <= k < b.len() && 0 <= q < g.spec_rules().len() && (#[trigger] expected_of(
            g,
            b[k].prod as int,
            b[k].dot as int,
        )) == Some(g.spec_rules()[q].head) && g.spec_rules()[q].head >= g.spec_nt()
            implies #[trigger] has_core(b, q, 0) && forall|t: int|
            0 <= t < g.spec_nt() && la_first(
                g,
                rest_of(g, b[k].prod as int, b[k].dot as int),
                b[k].look@,
                t as nat,
            ) ==> #[trigger] has_item(b, q, 0, t) by {
        assert(item_view(a[k]) == item_view(b[k]));
        assert(expected_of(g, a[k].prod as int, a[k].dot as int) == Some(g.spec_rules()[q].head));
        assert(has_core(a, q, 0));
        assert forall|t: int|
            0 <= t < g.spec_nt() && la_first(
                g,
                rest_of(g, b[k].prod as int, b[k].dot as int),
                b[k].look@,
                t as nat,
            ) implies #[trigger] has_item(b, q, 0, t) by {
            assert(has_item(a, q, 0, t));
        }
    }
}

/// A closed, merged item set: one state of the canonical collection.
#[derive(Debug)]
pub struct ItemSet {
    items: Vec<Item>,
}

impl PartialEq for ItemSet {
    fn eq(&self, other: &ItemSet) -> (r: bool) {
        items_eq(&self.items, &other.items)
    }
}

impl vstd::std_specs::cmp::PartialEqSpecImpl for ItemSet {
    open spec fn obeys_eq_spec() -> bool {
        true
    }

    open spec fn eq_spec(&self, other: &ItemSet) -> bool {
        same_items(self.spec_items(), other.spec_items())
    }
}

impl ItemSet {
    pub closed spec fn spec_items(&self) -> Seq<Item> {
        self.items@
    }

    /// Merged, closed, and made of items of `g`.
    pub open spec fn wf(&self, g: Grammar) -> bool {
        &&& merged(self.spec_items())
        &&& all_items_wf(g, self.spec_items())
        &&& items_closed(g, self.spec_items())
    }

    /// The items, in core order.
    pub fn items(&self) -> (r: &Vec<Item>)
        ensures
            r@ == self.spec_items(),
    {
        &self.items
    }

    /// The set `I₀`: the closure of `[Sprime -> · S, {eof}]`. Fails with
    /// `GrammarNotAugmented` unless the start symbol heads exactly one production.
    pub fn initial(g: &Grammar, cs: &Cores) -> (r: Result<ItemSet, Error>)
        requires
            g.wf(),
            cores_wf(*g, *cs),
        ensures
            r matches Ok(i) ==> i.wf(*g) && is_initial(*g, i.spec_items()),
            r is Err <==> !has_unique_start(*g),
            r matches Err(e) ==> e == Error::GrammarNotAugmented,
    {
        let rules = g.rules();
        let start = g.start_id();
        let mut found: Option<usize> = None;
        let mut count: usize = 0;
        let mut p: usize = 0;
        while p < rules.len()
            invariant
                rules@ == g.spec_rules(),
                start == g.spec_start_id(),
                p <= rules@.len(),
                count <= p,
                count == 0 <==> found is None,
                count == 0 ==> forall|q: int| 0 <= q < p ==> rules@[q].head != start,
                count == 1 ==> (found matches Some(f) && f < p && rules@[f as int].head == start
                    && forall|q: int| 0 <= q < p && rules@[q].head == start ==> q == f),
                count >= 2 ==> exists|a: int, b: int| 0 <= a < b < p && rules@[a].head == start && rules@[b].head == start,
            decreases rules@.len() - p,
        {
            if rules[p].head == start {
                if count == 1 {
                    proof {
                        let f = found->0;
                        assert(0 <= f < p && rules@[f as int].head == start);
                    }
                }
                if count < 2 {
                    count = count + 1;
                }
                if found.is_none() {
                    found = Some(p);
                }
            }
            p = p + 1;
        }
        if count != 1 {
            proof {
                if count >= 2 {
                    let (a, b) = choose|a: int, b: int| 0 <= a < b < p && rules@[a].head == start && rules@[b].head == start;
                    assert forall|x: int| 0 <= x < g.spec_rules().len() && g.spec_rules()[x].head == g.spec_start_id()
                        implies !(forall|q: int|
                        0 <= q < g.spec_rules().len() && g.spec_rules()[q].head == g.spec_start_id()
                            ==> q == x) by {
                        if x == a {
                            assert(g.spec_rules()[b].head == g.spec_start_id());
                        } else {
                            assert(g.spec_rules()[a].head == g.spec_start_id());
                        }
                    }
                }
            }
            return Err(Error::GrammarNotAugmented);
        }
        let sp = found.unwrap();
        let nt = g.n_terms();
        let mut look = empty_flags(nt);
        look.set(nt - 1, true);
        let it = Item { prod: sp, dot: 0, look };
        let mut kernel: Vec<Item> = Vec::new();
        kernel.push(it);
        proof {
            assert(item_wf(*g, kernel@[0]));
        }
        let items = closure(g, cs, &kernel);
        proof {
            assert(kernel@[0].look@[nt - 1]);
            assert(has_item(items@, sp as int, 0, g.eof_id() as int));
            assert(kernel@[0].look@ =~= eof_only(*g));
            assert(items_view(kernel@) =~= initial_kernel(*g, sp as int));
            assert(all_in_closure(*g, initial_kernel(*g, sp as int), items@));
            assert(is_initial(*g, items@));
        }
        Ok(ItemSet { items })
    }

    /// `GOTO(I, x)`: the closure of the items with the dot before `x`, moved past it; none
    /// when no item has the dot before `x`.
    pub fn goto(&self, g: &Grammar, cs: &Cores, x: usize) -> (r: Option<ItemSet>)
        requires
            g.wf(),
            cores_wf(*g, *cs),
            self.wf(*g),
        ensures
            r is None <==> !expects(*g, self.spec_items(), x as nat),
            r matches Some(j) ==> j.wf(*g) && covers_moved(*g, self.spec_items(), x as nat, j.spec_items())
                && all_in_closure(*g, moved_views(*g, self.spec_items(), x as nat), j.spec_items())
                && holds_kernel(*g, j.spec_items(), moved_views(*g, self.spec_items(), x as nat)),
    {
        let rules = g.rules();
        let mut kernel: Vec<Item> = Vec::new();
        let mut k: usize = 0;
        while k < self.items.len()
            invariant
                g.wf(),
                rules@ == g.spec_rules(),
                self.wf(*g),
                k <= self.items@.len(),
                all_items_wf(*g, kernel@),
                items_view(kernel@) == moved_views(*g, self.items@.subrange(0, k as int), x as nat),
                kernel@.len() == 0 <==> forall|m: int| 0 <= m < k ==> #[trigger] expected_of(*g, self.items@[m].prod as int, self.items@[m].dot as int) != Some(x),
                forall|m: int| 0 <= m < k && #[trigger] expected_of(*g, self.items@[m].prod as int, self.items@[m].dot as int) == Some(x)
                    ==> exists|j: int| 0 <= j < kernel@.len() && kernel@[j].prod == self.items@[m].prod && kernel@[j].dot == self.items@[m].dot + 1 && kernel@[j].look@ == self.items@[m].look@,
            decreases self.items@.len() - k,
        {
            let it = &self.items[k];
            let ghost kv0 = items_view(kernel@);
            proof {
                assert(item_wf(*g, self.items@[k as int]));
                let part = self.items@.subrange(0, k + 1);
                assert(part.drop_last() =~= self.items@.subrange(0, k as int));
                assert(part.last() == self.items@[k as int]);
            }
            let body = &rules[it.prod].body;
            assert(body@ == body_of(*g, self.items@[k as int].prod as int));
            if it.dot < body.len() && body[it.dot] == x {
                assert(expected_of(*g, self.items@[k as int].prod as int, self.items@[k as int].dot as int) == Some(x));
                let moved = Item { prod: it.prod, dot: it.dot + 1, look: copy_flags(&it.look) };
                let ghost k0 = kernel@;
                kernel.push(moved);
                proof {
                    assert(items_view(kernel@) =~= kv0.push(item_view(moved)));
                    assert forall|m: int| 0 <= m < k + 1 && #[trigger] expected_of(*g, self.items@[m].prod as int, self.items@[m].dot as int) == Some(x)
                        implies exists|j: int| 0 <= j < kernel@.len() && kernel@[j].prod == self.items@[m].prod && kernel@[j].dot == self.items@[m].dot + 1 && kernel@[j].look@ == self.items@[m].look@ by {
                        if m < k {
                            let j = choose|j: int| 0 <= j < k0.len() && k0[j].prod == self.items@[m].prod && k0[j].dot == self.items@[m].dot + 1 && k0[j].look@ == self.items@[m].look@;
                            assert(kernel@[j] == k0[j]);
                        } else {
                            assert(kernel@[kernel@.len() - 1] == moved);
                        }
                    }
                    assert forall|j: int| 0 <= j < kernel@.len() implies item_wf(*g, #[trigger] kernel@[j]) by {
                        if j < k0.len() {
                            assert(kernel@[j] == k0[j]);
                        }
                    }
                }
            } else {
                assert(expected_of(*g, self.items@[k as int].prod as int, self.items@[k as int].dot as int) != Some(x));
            }
            k = k + 1;
        }
        if kernel.len() == 0 {
            return None;
        }
        proof {
            let w = choose|m: int| 0 <= m < self.items@.len() && #[trigger] expected_of(*g, self.items@[m].prod as int, self.items@[m].dot as int) == Some(x);
        }
        let items = closure(g, cs, &kernel);
        proof {
            assert forall|m: int|
                0 <= m < self.items@.len() && #[trigger] expected_of(*g, self.items@[m].prod as int, self.items@[m].dot as int) == Some(x as usize)
                    implies has_core(items@, self.items@[m].prod as int, self.items@[m].dot + 1) && forall|t: int|
                    0 <= t < self.items@[m].look@.len() && self.items@[m].look@[t] ==> has_item(items@, self.items@[m].prod as int, self.items@[m].dot + 1, t) by {
                let j = choose|j: int| 0 <= j < kernel@.len() && kernel@[j].prod == self.items@[m].prod && kernel@[j].dot == self.items@[m].dot + 1 && kernel@[j].look@ == self.items@[m].look@;
                assert(covers(items@, kernel@));
                assert(has_core(items@, kernel@[j].prod as int, kernel@[j].dot as int));
            }
            assert(self.items@.subrange(0, self.items@.len() as int) =~= self.items@);
            lemma_covers_holds(*g, items@, kernel@);
        }
        Some(ItemSet { items })
    }
}

/// The index of the state whose items agree with `j` item by item, if any.
fn find_state(states: &Vec<ItemSet>, j: &ItemSet) -> (r: Option<usize>)
    ensures
        r matches Some(i) ==> i < states@.len() && same_items(j.spec_items(), states@[i as int].spec_items()),
        r is None ==> forall|i: int| 0 <= i < states@.len() ==> !same_items(j.spec_items(), #[trigger] states@[i].spec_items()),
{
    let mut i: usize = 0;
    while i < states.len()
        invariant
            i <= states@.len(),
            forall|k: int| 0 <= k < i ==> !same_items(j.spec_items(), #[trigger] states@[k].spec_items()),
        decreases states@.len() - i,
    {
        if items_eq(&j.items, &states[i].items) {
            return Some(i);
        }
        i = i + 1;
    }
    None
}

/// The edges of one state: `(x, j)` means `GOTO(s, x)` is state `j`.
pub open spec fn row_ok(g: Grammar, states: Seq<ItemSet>, s: int, row: Seq<(usize, usize)>) -> bool {
    &&& forall|e: int|
        0 <= e < row.len() ==> (#[trigger] row[e]).0 < g.spec_ns() && row[e].1 < states.len()
            && covers_moved(g, states[s].spec_items(), row[e].0 as nat, states[row[e].1 as int].spec_items())
            && all_in_closure(g, moved_views(g, states[s].spec_items(), row[e].0 as nat), states[row[e].1 as int].spec_items())
            && holds_kernel(g, states[row[e].1 as int].spec_items(), moved_views(g, states[s].spec_items(), row[e].0 as nat))
    &&& forall|e1: int, e2: int| 0 <= e1 < e2 < row.len() ==> (#[trigger] row[e1]).0 < (#[trigger] row[e2]).0
    &&& forall|x: int|
        0 <= x < g.spec_ns() ==> ((exists|e: int| 0 <= e < row.len() && (#[trigger] row[e]).0 == x)
            <==> #[trigger] expects(g, states[s].spec_items(), x as nat))
}

/// Exactly one production has the start symbol as its head.
pub open spec fn has_unique_start(g: Grammar) -> bool {
    exists|p: int|
        0 <= p < g.spec_rules().len() && g.spec_rules()[p].head == g.spec_start_id() && forall|q: int|
            0 <= q < g.spec_rules().len() && g.spec_rules()[q].head == g.spec_start_id() ==> q == p
}

/// Only end of input as lookahead.
pub open spec fn eof_only(g: Grammar) -> Seq<bool> {
    Seq::new(g.spec_nt(), |t: int| t == g.eof_id())
}

/// The kernel of `I₀`: production `p` with the dot first and end of input as lookahead.
pub open spec fn initial_kernel(g: Grammar, p: int) -> Seq<(usize, usize, Seq<bool>)> {
    seq![(p as usize, 0usize, eof_only(g))]
}

/// `items` is the closure of the start production with the dot first and end of input as
/// lookahead: it holds that item, and nothing outside that closure.
pub open spec fn is_initial(g: Grammar, items: Seq<Item>) -> bool {
    exists|p: int|
        0 <= p < g.spec_rules().len() && g.spec_rules()[p].head == g.spec_start_id()
            && #[trigger] has_item(items, p, 0, g.eof_id() as int)
            && all_in_closure(g, initial_kernel(g, p), items)
}

/// State 0 is `I₀`.
pub open spec fn starts_with_initial(g: Grammar, f: Family) -> bool {
    is_initial(g, f.spec_states()[0].spec_items())
}

/// The views of rows of edges.
pub open spec fn rows_view(edges: Seq<Vec<(usize, usize)>>) -> Seq<Seq<(usize, usize)>> {
    edges.map_values(|v: Vec<(usize, usize)>| v@)
}

/// The edges of one row as (from, to).
pub open spec fn row_pairs(s: int, row: Seq<(usize, usize)>) -> Seq<(int, int)> {
    row.map_values(|e: (usize, usize)| (s, e.1 as int))
}

/// The edges of the first `k` rows as (from, to), row by row.
pub open spec fn pairs_upto(rows: Seq<Seq<(usize, usize)>>, k: nat) -> Seq<(int, int)>
    decreases k,
{
    if k == 0 {
        Seq::empty()
    } else {
        pairs_upto(rows, (k - 1) as nat) + row_pairs(k - 1, rows[k - 1])
    }
}

/// State `j` is first reached by some edge from a lower-numbered state, and every edge
/// before that one leads to a lower-numbered state.
pub open spec fn created(t: Seq<(int, int)>, j: int) -> bool {
    exists|i: int|
        0 <= i < t.len() && (#[trigger] t[i]).1 == j && t[i].0 < j && forall|i2: int|
            0 <= i2 < i ==> (#[trigger] t[i2]).1 < j
}

/// Along the edges `t`, the `n` states are numbered in the order they are first reached.
pub open spec fn first_found(t: Seq<(int, int)>, n: int) -> bool {
    &&& forall|i: int| 0 <= i < t.len() ==> 0 <= (#[trigger] t[i]).1 < n
    &&& forall|j: int| 1 <= j < n ==> #[trigger] created(t, j)
}

/// No two states hold the same items.
pub open spec fn distinct_states(states: Seq<ItemSet>) -> bool {
    forall|i: int, j: int|
        0 <= i < j < states.len() ==> !same_items((#[trigger] states[j]).spec_items(), (#[trigger] states[i]).spec_items())
}

proof fn lemma_pairs_prefix(r1: Seq<Seq<(usize, usize)>>, r2: Seq<Seq<(usize, usize)>>, k: nat)
    requires
        k <= r1.len(),
        k <= r2.len(),
        forall|i: int| 0 <= i < k ==> r1[i] == r2[i],
    ensures
        pairs_upto(r1, k) == pairs_upto(r2, k),
    decreases k,
{
    if k > 0 {
        lemma_pairs_prefix(r1, r2, (k - 1) as nat);
    }
}

/// The canonical collection of LR(1) item sets with its GOTO edges.
#[derive(Debug)]
pub struct Family {
    states: Vec<ItemSet>,
    edges: Vec<Vec<(usize, usize)>>,
    tokens: Vec<Token>,
}

impl Family {
    /// One row of edges per state, and every edge names a known token.
    #[verifier::type_invariant]
    spec fn edges_in_range(self) -> bool {
        &&& self.edges@.len() == self.states@.len()
        &&& forall|s: int, e: int|
            0 <= s < self.edges@.len() && 0 <= e < self.edges@[s]@.len() ==> (#[trigger] self.edges@[s]@[e]).0
                < self.tokens@.len()
    }

    pub closed spec fn spec_states(&self) -> Seq<ItemSet> {
        self.states@
    }

    /// `spec_edges()[s]` lists the edges out of state `s`, in token order.
    pub closed spec fn spec_edges(&self) -> Seq<Seq<(usize, usize)>> {
        rows_view(self.edges@)
    }

    /// The states are pairwise different and numbered in the order they are first reached:
    /// walking the edges state by state, each in token order, every state after `I₀` is first
    /// reached from a lower-numbered state, after only edges into lower-numbered states.
    pub open spec fn numbered_in_order(&self) -> bool {
        &&& distinct_states(self.spec_states())
        &&& first_found(pairs_upto(self.spec_edges(), self.spec_states().len()), self.spec_states().len() as int)
    }

    pub closed spec fn spec_tokens(&self) -> Seq<TokenModel> {
        toks(self.tokens@)
    }

    /// Every state is a closed, merged item set; the edges out of each state are exactly
    /// the GOTOs it has, one per token, in token order.
    pub open spec fn wf(&self, g: Grammar) -> bool {
        &&& self.spec_states().len() >= 1
        &&& self.spec_edges().len() == self.spec_states().len()
        &&& self.spec_tokens() == g.spec_tokens()
        &&& forall|s: int| 0 <= s < self.spec_states().len() ==> (#[trigger] self.spec_states()[s]).wf(g)
        &&& forall|s: int| 0 <= s < self.spec_states().len() ==> #[trigger] row_ok(g, self.spec_states(), s, self.spec_edges()[s])
    }

    /// Builds the canonical collection of `g`: `I₀` first, then every GOTO target in the
    /// order in which states and tokens are visited. Fails with `GrammarNotAugmented` unless
    /// the start symbol heads exactly one production.
    pub fn from_grammar(g: &Grammar) -> (r: Result<Family, Error>)
        requires
            g.wf(),
        ensures
            r matches Ok(f) ==> f.wf(*g),
            r matches Ok(f) ==> starts_with_initial(*g, f),
            r matches Ok(f) ==> f.numbered_in_order(),
            r matches Err(e) ==> e == Error::GrammarNotAugmented,
            r is Err <==> !has_unique_start(*g),
    {
        let cs = build_cores(g);
        let i0 = match ItemSet::initial(g, &cs) {
            Ok(i) => i,
            Err(e) => {
                return Err(e);
            },
        };
        let ghost i0_items = i0.spec_items();
        let mut states: Vec<ItemSet> = Vec::new();
        states.push(i0);
        let mut edges: Vec<Vec<(usize, usize)>> = Vec::new();
        let ns = g.tokens().len();
        let mut s: usize = 0;
        while s < states.len()
            invariant
                g.wf(),
                cores_wf(*g, cs),
                ns == g.spec_ns(),
                states@.len() >= 1,
                states@[0].spec_items() == i0_items,
                is_initial(*g, i0_items),
                s <= states@.len(),
                edges@.len() == s,
                forall|i: int| 0 <= i < states@.len() ==> (#[trigger] states@[i]).wf(*g),
                forall|i: int| 0 <= i < s ==> #[trigger] row_ok(*g, states@, i, edges@[i]@),
                distinct_states(states@),
                first_found(pairs_upto(rows_view(edges@), s as nat), states@.len() as int),
            decreases usize::MAX - s,
        {
            let mut row: Vec<(usize, usize)> = Vec::new();
            let mut x: usize = 0;
            let ghost st0 = states@;
            while x < ns
                invariant
                    g.wf(),
                    cores_wf(*g, cs),
                    ns == g.spec_ns(),
                    s < states@.len(),
                    st0.len() <= states@.len(),
                    forall|i: int| 0 <= i < st0.len() ==> states@[i] == st0[i],
                    x <= ns,
                    forall|i: int| 0 <= i < states@.len() ==> (#[trigger] states@[i]).wf(*g),
                    forall|e: int|
                        0 <= e < row@.len() ==> (#[trigger] row@[e]).0 < x && row@[e].1 < states@.len()
                            && covers_moved(*g, states@[s as int].spec_items(), row@[e].0 as nat, states@[row@[e].1 as int].spec_items())
                            && all_in_closure(*g, moved_views(*g, states@[s as int].spec_items(), row@[e].0 as nat), states@[row@[e].1 as int].spec_items())
                            && holds_kernel(*g, states@[row@[e].1 as int].spec_items(), moved_views(*g, states@[s as int].spec_items(), row@[e].0 as nat)),
                    forall|e1: int, e2: int| 0 <= e1 < e2 < row@.len() ==> (#[trigger] row@[e1]).0 < (#[trigger] row@[e2]).0,
                    forall|y: int|
                        0 <= y < x ==> ((exists|e: int| 0 <= e < row@.len() && (#[trigger] row@[e]).0 == y)
                            <==> #[trigger] expects(*g, states@[s as int].spec_items(), y as nat)),
                    edges@.len() == s,
                    distinct_states(states@),
                    first_found(pairs_upto(rows_view(edges@), s as nat) + row_pairs(s as int, row@), states@.len() as int),
                decreases ns - x,
            {
                let ghost sb = states@;
                let ghost rb = row@;
                let ghost tb = pairs_upto(rows_view(edges@), s as nat) + row_pairs(s as int, row@);
                match states[s].goto(g, &cs, x) {
                    None => {
                        proof {
                            assert forall|y: int| 0 <= y < x + 1 implies ((exists|e: int| 0 <= e < row@.len() && (#[trigger] row@[e]).0 == y)
                                <==> #[trigger] expects(*g, states@[s as int].spec_items(), y as nat)) by {
                                if y == x {
                                    if exists|e: int| 0 <= e < row@.len() && (#[trigger] row@[e]).0 == y {
                                        let e = choose|e: int| 0 <= e < row@.len() && (#[trigger] row@[e]).0 == y;
                                        assert(row@[e].0 < x);
                                    }
                                }
                            }
                        }
                    },
                    Some(j) => {
                        let target = match find_state(&states, &j) {
                            Some(i) => {
                                proof {
                                    lemma_same_items(*g, states@[s as int].spec_items(), x as nat, j.spec_items(), states@[i as int].spec_items());
                                }
                                i
                            },
                            None => {
                                states.push(j);
                                proof {
                                    assert(states@[states@.len() - 1] == j);
                                    assert forall|a: int, b: int| 0 <= a < b < states@.len() implies !same_items((#[trigger] states@[b]).spec_items(), (#[trigger] states@[a]).spec_items()) by {
                                        if b < sb.len() {
                                            assert(states@[a] == sb[a] && states@[b] == sb[b]);
                                        } else {
                                            assert(states@[a] == sb[a]);
                                        }
                                    }
                                }
                                states.len() - 1
                            },
                        };
                        row.push((x, target));
                        proof {
                            let tn = pairs_upto(rows_view(edges@), s as nat) + row_pairs(s as int, row@);
                            assert(tn =~= tb.push((s as int, target as int)));
                            assert forall|q: int| 1 <= q < states@.len() implies #[trigger] created(tn, q) by {
                                if q < sb.len() {
                                    assert(created(tb, q));
                                    let i = choose|i: int|
                                        0 <= i < tb.len() && (#[trigger] tb[i]).1 == q && tb[i].0 < q && forall|i2: int|
                                            0 <= i2 < i ==> (#[trigger] tb[i2]).1 < q;
                                    assert(tn[i] == tb[i]);
                                    assert forall|i2: int| 0 <= i2 < i implies (#[trigger] tn[i2]).1 < q by {
                                        assert(tn[i2] == tb[i2]);
                                    }
                                } else {
                                    assert(q == sb.len() && target == q);
                                    let i = tb.len() as int;
                                    assert(tn[i] == (s as int, target as int));
                                    assert forall|i2: int| 0 <= i2 < i implies (#[trigger] tn[i2]).1 < q by {
                                        assert(tn[i2] == tb[i2]);
                                    }
                                }
                            }
                            assert forall|i: int| 0 <= i < tn.len() implies 0 <= (#[trigger] tn[i]).1 < states@.len() by {
                                if i < tb.len() {
                                    assert(tn[i] == tb[i]);
                                }
                            }
                            assert(states@[s as int] == sb[s as int]);
                            assert forall|e: int|
                                0 <= e < row@.len() implies (#[trigger] row@[e]).0 < x + 1 && row@[e].1 < states@.len()
                                    && covers_moved(*g, states@[s as int].spec_items(), row@[e].0 as nat, states@[row@[e].1 as int].spec_items())
                                    && all_in_closure(*g, moved_views(*g, states@[s as int].spec_items(), row@[e].0 as nat), states@[row@[e].1 as int].spec_items())
                                    && holds_kernel(*g, states@[row@[e].1 as int].spec_items(), moved_views(*g, states@[s as int].spec_items(), row@[e].0 as nat)) by {
                                if e < rb.len() {
                                    assert(row@[e] == rb[e]);
                                    assert(states@[rb[e].1 as int] == sb[rb[e].1 as int]);
                                }
                            }
                            assert forall|y: int| 0 <= y < x + 1 implies ((exists|e: int| 0 <= e < row@.len() && (#[trigger] row@[e]).0 == y)
                                <==> #[trigger] expects(*g, states@[s as int].spec_items(), y as nat)) by {
                                if y < x {
                                    if exists|e: int| 0 <= e < row@.len() && (#[trigger] row@[e]).0 == y {
                                        let e = choose|e: int| 0 <= e < row@.len() && (#[trigger] row@[e]).0 == y;
                                        assert(e < rb.len());
                                        assert(rb[e].0 == y);
                                    }
                                    if expects(*g, sb[s as int].spec_items(), y as nat) {
                                        let e = choose|e: int| 0 <= e < rb.len() && (#[trigger] rb[e]).0 == y;
                                        assert(row@[e] == rb[e]);
                                    }
                                } else {
                                    assert(row@[row@.len() - 1].0 == y);
                                }
                            }
                        }
                    },
                }
                x = x + 1;
            }
            let ghost eb = edges@;
            let ghost rowv = row@;
            edges.push(row);
            proof {
                lemma_pairs_prefix(rows_view(edges@), rows_view(eb), s as nat);
                assert(rows_view(edges@)[s as int] == rowv);
                assert(pairs_upto(rows_view(edges@), (s + 1) as nat) == pairs_upto(rows_view(eb), s as nat) + row_pairs(s as int, rowv));
                assert forall|i: int| 0 <= i < s + 1 implies #[trigger] row_ok(*g, states@, i, edges@[i]@) by {
                    if i < s {
                        assert(edges@[i] == eb[i]);
                        let rr = edges@[i]@;
                        assert(row_ok(*g, st0, i, rr));
                        assert(states@[i] == st0[i]);
                        assert forall|e: int|
                            0 <= e < rr.len() implies (#[trigger] rr[e]).0 < g.spec_ns() && rr[e].1 < states@.len()
                                && covers_moved(*g, states@[i].spec_items(), rr[e].0 as nat, states@[rr[e].1 as int].spec_items())
                                && all_in_closure(*g, moved_views(*g, states@[i].spec_items(), rr[e].0 as nat), states@[rr[e].1 as int].spec_items())
                                && holds_kernel(*g, states@[rr[e].1 as int].spec_items(), moved_views(*g, states@[i].spec_items(), rr[e].0 as nat)) by {
                            assert(states@[rr[e].1 as int] == st0[rr[e].1 as int]);
                        }
                    } else {
                        assert(edges@[i]@ == row@);
                    }
                }
            }
            s = s + 1;
        }
        let tokens = clone_tokens(g.tokens());
        proof {
            assert forall|i: int, e: int|
                0 <= i < edges@.len() && 0 <= e < edges@[i]@.len() implies (#[trigger] edges@[i]@[e]).0 < tokens@.len() by {
                assert(row_ok(*g, states@, i, edges@[i]@));
                assert(toks(tokens@).len() == tokens@.len());
            }
        }
        let f = Family { states, edges, tokens };
        proof {
            assert(f.spec_states()[0].spec_items() == i0_items);
            assert(f.spec_states().len() >= 1);
            assert(f.spec_edges().len() == f.spec_states().len());
            assert(f.spec_tokens() == g.spec_tokens());
            assert(forall|s: int| 0 <= s < f.spec_states().len() ==> (#[trigger] f.spec_states()[s]).wf(*g));
            assert forall|i: int| 0 <= i < f.spec_states().len() implies #[trigger] row_ok(*g, f.spec_states(), i, f.spec_edges()[i]) by {
                assert(f.spec_edges()[i] == edges@[i]@);
            }
            assert(f.wf(*g));
assert(starts_with_initial(*g, f));
        }
        Ok(f)
    }

    /// The edges out of state `s`, as (token code, target), in token order.
    pub fn edges_of(&self, s: usize) -> (r: &Vec<(usize, usize)>)
        requires
            s < self.spec_states().len(),
        ensures
            r@ == self.spec_edges()[s as int],
    {
        proof {
            use_type_invariant(self);
        }
        &self.edges[s]
    }

    /// Edge `e` out of state `from` goes on `tok` to state `to`.
    pub open spec fn edge_at(&self, from: int, e: int, tok: TokenModel, to: int) -> bool {
        &&& 0 <= from < self.spec_edges().len()
        &&& 0 <= e < self.spec_edges()[from].len()
        &&& self.spec_edges()[from][e].1 == to
        &&& self.spec_edges()[from][e].0 < self.spec_tokens().len()
        &&& tok == self.spec_tokens()[self.spec_edges()[from][e].0 as int]
    }

    /// Some edge out of state `from` goes on `tok` to state `to`.
    pub open spec fn is_edge(&self, from: int, tok: TokenModel, to: int) -> bool {
        exists|e: int| #[trigger] self.edge_at(from, e, tok, to)
    }

    /// The edges out of state `s` as (from, token, to).
    pub open spec fn row_edges(&self, s: int) -> Seq<(usize, TokenModel, usize)> {
        self.spec_edges()[s].map_values(|e: (usize, usize)| (s as usize, self.spec_tokens()[e.0 as int], e.1))
    }

    /// The edges out of the first `n` states, state by state, each in token order.
    pub open spec fn edges_upto(&self, n: nat) -> Seq<(usize, TokenModel, usize)>
        decreases n,
    {
        if n == 0 {
            Seq::empty()
        } else {
            self.edges_upto((n - 1) as nat) + self.row_edges(n - 1)
        }
    }

    /// Every edge as (from, token, to): state by state, each in token order.
    pub fn gotos(&self) -> (r: Vec<(usize, Token, usize)>)
        ensures
            forall|k: int| 0 <= k < r@.len() ==> #[trigger] self.is_edge((r@[k]).0 as int, r@[k].1@, r@[k].2 as int),
            edge_views(r@) == self.edges_upto(self.spec_edges().len() as nat),
    {
        proof {
            use_type_invariant(self);
        }
        let mut r: Vec<(usize, Token, usize)> = Vec::new();
        let mut s: usize = 0;
        assert(edge_views(r@) =~= self.edges_upto(0));
        while s < self.edges.len()
            invariant
                self.edges@.len() == self.states@.len(),
                forall|x: int, e: int|
                    0 <= x < self.edges@.len() && 0 <= e < self.edges@[x]@.len() ==> (#[trigger] self.edges@[x]@[e]).0 < self.tokens@.len(),
                s <= self.edges@.len(),
                forall|k: int| 0 <= k < r@.len() ==> #[trigger] self.is_edge((r@[k]).0 as int, r@[k].1@, r@[k].2 as int),
                edge_views(r@) == self.edges_upto(s as nat),
                self.spec_edges().len() == self.edges@.len(),
            decreases self.edges@.len() - s,
        {
            let row = &self.edges[s];
            assert(row@ == self.spec_edges()[s as int]);
            let ghost base = edge_views(r@);
            let ghost rowv = self.row_edges(s as int);
            assert(rowv.subrange(0, 0) =~= Seq::<(usize, TokenModel, usize)>::empty());
            assert(rowv.len() == row@.len());
            assert(edge_views(r@) =~= base + rowv.subrange(0, 0));
            let mut e: usize = 0;
            while e < row.len()
                invariant
                    self.edges@.len() == self.states@.len(),
                    s < self.edges@.len(),
                    row@ == self.spec_edges()[s as int],
                    forall|k: int| 0 <= k < row@.len() ==> (#[trigger] row@[k]).0 < self.tokens@.len(),
                    e <= row@.len(),
                    forall|k: int| 0 <= k < r@.len() ==> #[trigger] self.is_edge((r@[k]).0 as int, r@[k].1@, r@[k].2 as int),
                    rowv == self.row_edges(s as int),
                    rowv.len() == row@.len(),
                    edge_views(r@) == base + rowv.subrange(0, e as int),
                decreases row@.len() - e,
            {
                let (x, to) = row[e];
                let ghost r0 = r@;
                r.push((s, self.tokens[x].clone(), to));
                proof {
                    assert forall|k: int| 0 <= k < r@.len() implies #[trigger] self.is_edge((r@[k]).0 as int, r@[k].1@, r@[k].2 as int) by {
                        if k < r0.len() {
                            assert(r@[k] == r0[k]);
                        } else {
                            assert(self.spec_edges()[s as int][e as int] == (x, to));
                            assert(self.spec_tokens()[x as int] == self.tokens@[x as int]@);
                            assert(self.edge_at(s as int, e as int, r@[k].1@, to as int));
                        }
                    }
                    assert(edge_views(r@) =~= edge_views(r0).push((s, self.tokens@[x as int]@, to)));
                    assert(self.spec_edges()[s as int][e as int] == (x, to));
                    assert(self.spec_tokens()[x as int] == self.tokens@[x as int]@);
                    assert(rowv[e as int] == (s, self.spec_tokens()[x as int], to));
                    assert(rowv.subrange(0, e + 1) =~= rowv.subrange(0, e as int).push(rowv[e as int]));
                }
                e = e + 1;
            }
            proof {
                assert(rowv.subrange(0, e as int) =~= rowv);
                assert(self.edges_upto((s + 1) as nat) == self.edges_upto(s as nat) + self.row_edges(s as int));
            }
            s = s + 1;
        }
        r
    }

    /// The states, `I₀` first.
    pub fn item_sets(&self) -> (r: &Vec<ItemSet>)
        ensures
            r@ == self.spec_states(),
    {
        &self.states
    }

    /// The number of states.
    pub fn len(&self) -> (r: usize)
        ensures
            r == self.spec_states().len(),
    {
        self.states.len()
    }

    pub fn is_empty(&self) -> (r: bool)
        ensures
            r == (self.spec_states().len() == 0),
    {
        self.states.len() == 0
    }

    /// The state that `GOTO(s, x)` reaches, for state `s` and token code `x`.
    pub fn goto_code(&self, s: usize, x: usize) -> (r: Option<usize>)
        requires
            s < self.spec_states().len(),
            self.spec_edges().len() == self.spec_states().len(),
        ensures
            r matches Some(j) ==> exists|e: int| 0 <= e < self.spec_edges()[s as int].len() && #[trigger] self.spec_edges()[s as int][e] == (x, j),
            r is None ==> forall|e: int| 0 <= e < self.spec_edges()[s as int].len() ==> (#[trigger] self.spec_edges()[s as int][e]).0 != x,
    {
        let row = &self.edges[s];
        assert(row@ == self.spec_edges()[s as int]);
        let mut e: usize = 0;
        while e < row.len()
            invariant
                e <= row@.len(),
                row@ == self.spec_edges()[s as int],
                forall|k: int| 0 <= k < e ==> (#[trigger] row@[k]).0 != x,
            decreases row@.len() - e,
        {
            let (y, j) = row[e];
            if y == x {
                assert(self.spec_edges()[s as int][e as int] == (x, j));
                return Some(j);
            }
            e = e + 1;
        }
        None
    }

    /// The edges out of state `s` as (token, target), in token order; none when `s` is no
    /// state or has no edge.
    pub fn gotos_of(&self, s: usize) -> (r: Option<Vec<(Token, usize)>>)
        ensures
            s >= self.spec_states().len() || s >= self.spec_edges().len() ==> r is None,
            s < self.spec_states().len() && s < self.spec_edges().len() ==> (r is None <==> self.spec_edges()[s as int].len() == 0),
            r matches Some(v) ==> v@.len() == self.spec_edges()[s as int].len() && forall|e: int|
                0 <= e < v@.len() ==> (#[trigger] v@[e]).1 == self.spec_edges()[s as int][e].1
                    && self.spec_edges()[s as int][e].0 < self.spec_tokens().len()
                    && v@[e].0@ == self.spec_tokens()[self.spec_edges()[s as int][e].0 as int],
    {
        proof {
            use_type_invariant(self);
        }
        if s >= self.states.len() || s >= self.edges.len() {
            return None;
        }
        let row = &self.edges[s];
        assert(row@ == self.spec_edges()[s as int]);
        assert(forall|k: int| 0 <= k < row@.len() ==> (#[trigger] row@[k]).0 < self.tokens@.len());
        if row.len() == 0 {
            return None;
        }
        let mut v: Vec<(Token, usize)> = Vec::new();
        let mut e: usize = 0;
        while e < row.len()
            invariant
                e <= row@.len(),
                row@ == self.spec_edges()[s as int],
                v@.len() == e,
                forall|k: int| 0 <= k < row@.len() ==> (#[trigger] row@[k]).0 < self.tokens@.len(),
                forall|k: int|
                    0 <= k < e ==> (#[trigger] v@[k]).1 == row@[k].1 && v@[k].0@ == self.tokens@[row@[k].0 as int]@,
            decreases row@.len() - e,
        {
            let (x, j) = row[e];
            v.push((self.tokens[x].clone(), j));
            e = e + 1;
        }
        proof {
            assert forall|k: int| 0 <= k < v@.len() implies (#[trigger] v@[k]).1 == self.spec_edges()[s as int][k].1
                && self.spec_edges()[s as int][k].0 < self.spec_tokens().len()
                && v@[k].0@ == self.spec_tokens()[self.spec_edges()[s as int][k].0 as int] by {
                assert(row@[k].0 < self.tokens@.len());
            }
        }
        Some(v)
    }
}

/// Some code below `n` set in `look` names the terminal `x`.
pub open spec fn named_upto(g: Grammar, look: Seq<bool>, n: int, x: Terminal) -> bool {
    exists|t: int| 0 <= t < n && look[t] && #[trigger] term_named(g, t, x)
}

/// Some entry of `v` is the terminal of code `t`.
pub open spec fn listed(g: Grammar, v: Seq<Terminal>, t: int) -> bool {
    exists|j: int| 0 <= j < v.len() && #[trigger] term_named(g, t, v[j])
}

/// Item `k` of `items` reduces by production `r.0` on the terminal `r.1`, whose code is `t`.
pub open spec fn reduction_at(g: Grammar, items: Seq<Item>, r: (usize, Terminal), k: int, t: int) -> bool {
    &&& 0 <= k < items.len()
    &&& 0 <= t < g.spec_nt()
    &&& expected_of(g, items[k].prod as int, items[k].dot as int) is None
    &&& items[k].look@[t]
    &&& r.0 == items[k].prod
    &&& term_named(g, t, r.1)
}

/// Some item of `items` reduces as `r` says.
pub open spec fn reduction_in(g: Grammar, items: Seq<Item>, r: (usize, Terminal)) -> bool {
    exists|k: int, t: int| #[trigger] reduction_at(g, items, r, k, t)
}

/// The terminal named by code `t`, when `t` is a terminal code of `g`.
pub open spec fn term_named(g: Grammar, t: int, x: Terminal) -> bool {
    g.spec_tokens()[t] == TokenModel::Term(x@)
}

impl Item {
    pub fn new(prod: usize, dot: usize, look: Vec<bool>) -> (r: Item)
        ensures
            r.prod == prod && r.dot == dot && r.look == look,
    {
        Item { prod, dot, look }
    }

    /// The item of production `prod` with the dot first.
    pub fn initial(prod: usize, look: Vec<bool>) -> (r: Item)
        ensures
            r.prod == prod && r.dot == 0 && r.look == look,
    {
        Item { prod, dot: 0, look }
    }

    /// The same production and lookaheads with the dot at `dot`.
    pub fn with_dot(&self, dot: usize) -> (r: Item)
        ensures
            r.prod == self.prod && r.dot == dot && r.look@ == self.look@,
    {
        Item { prod: self.prod, dot, look: copy_flags(&self.look) }
    }

    /// The core: production and dot.
    pub fn core_of(&self) -> (r: (usize, usize))
        ensures
            r == (self.prod, self.dot),
    {
        (self.prod, self.dot)
    }

    /// The production id.
    pub fn prod(&self) -> (r: usize)
        ensures
            r == self.prod,
    {
        self.prod
    }

    /// The code of the symbol after the dot, if any.
    pub fn expected(&self, g: &Grammar) -> (r: Option<usize>)
        requires
            g.wf(),
            item_wf(*g, *self),
        ensures
            r == expected_of(*g, self.prod as int, self.dot as int),
    {
        let body = &g.rules()[self.prod].body;
        if self.dot < body.len() {
            Some(body[self.dot])
        } else {
            None
        }
    }

    /// The codes after the symbol after the dot.
    pub fn future_seq(&self, g: &Grammar) -> (r: Vec<usize>)
        requires
            g.wf(),
            item_wf(*g, *self),
        ensures
            self.dot < body_of(*g, self.prod as int).len() ==> r@ == rest_of(*g, self.prod as int, self.dot as int),
            self.dot >= body_of(*g, self.prod as int).len() ==> r@.len() == 0,
    {
        let body = &g.rules()[self.prod].body;
        let mut r: Vec<usize> = Vec::new();
        if self.dot >= body.len() {
            return r;
        }
        let mut i = self.dot + 1;
        while i < body.len()
            invariant
                self.dot < body@.len(),
                self.dot + 1 <= i <= body@.len(),
                r@ == body@.subrange(self.dot + 1, i as int),
            decreases body@.len() - i,
        {
            r.push(body[i]);
            i = i + 1;
            assert(r@ =~= body@.subrange(self.dot + 1, i as int));
        }
        r
    }

    /// The item with the dot moved past `token`, when `token` is the symbol after the dot.
    pub fn goto(&self, g: &Grammar, token: &Token) -> (r: Option<Item>)
        requires
            g.wf(),
            item_wf(*g, *self),
        ensures
            r is Some <==> exists|x: int| 0 <= x < g.spec_ns() && g.spec_tokens()[x] == token@
                && expected_of(*g, self.prod as int, self.dot as int) == Some(x as usize),
            r matches Some(i) ==> i.prod == self.prod && i.dot == self.dot + 1 && i.look@ == self.look@,
    {
        let x = match g.token_id(token) {
            Some(x) => x,
            None => {
                return None;
            },
        };
        let blen = g.rules()[self.prod].body.len();
        match self.expected(g) {
            Some(e) => {
                assert(self.dot < blen);
                if e == x {
                    Some(self.with_dot(self.dot + 1))
                } else {
                    proof {
                        assert forall|y: int| 0 <= y < g.spec_ns() && g.spec_tokens()[y] == token@ implies y == x by {
                            assert(g.spec_tokens()[y] == g.spec_tokens()[x as int]);
                        }
                    }
                    None
                }
            },
            None => None,
        }
    }

    /// The lookahead terminals on which this item reduces; none while the dot stands
    /// before a symbol.
    pub fn reduces(&self, g: &Grammar) -> (r: Option<Vec<Terminal>>)
        requires
            g.wf(),
            item_wf(*g, *self),
        ensures
            r is None <==> expected_of(*g, self.prod as int, self.dot as int) is Some,
            r matches Some(v) ==> (forall|j: int| 0 <= j < v@.len() ==> #[trigger] named_upto(*g, self.look@, g.spec_nt() as int, v@[j]))
                && (forall|t: int| 0 <= t < g.spec_nt() && self.look@[t] ==> #[trigger] listed(*g, v@, t))
                && term_views(v@) == listed_terms(*g, self.look@, g.spec_nt()),
    {
        if self.expected(g).is_some() {
            return None;
        }
        Some(terminals_of(g, &self.look))
    }
}

/// The views of a list of terminals.
pub open spec fn term_views(v: Seq<Terminal>) -> Seq<Seq<char>> {
    v.map_values(|t: Terminal| t@)
}

/// The names of the terminals whose codes below `n` are set in `look`, in code order (which
/// is terminal order), each once.
pub open spec fn listed_terms(g: Grammar, look: Seq<bool>, n: nat) -> Seq<Seq<char>>
    decreases n,
{
    if n == 0 {
        Seq::empty()
    } else if look[n - 1] {
        listed_terms(g, look, (n - 1) as nat).push(token_name(g, n - 1))
    } else {
        listed_terms(g, look, (n - 1) as nat)
    }
}

/// The terminals whose codes are set in `look`, in code order.
pub fn terminals_of(g: &Grammar, look: &Vec<bool>) -> (v: Vec<Terminal>)
    requires
        g.wf(),
        look@.len() == g.spec_nt(),
    ensures
        forall|j: int| 0 <= j < v@.len() ==> #[trigger] named_upto(*g, look@, g.spec_nt() as int, v@[j]),
        forall|t: int| 0 <= t < g.spec_nt() && look@[t] ==> #[trigger] listed(*g, v@, t),
        term_views(v@) == listed_terms(*g, look@, g.spec_nt()),
{
    let tokens = g.tokens();
    let nt = g.n_terms();
    let mut v: Vec<Terminal> = Vec::new();
    let mut t: usize = 0;
    while t < nt
        invariant
            g.wf(),
            toks(tokens@) == g.spec_tokens(),
            nt == g.spec_nt(),
            look@.len() == nt,
            t <= nt,
            forall|j: int| 0 <= j < v@.len() ==> #[trigger] named_upto(*g, look@, t as int, v@[j]),
            forall|u: int| 0 <= u < t && look@[u] ==> #[trigger] listed(*g, v@, u),
            term_views(v@) == listed_terms(*g, look@, t as nat),
        decreases nt - t,
    {
        let ghost tv0 = term_views(v@);
        if look[t] {
            assert(g.spec_tokens()[t as int] is Term);
            match &tokens[t] {
                Token::Terminal(x) => {
                    let ghost v0 = v@;
                    v.push(x.clone());
                    proof {
                        assert(term_named(*g, t as int, v@[v@.len() - 1]));
                        assert(term_views(v@) =~= tv0.push(token_name(*g, t as int)));
                        assert(listed(*g, v@, t as int));
                        assert forall|j: int| 0 <= j < v@.len() implies #[trigger] named_upto(*g, look@, t + 1, v@[j]) by {
                            if j < v0.len() {
                                assert(v@[j] == v0[j]);
                                assert(named_upto(*g, look@, t as int, v0[j]));
                                let u = choose|u: int| 0 <= u < t && look@[u] && #[trigger] term_named(*g, u, v0[j]);
                                assert(term_named(*g, u, v@[j]));
                            }
                        }
                        assert forall|u: int| 0 <= u < t + 1 && look@[u] implies #[trigger] listed(*g, v@, u) by {
                            if u < t {
                                assert(listed(*g, v0, u));
                                let j = choose|j: int| 0 <= j < v0.len() && #[trigger] term_named(*g, u, v0[j]);
                                assert(v@[j] == v0[j]);
                                assert(term_named(*g, u, v@[j]));
                            }
                        }
                    }
                },
                Token::NonTerminal(_) => {},
            }
        }
        proof {
            assert forall|j: int| 0 <= j < v@.len() && named_upto(*g, look@, t as int, v@[j]) implies #[trigger] named_upto(*g, look@, t + 1, v@[j]) by {
                let u = choose|u: int| 0 <= u < t && look@[u] && #[trigger] term_named(*g, u, v@[j]);
                assert(term_named(*g, u, v@[j]));
            }
        }
        t = t + 1;
    }
    v
}

impl ItemSet {
    /// Every reduction of this set: (production id, lookahead terminal), item by item.
    pub fn reduces(&self, g: &Grammar) -> (r: Vec<(usize, Terminal)>)
        requires
            g.wf(),
            self.wf(*g),
        ensures
            forall|j: int| 0 <= j < r@.len() ==> #[trigger] reduction_in(*g, self.spec_items(), r@[j]),
            reduction_views(r@) == reductions(*g, self.spec_items()),
    {
        let mut r: Vec<(usize, Terminal)> = Vec::new();
        let mut k: usize = 0;
        assert(reduction_views(r@) =~= reductions(*g, self.spec_items().subrange(0, 0)));
        while k < self.items.len()
            invariant
                g.wf(),
                self.wf(*g),
                k <= self.items@.len(),
                forall|j: int| 0 <= j < r@.len() ==> #[trigger] reduction_in(*g, self.spec_items(), r@[j]),
                reduction_views(r@) == reductions(*g, self.spec_items().subrange(0, k as int)),
            decreases self.items@.len() - k,
        {
            let it = &self.items[k];
            let ghost base = reduction_views(r@);
            proof {
                assert(item_wf(*g, self.items@[k as int]));
                let part = self.spec_items().subrange(0, k + 1);
                assert(part.drop_last() =~= self.spec_items().subrange(0, k as int));
                assert(part.last() == *it);
            }
            match it.reduces(g) {
                None => {},
                Some(ts) => {
                    let ghost lst = listed_terms(*g, it.look@, g.spec_nt()).map_values(|t: Seq<char>| (it.prod, t));
                    let mut j: usize = 0;
                    assert(lst.subrange(0, 0) =~= Seq::<(usize, Seq<char>)>::empty());
                    assert(reduction_views(r@) =~= base + lst.subrange(0, 0));
                    while j < ts.len()
                        invariant
                            g.wf(),
                            self.wf(*g),
                            k < self.items@.len(),
                            *it == self.spec_items()[k as int],
                            expected_of(*g, it.prod as int, it.dot as int) is None,
                            forall|m: int| 0 <= m < ts@.len() ==> #[trigger] named_upto(*g, it.look@, g.spec_nt() as int, ts@[m]),
                            term_views(ts@) == listed_terms(*g, it.look@, g.spec_nt()),
                            lst == listed_terms(*g, it.look@, g.spec_nt()).map_values(|t: Seq<char>| (it.prod, t)),
                            j <= ts@.len(),
                            forall|m: int| 0 <= m < r@.len() ==> #[trigger] reduction_in(*g, self.spec_items(), r@[m]),
                            reduction_views(r@) == base + lst.subrange(0, j as int),
                        decreases ts@.len() - j,
                    {
                        let ghost r0 = r@;
                        let x = ts[j].clone();
                        r.push((it.prod, x));
                        proof {
                            assert(named_upto(*g, it.look@, g.spec_nt() as int, ts@[j as int]));
                            let t = choose|t: int| 0 <= t < g.spec_nt() && it.look@[t] && #[trigger] term_named(*g, t, ts@[j as int]);
                            assert(term_named(*g, t, r@[r@.len() - 1].1));
                            assert forall|m: int| 0 <= m < r@.len() implies #[trigger] reduction_in(*g, self.spec_items(), r@[m]) by {
                                if m < r0.len() {
                                    assert(r@[m] == r0[m]);
                                } else {
                                    assert(self.spec_items()[k as int].look@[t]);
                                    assert(reduction_at(*g, self.spec_items(), r@[m], k as int, t));
                                }
                            }
                            assert(term_views(ts@)[j as int] == ts@[j as int]@);
                            assert(reduction_views(r@) =~= reduction_views(r0).push((it.prod, x@)));
                            assert(lst.subrange(0, j + 1) =~= lst.subrange(0, j as int).push(lst[j as int]));
                        }
                        j = j + 1;
                    }
                    proof {
                        assert(lst.len() == ts@.len());
                        assert(lst.subrange(0, j as int) =~= lst);
                    }
                },
            }
            k = k + 1;
        }
        assert(self.spec_items().subrange(0, k as int) =~= self.spec_items());
        r
    }
}

/// The views of (production, terminal) pairs.
pub open spec fn reduction_views(v: Seq<(usize, Terminal)>) -> Seq<(usize, Seq<char>)> {
    v.map_values(|x: (usize, Terminal)| (x.0, x.1@))
}

/// Every reduction of a list of items: for each reducible item in order, its production
/// with each of its lookaheads in terminal order.
pub open spec fn reductions(g: Grammar, items: Seq<Item>) -> Seq<(usize, Seq<char>)>
    decreases items.len(),
{
    if items.len() == 0 {
        Seq::empty()
    } else if expected_of(g, items.last().prod as int, items.last().dot as int) is None {
        reductions(g, items.drop_last()) + listed_terms(g, items.last().look@, g.spec_nt()).map_values(
            |t: Seq<char>| (items.last().prod, t),
        )
    } else {
        reductions(g, items.drop_last())
    }
}

/// The views of (from, token, to) triples.
pub open spec fn edge_views(v: Seq<(usize, Token, usize)>) -> Seq<(usize, TokenModel, usize)> {
    v.map_values(|x: (usize, Token, usize)| (x.0, x.1@, x.2))
}

/// The views of a list of strings.
pub open spec fn string_views(v: Seq<String>) -> Seq<Seq<char>> {
    v.map_values(|w: String| w@)
}

/// Words joined by a separator.
pub open spec fn join(words: Seq<Seq<char>>, sep: Seq<char>) -> Seq<char>
    decreases words.len(),
{
    if words.len() == 0 {
        Seq::empty()
    } else if words.len() == 1 {
        words[0]
    } else {
        join(words.drop_last(), sep) + sep + words.last()
    }
}

/// The name of the token of code `c`.
pub open spec fn token_name(g: Grammar, c: int) -> Seq<char> {
    match g.spec_tokens()[c] {
        TokenModel::Term(s) => s,
        TokenModel::NonTerm(s) => s,
    }
}

/// The dot.
pub open spec fn dot_word() -> Seq<char> {
    "⋅"@
}

/// The words of the tail of item `(p, d)`: the symbol names with the dot among them.
pub open spec fn tail_words(g: Grammar, p: int, d: int, n: int) -> Seq<Seq<char>>
    decreases n,
{
    if n <= 0 {
        if d == 0 {
            seq![dot_word()]
        } else {
            Seq::empty()
        }
    } else {
        tail_words(g, p, d, n - 1) + seq![token_name(g, body_of(g, p)[n - 1] as int)] + if d == n {
            seq![dot_word()]
        } else {
            Seq::empty()
        }
    }
}

/// How an item reads: `head -> α ⋅ β 〈a, b〉`.
pub open spec fn item_text(g: Grammar, it: Item, look_names: Seq<Seq<char>>) -> Seq<char> {
    g.spec_prods()[it.prod as int].head + seq![' ', '-', '>', ' '] + join(
        tail_words(g, it.prod as int, it.dot as int, body_of(g, it.prod as int).len() as int),
        seq![' '],
    ) + " 〈"@ + join(look_names, seq![',', ' ']) + "〉"@
}

/// Joins words with a separator.
pub fn join_words(words: &Vec<String>, sep: &str) -> (r: String)
    ensures
        r@ == join(string_views(words@), sep@),
{
    let ghost ws = string_views(words@);
    let mut r = String::new();
    let mut i: usize = 0;
    while i < words.len()
        invariant
            i <= words@.len(),
            ws == string_views(words@),
            r@ == join(ws.subrange(0, i as int), sep@),
        decreases words@.len() - i,
    {
        if i > 0 {
            r.append(sep);
        }
        r.append(words[i].as_str());
        proof {
            let part = ws.subrange(0, i + 1);
            assert(part.drop_last() =~= ws.subrange(0, i as int));
            assert(part.last() == words@[i as int]@);
            if i == 0 {
                assert(part.len() == 1);
                assert(r@ =~= join(part, sep@));
            } else {
                assert(r@ =~= join(part, sep@));
            }
        }
        i = i + 1;
    }
    assert(ws.subrange(0, i as int) =~= ws);
    r
}

impl Item {
    /// The lookahead terminals, in code order.
    pub fn look_aheads(&self, g: &Grammar) -> (r: Vec<Terminal>)
        requires
            g.wf(),
            item_wf(*g, *self),
        ensures
            forall|j: int| 0 <= j < r@.len() ==> #[trigger] named_upto(*g, self.look@, g.spec_nt() as int, r@[j]),
            forall|t: int| 0 <= t < g.spec_nt() && self.look@[t] ==> #[trigger] listed(*g, r@, t),
            term_views(r@) == listed_terms(*g, self.look@, g.spec_nt()),
    {
        terminals_of(g, &self.look)
    }

    /// How the item reads: `head -> α ⋅ β 〈a, b〉`, with the lookahead terminals in code
    /// order.
    pub fn to_text(&self, g: &Grammar) -> (r: String)
        requires
            g.wf(),
            item_wf(*g, *self),
        ensures
            r@ == item_text(*g, *self, listed_terms(*g, self.look@, g.spec_nt())),
    {
        proof {
            reveal_strlit(" -> ");
        }
        let prods = g.prods();
        let tokens = g.tokens();
        let body = &g.rules()[self.prod].body;
        proof {
            assert(g.rule_matches(self.prod as int));
        }
        let mut words: Vec<String> = Vec::new();
        if self.dot == 0 {
            words.push("⋅".to_owned());
        }
        assert(string_views(words@) =~= tail_words(*g, self.prod as int, self.dot as int, 0));
        let mut i: usize = 0;
        while i < body.len()
            invariant
                g.wf(),
                item_wf(*g, *self),
                *body == g.spec_rules()[self.prod as int].body,
                crate::grammar::toks(tokens@) == g.spec_tokens(),
                i <= body@.len(),
                string_views(words@) == tail_words(*g, self.prod as int, self.dot as int, i as int),
            decreases body@.len() - i,
        {
            let ghost w0 = words@;
            let c = body[i];
            assert(c < g.spec_ns()) by {
                assert(g.spec_rules()[self.prod as int].body@[i as int] < g.spec_ns());
            }
            assert(tokens@[c as int]@ == g.spec_tokens()[c as int]);
            words.push(tokens[c].as_str().to_owned());
            if self.dot == i + 1 {
                words.push("⋅".to_owned());
            }
            proof {
                assert(string_views(words@) =~= tail_words(*g, self.prod as int, self.dot as int, i + 1));
            }
            i = i + 1;
        }
        let mut r = prods[self.prod].head().as_str().to_owned();
        r.append(" -> ");
        let tail = join_words(&words, " ");
        r.append(tail.as_str());
        r.append(" 〈");
        let looks = terminals_of(g, &self.look);
        let mut names: Vec<String> = Vec::new();
        let mut j: usize = 0;
        while j < looks.len()
            invariant
                j <= looks@.len(),
                names@.len() == j,
                forall|k: int| 0 <= k < j ==> (#[trigger] names@[k])@ == looks@[k]@,
            decreases looks@.len() - j,
        {
            names.push(looks[j].as_str().to_owned());
            j = j + 1;
        }
        let la = join_words(&names, ", ");
        r.append(la.as_str());
        r.append("〉");
        proof {
            reveal_strlit(" ");
            reveal_strlit(", ");
            reveal_strlit(" -> ");
            assert(prods@[self.prod as int]@ == g.spec_prods()[self.prod as int]);
            assert(" "@ == seq![' ']);
            assert(", "@ == seq![',', ' ']);
            assert(" -> "@ == seq![' ', '-', '>', ' ']);
            assert(string_views(names@) =~= term_views(looks@));
            assert(r@ =~= item_text(*g, *self, string_views(names@)));
        }
        r
    }
}

} // verus!
