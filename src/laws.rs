//! Properties that relate several parts of the library, stated and proved once.
use vstd::prelude::*;

use crate::cfg::{first_at, in_first, nullable, nullable_at, prefix_nullable, Rule};
use crate::grammar::{eps_tok, without_eps, Grammar};
use crate::item::{
    holds_kernel, lemma_covers_holds,
    all_in_closure, all_items_wf, body_of, core_lt, covers, expected_of, has_core, has_item,
    in_closure, item_view, items_closed, items_view, kv_core, kv_item, la_first, merged, reach,
    reach_la, rest_of, Family, Item,
};
use crate::table::{outcomes, Table};

verus! {

/// Every rule of `r1` is also a rule of `r2`.
pub open spec fn rules_included(r1: Seq<Rule>, r2: Seq<Rule>) -> bool {
    forall|p: int|
        0 <= p < r1.len() ==> exists|q: int|
            0 <= q < r2.len() && r2[q].head == (#[trigger] r1[p]).head && r2[q].body@ == r1[p].body@
}

/// ε is in FIRST(A) exactly when A derives the empty string.
pub proof fn lemma_eps_first_iff_nullable(g: Grammar, a: nat)
    requires
        g.wf(),
        a < g.spec_ns(),
    ensures
        g.spec_first()[a as int]@[g.eps_id() as int] <==> nullable(g.spec_rules(), g.spec_nt(), a),
{
    assert(g.spec_first()[a as int]@[g.eps_id() as int] <==> in_first(g.spec_rules(), g.spec_nt(), a, g.eps_id()));
}

proof fn lemma_nullable_at_included(r1: Seq<Rule>, r2: Seq<Rule>, nt: nat, n: nat, x: nat)
    requires
        rules_included(r1, r2),
        nullable_at(r1, nt, n, x),
    ensures
        nullable_at(r2, nt, n, x),
    decreases n,
{
    if x >= nt {
        let p = choose|p: int|
            0 <= p < r1.len() && #[trigger] r1[p].head == x && forall|j: int|
                0 <= j < r1[p].body@.len() ==> nullable_at(r1, nt, (n - 1) as nat, #[trigger] r1[p].body@[j] as nat);
        let q = choose|q: int| 0 <= q < r2.len() && r2[q].head == (#[trigger] r1[p]).head && r2[q].body@ == r1[p].body@;
        assert forall|j: int| 0 <= j < r2[q].body@.len() implies nullable_at(r2, nt, (n - 1) as nat, #[trigger] r2[q].body@[j] as nat) by {
            lemma_nullable_at_included(r1, r2, nt, (n - 1) as nat, r1[p].body@[j] as nat);
        }
        assert(r2[q].head == x);
    }
}

proof fn lemma_nullable_included(r1: Seq<Rule>, r2: Seq<Rule>, nt: nat, x: nat)
    requires
        rules_included(r1, r2),
        nullable(r1, nt, x),
    ensures
        nullable(r2, nt, x),
{
    let n = choose|n: nat| nullable_at(r1, nt, n, x);
    lemma_nullable_at_included(r1, r2, nt, n, x);
}

proof fn lemma_first_at_included(r1: Seq<Rule>, r2: Seq<Rule>, nt: nat, n: nat, x: nat, t: nat)
    requires
        rules_included(r1, r2),
        first_at(r1, nt, n, x, t),
    ensures
        first_at(r2, nt, n, x, t),
    decreases n,
{
    if x >= nt {
        let (p, i) = choose|p: int, i: int|
            0 <= p < r1.len() && #[trigger] r1[p].head == x && 0 <= i < r1[p].body@.len()
                && prefix_nullable(r1, nt, r1[p].body@, i)
                && first_at(r1, nt, (n - 1) as nat, #[trigger] r1[p].body@[i] as nat, t);
        let q = choose|q: int| 0 <= q < r2.len() && r2[q].head == (#[trigger] r1[p]).head && r2[q].body@ == r1[p].body@;
        lemma_first_at_included(r1, r2, nt, (n - 1) as nat, r1[p].body@[i] as nat, t);
        assert forall|j: int| 0 <= j < i implies nullable(r2, nt, #[trigger] r2[q].body@[j] as nat) by {
            lemma_nullable_included(r1, r2, nt, r1[p].body@[j] as nat);
        }
        assert(r2[q].head == x);
        assert(r2[q].body@[i] == r1[p].body@[i]);
    }
}

/// Adding productions never shrinks a FIRST set.
pub proof fn lemma_first_monotone(r1: Seq<Rule>, r2: Seq<Rule>, nt: nat, x: nat, t: nat)
    requires
        rules_included(r1, r2),
        in_first(r1, nt, x, t),
    ensures
        in_first(r2, nt, x, t),
{
    if t == nt - 2 {
        lemma_nullable_included(r1, r2, nt, x);
    } else {
        let n = choose|n: nat| first_at(r1, nt, n, x, t);
        lemma_first_at_included(r1, r2, nt, n, x, t);
    }
}

/// A production whose tail is only ε has an empty coded body: its item with the dot first
/// expects nothing.
pub proof fn lemma_eps_tail_expects_nothing(g: Grammar, p: int)
    requires
        g.wf(),
        0 <= p < g.spec_prods().len(),
        g.spec_prods()[p].tail == seq![eps_tok()],
    ensures
        expected_of(g, p, 0) is None,
{
    assert(g.rule_matches(p));
    let tail = g.spec_prods()[p].tail;
    assert(tail.drop_last() =~= Seq::<crate::token::TokenModel>::empty());
    assert(without_eps(tail) == without_eps(tail.drop_last()));
}

/// No item ever expects ε, so moving a dot over ε never happens.
pub proof fn lemma_never_expects_eps(g: Grammar, p: int, d: int)
    requires
        g.wf(),
        0 <= p < g.spec_rules().len(),
        0 <= d,
    ensures
        expected_of(g, p, d) matches Some(x) ==> x as nat != g.eps_id(),
{
    assert(crate::cfg::rules_wf(g.spec_rules(), g.spec_nt(), g.spec_ns()));
    if 0 <= d < g.spec_rules()[p].body@.len() {
        assert(g.spec_rules()[p].body@[d] != g.spec_nt() - 2);
        assert(body_of(g, p)[d] == g.spec_rules()[p].body@[d]);
    }
}

/// In a table without conflicts, every cell received at most one of shift, reduce and
/// accept.
pub proof fn lemma_conflict_free_single(g: Grammar, f: Family, tab: Table, s: int, t: nat)
    requires
        tab.is_table_of(g, f),
        !tab.spec_conflict(),
        0 <= s < f.spec_states().len(),
        t < g.spec_nt(),
    ensures
        outcomes(g, f, s, t).len() <= 1,
{
    if outcomes(g, f, s, t).len() > 1 {
        let u: int = t as int;
        assert(outcomes(g, f, s, u as nat) == outcomes(g, f, s, t));
        assert(0 <= s < f.spec_states().len() && 0 <= u < g.spec_nt() && outcomes(g, f, s, u as nat).len() > 1);
        assert(tab.spec_conflict());
    }
}

/// In a merged set, at most one item has a given core.
proof fn lemma_merged_unique(s: Seq<Item>, i: int, j: int)
    requires
        merged(s),
        0 <= i < s.len(),
        0 <= j < s.len(),
        s[i].prod == s[j].prod,
        s[i].dot == s[j].dot,
    ensures
        i == j,
{
    if i < j {
        assert(core_lt((s[i].prod, s[i].dot), (s[j].prod, s[j].dot)));
    } else if j < i {
        assert(core_lt((s[j].prod, s[j].dot), (s[i].prod, s[i].dot)));
    }
}

proof fn lemma_holds_own_kernel(g: Grammar, s: Seq<Item>)
    ensures
        holds_kernel(g, s, items_view(s)),
{
    assert forall|m: int| 0 <= m < items_view(s).len() implies has_core(s, (#[trigger] items_view(s)[m]).0 as int, items_view(s)[m].1 as int) && forall|t: int|
        0 <= t < g.spec_nt() && items_view(s)[m].2[t] ==> has_item(s, items_view(s)[m].0 as int, items_view(s)[m].1 as int, t) by {
        assert(items_view(s)[m] == item_view(s[m]));
    }
}

/// A closed, merged set that holds a kernel holds everything the kernel's closure reaches.
proof fn lemma_closed_holds_reach(g: Grammar, s: Seq<Item>, kv: Seq<(usize, usize, Seq<bool>)>, n: nat, p: int, d: int)
    requires
        g.wf(),
        merged(s),
        all_items_wf(g, s),
        items_closed(g, s),
        holds_kernel(g, s, kv),
        reach(g, kv, n, p, d),
    ensures
        has_core(s, p, d),
    decreases n,
{
    if n == 0 {
        let m = choose|m: int| 0 <= m < kv.len() && (#[trigger] kv[m]).0 == p && kv[m].1 == d;
        assert(has_core(s, kv[m].0 as int, kv[m].1 as int));
    } else if reach(g, kv, (n - 1) as nat, p, d) {
        lemma_closed_holds_reach(g, s, kv, (n - 1) as nat, p, d);
    } else {
        let (p2, d2) = choose|p2: int, d2: int|
            reach(g, kv, (n - 1) as nat, p2, d2) && #[trigger] expected_of(g, p2, d2) == Some(g.spec_rules()[p].head);
        lemma_closed_holds_reach(g, s, kv, (n - 1) as nat, p2, d2);
        let k = choose|k: int| 0 <= k < s.len() && (#[trigger] s[k]).prod == p2 && s[k].dot == d2;
        assert(crate::cfg::rules_wf(g.spec_rules(), g.spec_nt(), g.spec_ns()));
        assert(g.spec_rules()[p].head >= g.spec_nt());
        assert(expected_of(g, s[k].prod as int, s[k].dot as int) == Some(g.spec_rules()[p].head));
    }
}

/// A closed, merged set that holds a kernel holds every lookahead the kernel's closure
/// reaches.
proof fn lemma_closed_holds_reach_la(g: Grammar, s: Seq<Item>, kv: Seq<(usize, usize, Seq<bool>)>, n: nat, p: int, d: int, t: int)
    requires
        g.wf(),
        merged(s),
        all_items_wf(g, s),
        items_closed(g, s),
        holds_kernel(g, s, kv),
        0 <= t < g.spec_nt(),
        reach_la(g, kv, n, p, d, t),
    ensures
        has_item(s, p, d, t),
    decreases n,
{
    if n == 0 {
        let m = choose|m: int| 0 <= m < kv.len() && (#[trigger] kv[m]).0 == p && kv[m].1 == d && kv[m].2[t];
        assert(has_item(s, kv[m].0 as int, kv[m].1 as int, t));
    } else if reach_la(g, kv, (n - 1) as nat, p, d, t) {
        lemma_closed_holds_reach_la(g, s, kv, (n - 1) as nat, p, d, t);
    } else {
        let (p2, d2) = choose|p2: int, d2: int|
            reach(g, kv, (n - 1) as nat, p2, d2) && #[trigger] expected_of(g, p2, d2) == Some(g.spec_rules()[p].head)
                && ((t != g.eps_id() && crate::cfg::in_first_seq(g.spec_rules(), g.spec_nt(), rest_of(g, p2, d2), t as nat))
                || (crate::cfg::prefix_nullable(g.spec_rules(), g.spec_nt(), rest_of(g, p2, d2), rest_of(g, p2, d2).len() as int)
                && reach_la(g, kv, (n - 1) as nat, p2, d2, t)));
        lemma_closed_holds_reach(g, s, kv, (n - 1) as nat, p2, d2);
        let k = choose|k: int| 0 <= k < s.len() && (#[trigger] s[k]).prod == p2 && s[k].dot == d2;
        assert(crate::cfg::rules_wf(g.spec_rules(), g.spec_nt(), g.spec_ns()));
        assert(g.spec_rules()[p].head >= g.spec_nt());
        assert(expected_of(g, s[k].prod as int, s[k].dot as int) == Some(g.spec_rules()[p].head));
        if !(t != g.eps_id() && crate::cfg::in_first_seq(g.spec_rules(), g.spec_nt(), rest_of(g, p2, d2), t as nat)) {
            lemma_closed_holds_reach_la(g, s, kv, (n - 1) as nat, p2, d2, t);
            let m = choose|m: int| 0 <= m < s.len() && (#[trigger] s[m]).prod == p2 && s[m].dot == d2 && s[m].look@[t];
            lemma_merged_unique(s, k, m);
            assert(crate::item::item_wf(g, s[k]));
            assert(t != g.eps_id());
        }
        assert(la_first(g, rest_of(g, s[k].prod as int, s[k].dot as int), s[k].look@, t as nat));
        assert(d == 0);
        assert(has_core(s, p, 0));
        assert(has_item(s, p, 0, t));
    }
}

/// Closure is idempotent: the closure of a set that is already closed and merged holds
/// exactly its items, with exactly their lookaheads. `r` stands for that closure by what
/// the closure guarantees: it covers the set and holds nothing outside the set's closure.
pub proof fn lemma_closure_idempotent(g: Grammar, s: Seq<Item>, r: Seq<Item>)
    requires
        g.wf(),
        merged(s),
        all_items_wf(g, s),
        items_closed(g, s),
        covers(r, s),
        all_in_closure(g, items_view(s), r),
    ensures
        forall|p: int, d: int| has_core(r, p, d) <==> has_core(s, p, d),
        forall|p: int, d: int, t: int| 0 <= t < g.spec_nt() ==> (has_item(r, p, d, t) <==> has_item(s, p, d, t)),
{
    assert forall|p: int, d: int| has_core(r, p, d) <==> has_core(s, p, d) by {
        if has_core(r, p, d) {
            let m = choose|m: int| 0 <= m < r.len() && (#[trigger] r[m]).prod == p && r[m].dot == d;
            assert(in_closure(g, items_view(s), r[m]));
            let n = choose|n: nat| reach(g, items_view(s), n, p, d);
            lemma_holds_own_kernel(g, s);
            lemma_closed_holds_reach(g, s, items_view(s), n, p, d);
        }
        if has_core(s, p, d) {
            let m = choose|m: int| 0 <= m < s.len() && (#[trigger] s[m]).prod == p && s[m].dot == d;
            assert(has_core(r, s[m].prod as int, s[m].dot as int));
        }
    }
    assert forall|p: int, d: int, t: int| 0 <= t < g.spec_nt() implies (has_item(r, p, d, t) <==> has_item(s, p, d, t)) by {
        if has_item(r, p, d, t) {
            let m = choose|m: int| 0 <= m < r.len() && (#[trigger] r[m]).prod == p && r[m].dot == d && r[m].look@[t];
            assert(in_closure(g, items_view(s), r[m]));
            let n = choose|n: nat| reach_la(g, items_view(s), n, p, d, t);
            lemma_holds_own_kernel(g, s);
            lemma_closed_holds_reach_la(g, s, items_view(s), n, p, d, t);
        }
        if has_item(s, p, d, t) {
            let m = choose|m: int| 0 <= m < s.len() && (#[trigger] s[m]).prod == p && s[m].dot == d && s[m].look@[t];
            assert(item_view(s[m]).2 == s[m].look@);
            assert(has_item(r, s[m].prod as int, s[m].dot as int, t));
        }
    }
}

/// Two merged sets of items of `g` with the same cores and the same lookaheads per core
/// are the same list.
proof fn lemma_sorted_same(g: Grammar, r1: Seq<Item>, r2: Seq<Item>)
    requires
        merged(r1),
        merged(r2),
        all_items_wf(g, r1),
        all_items_wf(g, r2),
        forall|p: int, d: int| has_core(r1, p, d) <==> has_core(r2, p, d),
        forall|p: int, d: int, t: int| 0 <= t < g.spec_nt() ==> (has_item(r1, p, d, t) <==> has_item(r2, p, d, t)),
    ensures
        crate::item::same_items(r1, r2),
    decreases r1.len() + r2.len(),
{
    if r1.len() == 0 {
        if r2.len() > 0 {
            assert(has_core(r2, r2[0].prod as int, r2[0].dot as int));
        }
    } else {
        assert(has_core(r1, r1[0].prod as int, r1[0].dot as int));
        let j = choose|j: int| 0 <= j < r2.len() && (#[trigger] r2[j]).prod == r1[0].prod && r2[j].dot == r1[0].dot;
        assert(has_core(r2, r2[0].prod as int, r2[0].dot as int));
        let i = choose|i: int| 0 <= i < r1.len() && (#[trigger] r1[i]).prod == r2[0].prod && r1[i].dot == r2[0].dot;
        if i > 0 {
            assert(core_lt((r1[0].prod, r1[0].dot), (r1[i].prod, r1[i].dot)));
        }
        if j > 0 {
            assert(core_lt((r2[0].prod, r2[0].dot), (r2[j].prod, r2[j].dot)));
        }
        assert(r1[0].prod == r2[0].prod && r1[0].dot == r2[0].dot);
        assert(crate::item::item_wf(g, r1[0]));
        assert(crate::item::item_wf(g, r2[0]));
        assert forall|t: int| 0 <= t < g.spec_nt() implies r1[0].look@[t] == r2[0].look@[t] by {
            if r1[0].look@[t] {
                assert(has_item(r1, r1[0].prod as int, r1[0].dot as int, t));
                let m = choose|m: int| 0 <= m < r2.len() && (#[trigger] r2[m]).prod == r1[0].prod && r2[m].dot == r1[0].dot && r2[m].look@[t];
                lemma_merged_unique(r2, 0, m);
            }
            if r2[0].look@[t] {
                assert(has_item(r2, r2[0].prod as int, r2[0].dot as int, t));
                let m = choose|m: int| 0 <= m < r1.len() && (#[trigger] r1[m]).prod == r2[0].prod && r1[m].dot == r2[0].dot && r1[m].look@[t];
                lemma_merged_unique(r1, 0, m);
            }
        }
        assert(r1[0].look@ =~= r2[0].look@);
        let a = r1.drop_first();
        let b = r2.drop_first();
        assert forall|p: int, d: int| has_core(a, p, d) <==> has_core(b, p, d) by {
            if has_core(a, p, d) {
                let m = choose|m: int| 0 <= m < a.len() && (#[trigger] a[m]).prod == p && a[m].dot == d;
                assert(core_lt((r1[0].prod, r1[0].dot), (r1[m + 1].prod, r1[m + 1].dot)));
                assert(has_core(r1, p, d));
                let q = choose|q: int| 0 <= q < r2.len() && (#[trigger] r2[q]).prod == p && r2[q].dot == d;
                if q == 0 {
                    assert(false);
                }
                assert(b[q - 1] == r2[q]);
            }
            if has_core(b, p, d) {
                let m = choose|m: int| 0 <= m < b.len() && (#[trigger] b[m]).prod == p && b[m].dot == d;
                assert(core_lt((r2[0].prod, r2[0].dot), (r2[m + 1].prod, r2[m + 1].dot)));
                assert(has_core(r2, p, d));
                let q = choose|q: int| 0 <= q < r1.len() && (#[trigger] r1[q]).prod == p && r1[q].dot == d;
                if q == 0 {
                    assert(false);
                }
                assert(a[q - 1] == r1[q]);
            }
        }
        assert forall|p: int, d: int, t: int| 0 <= t < g.spec_nt() implies (has_item(a, p, d, t) <==> has_item(b, p, d, t)) by {
            if has_item(a, p, d, t) {
                let m = choose|m: int| 0 <= m < a.len() && (#[trigger] a[m]).prod == p && a[m].dot == d && a[m].look@[t];
                assert(core_lt((r1[0].prod, r1[0].dot), (r1[m + 1].prod, r1[m + 1].dot)));
                assert(has_item(r1, p, d, t));
                let q = choose|q: int| 0 <= q < r2.len() && (#[trigger] r2[q]).prod == p && r2[q].dot == d && r2[q].look@[t];
                if q == 0 {
                    assert(false);
                }
                assert(b[q - 1] == r2[q]);
            }
            if has_item(b, p, d, t) {
                let m = choose|m: int| 0 <= m < b.len() && (#[trigger] b[m]).prod == p && b[m].dot == d && b[m].look@[t];
                assert(core_lt((r2[0].prod, r2[0].dot), (r2[m + 1].prod, r2[m + 1].dot)));
                assert(has_item(r2, p, d, t));
                let q = choose|q: int| 0 <= q < r1.len() && (#[trigger] r1[q]).prod == p && r1[q].dot == d && r1[q].look@[t];
                if q == 0 {
                    assert(false);
                }
                assert(a[q - 1] == r1[q]);
            }
        }
        assert forall|x: int, y: int| 0 <= x < y < a.len() implies core_lt(((#[trigger] a[x]).prod, a[x].dot), ((#[trigger] a[y]).prod, a[y].dot)) by {
            assert(a[x] == r1[x + 1] && a[y] == r1[y + 1]);
        }
        assert forall|x: int, y: int| 0 <= x < y < b.len() implies core_lt(((#[trigger] b[x]).prod, b[x].dot), ((#[trigger] b[y]).prod, b[y].dot)) by {
            assert(b[x] == r2[x + 1] && b[y] == r2[y + 1]);
        }
        assert forall|x: int| 0 <= x < a.len() implies crate::item::item_wf(g, #[trigger] a[x]) by {
            assert(a[x] == r1[x + 1]);
        }
        assert forall|x: int| 0 <= x < b.len() implies crate::item::item_wf(g, #[trigger] b[x]) by {
            assert(b[x] == r2[x + 1]);
        }
        lemma_sorted_same(g, a, b);
        assert forall|k: int| 0 <= k < r1.len() implies #[trigger] item_view(r1[k]) == item_view(r2[k]) by {
            if k > 0 {
                assert(a[k - 1] == r1[k] && b[k - 1] == r2[k]);
                assert(item_view(a[k - 1]) == item_view(b[k - 1]));
            }
        }
    }
}

/// GOTO targets are determined: two item lists that each meet what the closure of a kernel
/// guarantees (merged, closed, holding the kernel, and nothing outside its closure) are the
/// same list. So the state that `GOTO(I, x)` yields depends on `I` and `x` alone.
pub proof fn lemma_closure_unique(g: Grammar, kernel: Seq<Item>, r1: Seq<Item>, r2: Seq<Item>)
    requires
        g.wf(),
        all_items_wf(g, kernel),
        merged(r1),
        all_items_wf(g, r1),
        items_closed(g, r1),
        covers(r1, kernel),
        all_in_closure(g, items_view(kernel), r1),
        merged(r2),
        all_items_wf(g, r2),
        items_closed(g, r2),
        covers(r2, kernel),
        all_in_closure(g, items_view(kernel), r2),
    ensures
        crate::item::same_items(r1, r2),
{
    lemma_covers_holds(g, r1, kernel);
    lemma_covers_holds(g, r2, kernel);
    lemma_kernel_closure_unique(g, items_view(kernel), r1, r2);
}

/// The closure of a kernel given as views is unique in the same way.
pub proof fn lemma_kernel_closure_unique(g: Grammar, kv: Seq<(usize, usize, Seq<bool>)>, r1: Seq<Item>, r2: Seq<Item>)
    requires
        g.wf(),
        merged(r1),
        all_items_wf(g, r1),
        items_closed(g, r1),
        holds_kernel(g, r1, kv),
        all_in_closure(g, kv, r1),
        merged(r2),
        all_items_wf(g, r2),
        items_closed(g, r2),
        holds_kernel(g, r2, kv),
        all_in_closure(g, kv, r2),
    ensures
        crate::item::same_items(r1, r2),
{
    assert forall|p: int, d: int| has_core(r1, p, d) <==> has_core(r2, p, d) by {
        if has_core(r1, p, d) {
            let m = choose|m: int| 0 <= m < r1.len() && (#[trigger] r1[m]).prod == p && r1[m].dot == d;
            assert(in_closure(g, kv, r1[m]));
            let n = choose|n: nat| reach(g, kv, n, p, d);
            lemma_closed_holds_reach(g, r2, kv, n, p, d);
        }
        if has_core(r2, p, d) {
            let m = choose|m: int| 0 <= m < r2.len() && (#[trigger] r2[m]).prod == p && r2[m].dot == d;
            assert(in_closure(g, kv, r2[m]));
            let n = choose|n: nat| reach(g, kv, n, p, d);
            lemma_closed_holds_reach(g, r1, kv, n, p, d);
        }
    }
    assert forall|p: int, d: int, t: int| 0 <= t < g.spec_nt() implies (has_item(r1, p, d, t) <==> has_item(r2, p, d, t)) by {
        if has_item(r1, p, d, t) {
            let m = choose|m: int| 0 <= m < r1.len() && (#[trigger] r1[m]).prod == p && r1[m].dot == d && r1[m].look@[t];
            assert(in_closure(g, kv, r1[m]));
            let n = choose|n: nat| reach_la(g, kv, n, p, d, t);
            lemma_closed_holds_reach_la(g, r2, kv, n, p, d, t);
        }
        if has_item(r2, p, d, t) {
            let m = choose|m: int| 0 <= m < r2.len() && (#[trigger] r2[m]).prod == p && r2[m].dot == d && r2[m].look@[t];
            assert(in_closure(g, kv, r2[m]));
            let n = choose|n: nat| reach_la(g, kv, n, p, d, t);
            lemma_closed_holds_reach_la(g, r1, kv, n, p, d, t);
        }
    }
    lemma_sorted_same(g, r1, r2);
}

proof fn lemma_single_rule_nullable(rules: Seq<Rule>, nt: nat, a: nat, b: usize, n: nat)
    requires
        nt <= a,
        rules.len() > 0,
        rules[0].head == a,
        rules[0].body@ == seq![b],
        forall|q: int| 0 < q < rules.len() ==> rules[q].head != a,
    ensures
        nullable_at(rules, nt, n + 1, a) <==> nullable_at(rules, nt, n, b as nat),
{
    if nullable_at(rules, nt, n + 1, a) {
        let p = choose|p: int|
            0 <= p < rules.len() && #[trigger] rules[p].head == a && forall|j: int|
                0 <= j < rules[p].body@.len() ==> nullable_at(rules, nt, n, #[trigger] rules[p].body@[j] as nat);
        assert(p == 0);
        assert(rules[0].body@[0] == b);
    }
    if nullable_at(rules, nt, n, b as nat) {
        assert(rules[0].body@[0] == b);
        assert(forall|j: int| 0 <= j < rules[0].body@.len() ==> nullable_at(rules, nt, n, #[trigger] rules[0].body@[j] as nat));
    }
}

proof fn lemma_single_rule_first(rules: Seq<Rule>, nt: nat, a: nat, b: usize, n: nat, t: nat)
    requires
        nt <= a,
        rules.len() > 0,
        rules[0].head == a,
        rules[0].body@ == seq![b],
        forall|q: int| 0 < q < rules.len() ==> rules[q].head != a,
    ensures
        first_at(rules, nt, n + 1, a, t) <==> first_at(rules, nt, n, b as nat, t),
{
    if first_at(rules, nt, n + 1, a, t) {
        let (p, i) = choose|p: int, i: int|
            0 <= p < rules.len() && #[trigger] rules[p].head == a && 0 <= i < rules[p].body@.len()
                && prefix_nullable(rules, nt, rules[p].body@, i)
                && first_at(rules, nt, n, #[trigger] rules[p].body@[i] as nat, t);
        assert(p == 0 && i == 0);
    }
    if first_at(rules, nt, n, b as nat, t) {
        assert(rules[0].body@[0] == b);
        assert(prefix_nullable(rules, nt, rules[0].body@, 0));
    }
}

/// In an augmented grammar the fresh start symbol has the FIRST set of the old start symbol:
/// its one production is `Sprime -> S`.
pub proof fn lemma_augmented_first(g: Grammar, t: nat)
    requires
        g.wf(),
        g.spec_prods().len() > 0,
        g.spec_prods()[0].head == g.spec_start(),
        g.spec_prods()[0].tail.len() == 1,
        g.spec_prods()[0].tail[0] is NonTerm,
        forall|q: int| 0 < q < g.spec_prods().len() ==> g.spec_prods()[q].head != g.spec_start(),
    ensures
        g.spec_rules()[0].body@.len() == 1,
        g.spec_tokens()[g.spec_rules()[0].body@[0] as int] == g.spec_prods()[0].tail[0],
        in_first(g.spec_rules(), g.spec_nt(), g.spec_start_id(), t) <==> in_first(
            g.spec_rules(),
            g.spec_nt(),
            g.spec_rules()[0].body@[0] as nat,
            t,
        ),
{
    let rules = g.spec_rules();
    let nt = g.spec_nt();
    assert(g.rule_matches(0));
    let tail = g.spec_prods()[0].tail;
    assert(tail.drop_last() =~= Seq::<crate::token::TokenModel>::empty());
    assert(without_eps(tail.drop_last()) =~= Seq::<crate::token::TokenModel>::empty());
    assert(tail.last() != eps_tok());
    assert(without_eps(tail) =~= seq![tail[0]]);
    let a = g.spec_start_id();
    let b = rules[0].body@[0];
    assert(g.spec_tokens()[rules[0].head as int] == g.spec_tokens()[a as int]);
    assert(rules[0].head == a);
    assert(rules[0].body@ =~= seq![b]);
    assert forall|q: int| 0 < q < rules.len() implies rules[q].head != a by {
        assert(g.rule_matches(q));
        if rules[q].head == a {
            assert(g.spec_prods()[q].head == g.spec_start());
        }
    }
    if t == nt - 2 {
        if crate::cfg::nullable(rules, nt, a) {
            let n = choose|n: nat| nullable_at(rules, nt, n, a);
            if n > 0 {
                lemma_single_rule_nullable(rules, nt, a, b, (n - 1) as nat);
            }
        }
        if crate::cfg::nullable(rules, nt, b as nat) {
            let n = choose|n: nat| nullable_at(rules, nt, n, b as nat);
            lemma_single_rule_nullable(rules, nt, a, b, n);
        }
    } else {
        if exists|n: nat| first_at(rules, nt, n, a, t) {
            let n = choose|n: nat| first_at(rules, nt, n, a, t);
            if n > 0 {
                lemma_single_rule_first(rules, nt, a, b, (n - 1) as nat, t);
            }
        }
        if exists|n: nat| first_at(rules, nt, n, b as nat, t) {
            let n = choose|n: nat| first_at(rules, nt, n, b as nat, t);
            lemma_single_rule_first(rules, nt, a, b, n, t);
        }
    }
}

/// `I₀` is determined: two item lists that are each the closure of the start production with
/// end of input as lookahead are the same list.
pub proof fn lemma_initial_unique(g: Grammar, s1: Seq<Item>, s2: Seq<Item>)
    requires
        g.wf(),
        crate::item::has_unique_start(g),
        merged(s1),
        all_items_wf(g, s1),
        items_closed(g, s1),
        crate::item::is_initial(g, s1),
        merged(s2),
        all_items_wf(g, s2),
        items_closed(g, s2),
        crate::item::is_initial(g, s2),
    ensures
        crate::item::same_items(s1, s2),
{
    let p1 = choose|p: int|
        0 <= p < g.spec_rules().len() && g.spec_rules()[p].head == g.spec_start_id()
            && #[trigger] has_item(s1, p, 0, g.eof_id() as int) && all_in_closure(g, crate::item::initial_kernel(g, p), s1);
    let p2 = choose|p: int|
        0 <= p < g.spec_rules().len() && g.spec_rules()[p].head == g.spec_start_id()
            && #[trigger] has_item(s2, p, 0, g.eof_id() as int) && all_in_closure(g, crate::item::initial_kernel(g, p), s2);
    let u = choose|p: int|
        0 <= p < g.spec_rules().len() && g.spec_rules()[p].head == g.spec_start_id() && forall|q: int|
            0 <= q < g.spec_rules().len() && g.spec_rules()[q].head == g.spec_start_id() ==> q == p;
    assert(p1 == u && p2 == u);
    let kv = crate::item::initial_kernel(g, p1);
    assert forall|r: Seq<Item>| has_item(r, p1, 0, g.eof_id() as int) implies #[trigger] holds_kernel(g, r, kv) by {
        assert forall|m: int| 0 <= m < kv.len() implies has_core(r, (#[trigger] kv[m]).0 as int, kv[m].1 as int) && forall|t: int|
            0 <= t < g.spec_nt() && kv[m].2[t] ==> has_item(r, kv[m].0 as int, kv[m].1 as int, t) by {
            let w = choose|w: int| 0 <= w < r.len() && (#[trigger] r[w]).prod == p1 && r[w].dot == 0 && r[w].look@[g.eof_id() as int];
            assert(has_core(r, p1, 0));
        }
    }
    assert(holds_kernel(g, s1, kv));
    assert(holds_kernel(g, s2, kv));
    lemma_kernel_closure_unique(g, kv, s1, s2);
}

/// The target of each edge `(s, x)` of the canonical collection is determined: it is the one
/// closure of the items of state `s` with the dot moved past `x`, and any item list meeting
/// that description holds the same items (state 0 is determined by `lemma_initial_unique`).
pub proof fn lemma_family_states_determined(g: Grammar, f: Family, s: int, e: int, j: Seq<Item>)
    requires
        g.wf(),
        f.wf(g),
        0 <= s < f.spec_states().len(),
        0 <= e < f.spec_edges()[s].len(),
        merged(j),
        all_items_wf(g, j),
        items_closed(g, j),
        holds_kernel(g, j, crate::item::moved_views(g, f.spec_states()[s].spec_items(), f.spec_edges()[s][e].0 as nat)),
        all_in_closure(g, crate::item::moved_views(g, f.spec_states()[s].spec_items(), f.spec_edges()[s][e].0 as nat), j),
    ensures
        crate::item::same_items(j, f.spec_states()[f.spec_edges()[s][e].1 as int].spec_items()),
{
    assert(crate::item::row_ok(g, f.spec_states(), s, f.spec_edges()[s]));
    let t = f.spec_edges()[s][e].1 as int;
    assert(f.spec_states()[t].wf(g));
    lemma_kernel_closure_unique(
        g,
        crate::item::moved_views(g, f.spec_states()[s].spec_items(), f.spec_edges()[s][e].0 as nat),
        j,
        f.spec_states()[t].spec_items(),
    );
}

/// A token derives the empty string within `n` levels, reading productions by name.
pub open spec fn nm_nullable_at(ps: Seq<crate::grammar::ProductionModel>, n: nat, x: crate::token::TokenModel) -> bool
    decreases n,
{
    match x {
        crate::token::TokenModel::Term(s) => s == crate::token::eps_ident(),
        crate::token::TokenModel::NonTerm(a) => n > 0 && exists|p: int|
            0 <= p < ps.len() && (#[trigger] ps[p]).head == a && forall|j: int|
                0 <= j < without_eps(ps[p].tail).len() ==> nm_nullable_at(ps, (n - 1) as nat, #[trigger] without_eps(ps[p].tail)[j]),
    }
}

/// A token derives the empty string, reading productions by name.
pub open spec fn nm_nullable(ps: Seq<crate::grammar::ProductionModel>, x: crate::token::TokenModel) -> bool {
    exists|n: nat| nm_nullable_at(ps, n, x)
}

/// A string derived from token `x` within `n` levels begins with the terminal named `t`,
/// reading productions by name.
pub open spec fn nm_first_at(ps: Seq<crate::grammar::ProductionModel>, n: nat, x: crate::token::TokenModel, t: Seq<char>) -> bool
    decreases n,
{
    match x {
        crate::token::TokenModel::Term(s) => s == t,
        crate::token::TokenModel::NonTerm(a) => n > 0 && exists|p: int, i: int|
            #![trigger ps[p], without_eps(ps[p].tail)[i]]
            0 <= p < ps.len() && ps[p].head == a && 0 <= i < without_eps(ps[p].tail).len()
                && (forall|j: int| 0 <= j < i ==> nm_nullable(ps, #[trigger] without_eps(ps[p].tail)[j]))
                && nm_first_at(ps, (n - 1) as nat, without_eps(ps[p].tail)[i], t),
    }
}

/// Every production of `p1` is a production of `p2`.
pub open spec fn prods_included(p1: Seq<crate::grammar::ProductionModel>, p2: Seq<crate::grammar::ProductionModel>) -> bool {
    forall|p: int| 0 <= p < p1.len() ==> p2.contains(#[trigger] p1[p])
}

proof fn lemma_nm_nullable_mono(p1: Seq<crate::grammar::ProductionModel>, p2: Seq<crate::grammar::ProductionModel>, n: nat, x: crate::token::TokenModel)
    requires
        prods_included(p1, p2),
        nm_nullable_at(p1, n, x),
    ensures
        nm_nullable_at(p2, n, x),
    decreases n,
{
    if let crate::token::TokenModel::NonTerm(a) = x {
        let p = choose|p: int|
            0 <= p < p1.len() && (#[trigger] p1[p]).head == a && forall|j: int|
                0 <= j < without_eps(p1[p].tail).len() ==> nm_nullable_at(p1, (n - 1) as nat, #[trigger] without_eps(p1[p].tail)[j]);
        assert(p2.contains(p1[p]));
        let q = choose|q: int| 0 <= q < p2.len() && p2[q] == p1[p];
        assert forall|j: int| 0 <= j < without_eps(p2[q].tail).len() implies nm_nullable_at(p2, (n - 1) as nat, #[trigger] without_eps(p2[q].tail)[j]) by {
            lemma_nm_nullable_mono(p1, p2, (n - 1) as nat, without_eps(p1[p].tail)[j]);
        }
        assert(p2[q].head == a);
    }
}

proof fn lemma_nm_first_mono(p1: Seq<crate::grammar::ProductionModel>, p2: Seq<crate::grammar::ProductionModel>, n: nat, x: crate::token::TokenModel, t: Seq<char>)
    requires
        prods_included(p1, p2),
        nm_first_at(p1, n, x, t),
    ensures
        nm_first_at(p2, n, x, t),
    decreases n,
{
    if let crate::token::TokenModel::NonTerm(a) = x {
        let (p, i) = choose|p: int, i: int|
            #![trigger p1[p], without_eps(p1[p].tail)[i]]
            0 <= p < p1.len() && p1[p].head == a && 0 <= i < without_eps(p1[p].tail).len()
                && (forall|j: int| 0 <= j < i ==> nm_nullable(p1, #[trigger] without_eps(p1[p].tail)[j]))
                && nm_first_at(p1, (n - 1) as nat, without_eps(p1[p].tail)[i], t);
        assert(p2.contains(p1[p]));
        let q = choose|q: int| 0 <= q < p2.len() && p2[q] == p1[p];
        assert forall|j: int| 0 <= j < i implies nm_nullable(p2, #[trigger] without_eps(p2[q].tail)[j]) by {
            let m = choose|m: nat| nm_nullable_at(p1, m, without_eps(p1[p].tail)[j]);
            lemma_nm_nullable_mono(p1, p2, m, without_eps(p1[p].tail)[j]);
        }
        lemma_nm_first_mono(p1, p2, (n - 1) as nat, without_eps(p1[p].tail)[i], t);
        assert(p2[q].head == a);
    }
}

/// Adding productions never shrinks FIRST, read by name: when every production of `p1` is
/// one of `p2`, a token that derives ε under `p1` does under `p2`, and a terminal that can
/// begin a string derived from a token under `p1` can under `p2`.
pub proof fn lemma_first_never_shrinks(
    p1: Seq<crate::grammar::ProductionModel>,
    p2: Seq<crate::grammar::ProductionModel>,
    x: crate::token::TokenModel,
    t: Seq<char>,
)
    requires
        prods_included(p1, p2),
    ensures
        nm_nullable(p1, x) ==> nm_nullable(p2, x),
        (exists|n: nat| nm_first_at(p1, n, x, t)) ==> (exists|n: nat| nm_first_at(p2, n, x, t)),
{
    if nm_nullable(p1, x) {
        let n = choose|n: nat| nm_nullable_at(p1, n, x);
        lemma_nm_nullable_mono(p1, p2, n, x);
    }
    if exists|n: nat| nm_first_at(p1, n, x, t) {
        let n = choose|n: nat| nm_first_at(p1, n, x, t);
        lemma_nm_first_mono(p1, p2, n, x, t);
    }
}

proof fn lemma_nullable_by_name(g: Grammar, n: nat, c: int)
    requires
        g.wf(),
        0 <= c < g.spec_ns(),
    ensures
        nullable_at(g.spec_rules(), g.spec_nt(), n, c as nat) <==> nm_nullable_at(g.spec_prods(), n, g.spec_tokens()[c]),
    decreases n,
{
    let rules = g.spec_rules();
    let nt = g.spec_nt();
    let ps = g.spec_prods();
    let tk = g.spec_tokens();
    assert(crate::cfg::rules_wf(rules, nt, g.spec_ns()));
    if c < nt {
        assert(tk[c] is Term);
        if c == nt - 2 {
        } else {
            assert(tk[c] != tk[nt - 2]);
        }
    } else if n > 0 {
        assert(tk[c] is NonTerm);
        let a = tk[c]->NonTerm_0;
        if nullable_at(rules, nt, n, c as nat) {
            let p = choose|p: int|
                0 <= p < rules.len() && #[trigger] rules[p].head == c && forall|j: int|
                    0 <= j < rules[p].body@.len() ==> nullable_at(rules, nt, (n - 1) as nat, #[trigger] rules[p].body@[j] as nat);
            assert(g.rule_matches(p));
            let we = without_eps(ps[p].tail);
            assert forall|j: int| 0 <= j < we.len() implies nm_nullable_at(ps, (n - 1) as nat, #[trigger] we[j]) by {
                lemma_nullable_by_name(g, (n - 1) as nat, rules[p].body@[j] as int);
            }
            assert(ps[p].head == a);
        }
        if nm_nullable_at(ps, n, tk[c]) {
            let p = choose|p: int|
                0 <= p < ps.len() && (#[trigger] ps[p]).head == a && forall|j: int|
                    0 <= j < without_eps(ps[p].tail).len() ==> nm_nullable_at(ps, (n - 1) as nat, #[trigger] without_eps(ps[p].tail)[j]);
            assert(g.rule_matches(p));
            assert(rules[p].head < g.spec_ns());
            assert(tk[rules[p].head as int] == tk[c]);
            assert(rules[p].head == c);
            assert forall|j: int| 0 <= j < rules[p].body@.len() implies nullable_at(rules, nt, (n - 1) as nat, #[trigger] rules[p].body@[j] as nat) by {
                lemma_nullable_by_name(g, (n - 1) as nat, rules[p].body@[j] as int);
            }
        }
    } else {
        assert(tk[c] is NonTerm);
    }
}

proof fn lemma_nullable_by_name_any(g: Grammar, c: int)
    requires
        g.wf(),
        0 <= c < g.spec_ns(),
    ensures
        crate::cfg::nullable(g.spec_rules(), g.spec_nt(), c as nat) <==> nm_nullable(g.spec_prods(), g.spec_tokens()[c]),
{
    if crate::cfg::nullable(g.spec_rules(), g.spec_nt(), c as nat) {
        let n = choose|n: nat| #[trigger] nullable_at(g.spec_rules(), g.spec_nt(), n, c as nat);
        lemma_nullable_by_name(g, n, c);
    }
    if nm_nullable(g.spec_prods(), g.spec_tokens()[c]) {
        let n = choose|n: nat| nm_nullable_at(g.spec_prods(), n, g.spec_tokens()[c]);
        lemma_nullable_by_name(g, n, c);
    }
}

proof fn lemma_first_at_by_name(g: Grammar, n: nat, c: int, tc: int)
    requires
        g.wf(),
        0 <= c < g.spec_ns(),
        0 <= tc < g.spec_nt(),
        tc != g.eps_id(),
    ensures
        first_at(g.spec_rules(), g.spec_nt(), n, c as nat, tc as nat) <==> nm_first_at(
            g.spec_prods(),
            n,
            g.spec_tokens()[c],
            crate::grammar::tok_name(g.spec_tokens()[tc]),
        ),
    decreases n,
{
    let rules = g.spec_rules();
    let nt = g.spec_nt();
    let ps = g.spec_prods();
    let tk = g.spec_tokens();
    let tn = crate::grammar::tok_name(tk[tc]);
    assert(crate::cfg::rules_wf(rules, nt, g.spec_ns()));
    assert(tk[tc] is Term);
    if c < nt {
        assert(tk[c] is Term);
        if c != tc {
            assert(tk[c] != tk[tc]);
        }
    } else if n > 0 {
        assert(tk[c] is NonTerm);
        let a = tk[c]->NonTerm_0;
        if first_at(rules, nt, n, c as nat, tc as nat) {
            let (p, i) = choose|p: int, i: int|
                0 <= p < rules.len() && #[trigger] rules[p].head == c && 0 <= i < rules[p].body@.len()
                    && prefix_nullable(rules, nt, rules[p].body@, i)
                    && first_at(rules, nt, (n - 1) as nat, #[trigger] rules[p].body@[i] as nat, tc as nat);
            assert(g.rule_matches(p));
            let we = without_eps(ps[p].tail);
            assert forall|j: int| 0 <= j < i implies nm_nullable(ps, #[trigger] we[j]) by {
                lemma_nullable_by_name_any(g, rules[p].body@[j] as int);
            }
            lemma_first_at_by_name(g, (n - 1) as nat, rules[p].body@[i] as int, tc);
            assert(ps[p].head == a);
            assert(we[i] == tk[rules[p].body@[i] as int]);
        }
        if nm_first_at(ps, n, tk[c], tn) {
            let (p, i) = choose|p: int, i: int|
                #![trigger ps[p], without_eps(ps[p].tail)[i]]
                0 <= p < ps.len() && ps[p].head == a && 0 <= i < without_eps(ps[p].tail).len()
                    && (forall|j: int| 0 <= j < i ==> nm_nullable(ps, #[trigger] without_eps(ps[p].tail)[j]))
                    && nm_first_at(ps, (n - 1) as nat, without_eps(ps[p].tail)[i], tn);
            assert(g.rule_matches(p));
            assert(tk[rules[p].head as int] == tk[c]);
            assert(rules[p].head == c);
            assert forall|j: int| 0 <= j < i implies crate::cfg::nullable(rules, nt, #[trigger] rules[p].body@[j] as nat) by {
                lemma_nullable_by_name_any(g, rules[p].body@[j] as int);
            }
            lemma_first_at_by_name(g, (n - 1) as nat, rules[p].body@[i] as int, tc);
        }
    } else {
        assert(tk[c] is NonTerm);
    }
}

/// FIRST over codes is FIRST read by name: `t ∈ FIRST(x)` in the coded grammar exactly when,
/// reading the productions by name, the token of `x` derives ε (for `t` = ε) or derives a
/// string that begins with the terminal of `t`. With `lemma_first_never_shrinks`, FIRST over
/// the productions of a grammar never shrinks when productions are added.
pub proof fn lemma_first_by_name(g: Grammar, c: int, tc: int)
    requires
        g.wf(),
        0 <= c < g.spec_ns(),
        0 <= tc < g.spec_nt(),
    ensures
        tc == g.eps_id() ==> (in_first(g.spec_rules(), g.spec_nt(), c as nat, tc as nat) <==> nm_nullable(
            g.spec_prods(),
            g.spec_tokens()[c],
        )),
        tc != g.eps_id() ==> (in_first(g.spec_rules(), g.spec_nt(), c as nat, tc as nat) <==> exists|n: nat|
            nm_first_at(g.spec_prods(), n, g.spec_tokens()[c], crate::grammar::tok_name(g.spec_tokens()[tc]))),
{
    if tc == g.eps_id() {
        lemma_nullable_by_name_any(g, c);
    } else {
        let tn = crate::grammar::tok_name(g.spec_tokens()[tc]);
        if exists|n: nat| #[trigger] first_at(g.spec_rules(), g.spec_nt(), n, c as nat, tc as nat) {
            let n = choose|n: nat| #[trigger] first_at(g.spec_rules(), g.spec_nt(), n, c as nat, tc as nat);
            lemma_first_at_by_name(g, n, c, tc);
        }
        if exists|n: nat| nm_first_at(g.spec_prods(), n, g.spec_tokens()[c], tn) {
            let n = choose|n: nat| nm_first_at(g.spec_prods(), n, g.spec_tokens()[c], tn);
            lemma_first_at_by_name(g, n, c, tc);
        }
    }
}

} // verus!
