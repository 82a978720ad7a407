//! The grammar in coded form (every symbol replaced by its index in the ordered token list),
//! what a derivation of ε and a FIRST set mean there, and the fixpoint that computes them.
//!
//! Symbols `0..nt` are terminals, with ε at `nt - 2` and end of input at `nt - 1`; symbols
//! `nt..ns` are non-terminals.
use vstd::prelude::*;

verus! {

/// A production in coded form; `body` is its tail with every ε left out.
#[derive(Debug)]
pub struct Rule {
    pub head: usize,
    pub body: Vec<usize>,
}

/// Heads are non-terminals, bodies name known symbols and never ε.
pub open spec fn rules_wf(rules: Seq<Rule>, nt: nat, ns: nat) -> bool {
    &&& 2 <= nt <= ns
    &&& forall|p: int| 0 <= p < rules.len() ==> nt <= #[trigger] rules[p].head < ns
    &&& forall|p: int, j: int|
        0 <= p < rules.len() && 0 <= j < rules[p].body@.len() ==> #[trigger] rules[p].body@[j] < ns
            && rules[p].body@[j] != nt - 2
}

/// `x` derives the empty string by a derivation tree of height at most `n`.
pub open spec fn nullable_at(rules: Seq<Rule>, nt: nat, n: nat, x: nat) -> bool
    decreases n,
{
    if x < nt {
        x == nt - 2
    } else if n == 0 {
        false
    } else {
        exists|p: int|
            0 <= p < rules.len() && #[trigger] rules[p].head == x && forall|j: int|
                0 <= j < rules[p].body@.len() ==> nullable_at(
                    rules,
                    nt,
                    (n - 1) as nat,
                    #[trigger] rules[p].body@[j] as nat,
                )
    }
}

/// `x ⇒* ε`.
pub open spec fn nullable(rules: Seq<Rule>, nt: nat, x: nat) -> bool {
    exists|n: nat| nullable_at(rules, nt, n, x)
}

/// Every symbol of `w` before position `i` derives ε.
pub open spec fn prefix_nullable(rules: Seq<Rule>, nt: nat, w: Seq<usize>, i: int) -> bool {
    forall|j: int| 0 <= j < i ==> nullable(rules, nt, #[trigger] w[j] as nat)
}

/// A string derived from `x` begins with the terminal `t` (≠ ε), by a derivation of height at
/// most `n`.
pub open spec fn first_at(rules: Seq<Rule>, nt: nat, n: nat, x: nat, t: nat) -> bool
    decreases n,
{
    if x < nt {
        x == t
    } else if n == 0 {
        false
    } else {
        exists|p: int, i: int|
            0 <= p < rules.len() && #[trigger] rules[p].head == x && 0 <= i
                < rules[p].body@.len() && prefix_nullable(rules, nt, rules[p].body@, i)
                && first_at(rules, nt, (n - 1) as nat, #[trigger] rules[p].body@[i] as nat, t)
    }
}

/// `t ∈ FIRST(x)`: for ε, `x ⇒* ε`; for any other terminal, some string derived from `x`
/// begins with it.
pub open spec fn in_first(rules: Seq<Rule>, nt: nat, x: nat, t: nat) -> bool {
    if t == nt - 2 {
        nullable(rules, nt, x)
    } else {
        exists|n: nat| first_at(rules, nt, n, x, t)
    }
}

/// `t ∈ FIRST(w)` for a string `w`: ε when all of `w` derives ε, otherwise some symbol
/// preceded only by nullable ones has `t` in its FIRST set.
pub open spec fn in_first_seq(rules: Seq<Rule>, nt: nat, w: Seq<usize>, t: nat) -> bool {
    if t == nt - 2 {
        prefix_nullable(rules, nt, w, w.len() as int)
    } else {
        exists|i: int|
            0 <= i < w.len() && prefix_nullable(rules, nt, w, i) && #[trigger] in_first(
                rules,
                nt,
                w[i] as nat,
                t,
            )
    }
}

/// A table of FIRST sets has one row per symbol and one column per terminal.
pub open spec fn table_shape(f: Seq<Vec<bool>>, nt: nat, ns: nat) -> bool {
    &&& f.len() == ns
    &&& forall|x: int| 0 <= x < ns ==> (#[trigger] f[x])@.len() == nt
}

/// Exactly the FIRST sets of the coded grammar.
pub open spec fn is_first_table(rules: Seq<Rule>, nt: nat, ns: nat, f: Seq<Vec<bool>>) -> bool {
    &&& table_shape(f, nt, ns)
    &&& forall|x: int, t: int|
        0 <= x < ns && 0 <= t < nt ==> (#[trigger] f[x]@[t] <==> in_first(
            rules,
            nt,
            x as nat,
            t as nat,
        ))
}

spec fn sound(rules: Seq<Rule>, nt: nat, ns: nat, f: Seq<Vec<bool>>) -> bool {
    forall|x: int, t: int|
        0 <= x < ns && 0 <= t < nt && #[trigger] f[x]@[t] ==> in_first(
            rules,
            nt,
            x as nat,
            t as nat,
        )
}

spec fn eps_depth(rules: Seq<Rule>, nt: nat, ns: nat, f: Seq<Vec<bool>>, d: nat) -> bool {
    forall|x: int| 0 <= x < ns && #[trigger] f[x]@[nt - 2] ==> nullable_at(rules, nt, d, x as nat)
}

spec fn terminal_rows(nt: nat, f: Seq<Vec<bool>>) -> bool {
    forall|x: int, t: int| 0 <= x < nt && 0 <= t < nt ==> (#[trigger] f[x]@[t] <==> x == t)
}

/// Every symbol of `w` before `i` has ε in its row of `f`.
spec fn table_prefix(nt: nat, f: Seq<Vec<bool>>, w: Seq<usize>, i: int) -> bool {
    forall|j: int| 0 <= j < i ==> #[trigger] f[w[j] as int]@[nt - 2]
}

spec fn pos_closed(rules: Seq<Rule>, nt: nat, f: Seq<Vec<bool>>, p: int, i: int) -> bool {
    table_prefix(nt, f, rules[p].body@, i) ==> forall|t: int|
        0 <= t < nt && t != nt - 2 && #[trigger] f[rules[p].body@[i] as int]@[t]
            ==> f[rules[p].head as int]@[t]
}

spec fn rule_closed(rules: Seq<Rule>, nt: nat, f: Seq<Vec<bool>>, p: int) -> bool {
    &&& forall|i: int| 0 <= i < rules[p].body@.len() ==> #[trigger] pos_closed(rules, nt, f, p, i)
    &&& table_prefix(nt, f, rules[p].body@, rules[p].body@.len() as int)
        ==> f[rules[p].head as int]@[nt - 2]
}

spec fn all_closed(rules: Seq<Rule>, nt: nat, f: Seq<Vec<bool>>) -> bool {
    forall|p: int| 0 <= p < rules.len() ==> #[trigger] rule_closed(rules, nt, f, p)
}

pub(crate) open spec fn count_row(s: Seq<bool>) -> nat
    decreases s.len(),
{
    if s.len() == 0 {
        0
    } else {
        count_row(s.drop_last()) + if s.last() {
            1nat
        } else {
            0nat
        }
    }
}

pub(crate) open spec fn count_table(f: Seq<Vec<bool>>) -> nat
    decreases f.len(),
{
    if f.len() == 0 {
        0
    } else {
        count_table(f.drop_last()) + count_row(f.last()@)
    }
}

pub(crate) proof fn lemma_count_row_le(s: Seq<bool>)
    ensures
        count_row(s) <= s.len(),
    decreases s.len(),
{
    if s.len() > 0 {
        lemma_count_row_le(s.drop_last());
    }
}

pub(crate) proof fn lemma_count_row_set(s: Seq<bool>, i: int)
    requires
        0 <= i < s.len(),
        !s[i],
    ensures
        count_row(s.update(i, true)) == count_row(s) + 1,
    decreases s.len(),
{
    let u = s.update(i, true);
    if i == s.len() - 1 {
        assert(u.drop_last() =~= s.drop_last());
    } else {
        assert(u.drop_last() =~= s.drop_last().update(i, true));
        lemma_count_row_set(s.drop_last(), i);
    }
}

pub(crate) proof fn lemma_count_table_le(f: Seq<Vec<bool>>, w: nat)
    requires
        forall|x: int| 0 <= x < f.len() ==> (#[trigger] f[x])@.len() == w,
    ensures
        count_table(f) <= f.len() * w,
    decreases f.len(),
{
    if f.len() > 0 {
        lemma_count_table_le(f.drop_last(), w);
        lemma_count_row_le(f.last()@);
        assert((f.len() - 1) * w + w == f.len() * w) by (nonlinear_arith);
    }
}

pub(crate) proof fn lemma_count_table_update(f: Seq<Vec<bool>>, x: int, r: Vec<bool>)
    requires
        0 <= x < f.len(),
    ensures
        count_table(f.update(x, r)) + count_row(f[x]@) == count_table(f) + count_row(r@),
    decreases f.len(),
{
    let u = f.update(x, r);
    if x == f.len() - 1 {
        assert(u.drop_last() =~= f.drop_last());
    } else {
        assert(u.drop_last() =~= f.drop_last().update(x, r));
        lemma_count_table_update(f.drop_last(), x, r);
    }
}

proof fn lemma_nullable_mono(rules: Seq<Rule>, nt: nat, n: nat, x: nat)
    requires
        nullable_at(rules, nt, n, x),
    ensures
        nullable_at(rules, nt, n + 1, x),
    decreases n,
{
    if x >= nt {
        let p = choose|p: int|
            0 <= p < rules.len() && #[trigger] rules[p].head == x && forall|j: int|
                0 <= j < rules[p].body@.len() ==> nullable_at(
                    rules,
                    nt,
                    (n - 1) as nat,
                    #[trigger] rules[p].body@[j] as nat,
                );
        assert forall|j: int| 0 <= j < rules[p].body@.len() implies nullable_at(
            rules,
            nt,
            n,
            #[trigger] rules[p].body@[j] as nat,
        ) by {
            lemma_nullable_mono(rules, nt, (n - 1) as nat, rules[p].body@[j] as nat);
        }
    }
}

/// Sets one cell of a table to `true`.
pub(crate) fn set_cell(f: &mut Vec<Vec<bool>>, x: usize, t: usize)
    requires
        x < old(f)@.len(),
        t < old(f)@[x as int]@.len(),
    ensures
        final(f)@.len() == old(f)@.len(),
        final(f)@[x as int]@ == old(f)@[x as int]@.update(t as int, true),
        forall|y: int| 0 <= y < old(f)@.len() && y != x ==> final(f)@[y] == old(f)@[y],
        final(f)@ == old(f)@.update(x as int, final(f)@[x as int]),
{
    let mut row = f.remove(x);
    row.set(t, true);
    f.insert(x, row);
    assert(f@ =~= old(f)@.update(x as int, f@[x as int]));
}

/// Whether `f[x]` holds `t`, for a table of the right shape.
pub(crate) fn cell(f: &Vec<Vec<bool>>, x: usize, t: usize) -> (r: bool)
    requires
        x < f@.len(),
        t < f@[x as int]@.len(),
    ensures
        r == f@[x as int]@[t as int],
{
    f[x][t]
}

/// Computes the FIRST set of every symbol of a coded grammar: row `x`, column `t` of the
/// result holds exactly when `t ∈ FIRST(x)`.
pub fn compute_first(rules: &Vec<Rule>, nt: usize, ns: usize) -> (f: Vec<Vec<bool>>)
    requires
        rules_wf(rules@, nt as nat, ns as nat),
    ensures
        is_first_table(rules@, nt as nat, ns as nat, f@),
{
    let eps = nt - 2;
    let mut f: Vec<Vec<bool>> = Vec::new();
    let mut x: usize = 0;
    while x < ns
        invariant
            x <= ns,
            f@.len() == x,
            rules_wf(rules@, nt as nat, ns as nat),
            forall|y: int, t: int|
                0 <= y < x && 0 <= t < nt ==> (#[trigger] f@[y]@[t] <==> (y < nt && y == t)),
            forall|y: int| 0 <= y < x ==> (#[trigger] f@[y])@.len() == nt,
        decreases ns - x,
    {
        let mut row: Vec<bool> = Vec::new();
        let mut t: usize = 0;
        while t < nt
            invariant
                t <= nt,
                row@.len() == t,
                forall|u: int| 0 <= u < t ==> (#[trigger] row@[u] <==> (x < nt && x == u)),
            decreases nt - t,
        {
            row.push(x < nt && x == t);
            t = t + 1;
        }
        f.push(row);
        x = x + 1;
    }
    let ghost mut depth: nat = 0;
    proof {
        assert forall|y: int, t: int|
            0 <= y < ns && 0 <= t < nt && #[trigger] f@[y]@[t] implies in_first(
            rules@,
            nt as nat,
            y as nat,
            t as nat,
        ) by {
            assert(nullable_at(rules@, nt as nat, 0, y as nat) || y != nt - 2);
            assert(first_at(rules@, nt as nat, 0, y as nat, t as nat));
        }
        lemma_count_table_le(f@, nt as nat);
    }
    let mut changed = true;
    while changed
        invariant
            rules_wf(rules@, nt as nat, ns as nat),
            eps == nt - 2,
            table_shape(f@, nt as nat, ns as nat),
            sound(rules@, nt as nat, ns as nat, f@),
            eps_depth(rules@, nt as nat, ns as nat, f@, depth),
            terminal_rows(nt as nat, f@),
            count_table(f@) <= ns * nt,
            !changed ==> all_closed(rules@, nt as nat, f@),
        decreases ns * nt - count_table(f@), if changed {
            1int
        } else {
            0int
        },
    {
        let ghost f0 = f@;
        changed = false;
        let mut p: usize = 0;
        while p < rules.len()
            invariant
                rules_wf(rules@, nt as nat, ns as nat),
                eps == nt - 2,
                p <= rules@.len(),
                table_shape(f@, nt as nat, ns as nat),
                sound(rules@, nt as nat, ns as nat, f@),
                eps_depth(rules@, nt as nat, ns as nat, f@, depth),
                terminal_rows(nt as nat, f@),
                count_table(f@) <= ns * nt,
                count_table(f@) >= count_table(f0),
                changed ==> count_table(f@) > count_table(f0),
                !changed ==> f@ == f0,
                !changed ==> forall|q: int| 0 <= q < p ==> #[trigger] rule_closed(
                    rules@,
                    nt as nat,
                    f@,
                    q,
                ),
            decreases rules@.len() - p,
        {
            let h = rules[p].head;
            let body = &rules[p].body;
            let mut i: usize = 0;
            let mut all_null = true;
            while i < body.len() && all_null
                invariant
                    rules_wf(rules@, nt as nat, ns as nat),
                    eps == nt - 2,
                    p < rules@.len(),
                    h == rules@[p as int].head,
                    *body == rules@[p as int].body,
                    i <= body@.len(),
                    nt <= h < ns,
                    table_shape(f@, nt as nat, ns as nat),
                    sound(rules@, nt as nat, ns as nat, f@),
                    eps_depth(rules@, nt as nat, ns as nat, f@, depth),
                    terminal_rows(nt as nat, f@),
                    count_table(f@) <= ns * nt,
                    count_table(f@) >= count_table(f0),
                    changed ==> count_table(f@) > count_table(f0),
                    !changed ==> f@ == f0,
                    !changed ==> forall|q: int| 0 <= q < p ==> #[trigger] rule_closed(
                        rules@,
                        nt as nat,
                        f@,
                        q,
                    ),
                    all_null ==> table_prefix(nt as nat, f@, body@, i as int),
                    all_null ==> prefix_nullable(rules@, nt as nat, body@, i as int),
                    !all_null ==> 0 < i && !f@[body@[i - 1] as int]@[nt - 2],
                    !changed ==> forall|k: int| 0 <= k < i ==> #[trigger] pos_closed(
                        rules@,
                        nt as nat,
                        f@,
                        p as int,
                        k,
                    ),
                decreases body@.len() - i,
            {
                let b = body[i];
                let mut t: usize = 0;
                while t < nt
                    invariant
                        rules_wf(rules@, nt as nat, ns as nat),
                        eps == nt - 2,
                        p < rules@.len(),
                        h == rules@[p as int].head,
                        *body == rules@[p as int].body,
                        i < body@.len(),
                        b == body@[i as int],
                        b < ns,
                        nt <= h < ns,
                        t <= nt,
                        table_shape(f@, nt as nat, ns as nat),
                        sound(rules@, nt as nat, ns as nat, f@),
                        eps_depth(rules@, nt as nat, ns as nat, f@, depth),
                        terminal_rows(nt as nat, f@),
                        count_table(f@) <= ns * nt,
                        count_table(f@) >= count_table(f0),
                        changed ==> count_table(f@) > count_table(f0),
                        !changed ==> f@ == f0,
                        table_prefix(nt as nat, f@, body@, i as int),
                        prefix_nullable(rules@, nt as nat, body@, i as int),
                        forall|u: int|
                            0 <= u < t && u != nt - 2 && #[trigger] f@[b as int]@[u]
                                ==> f@[h as int]@[u],
                        !changed ==> forall|q: int| 0 <= q < p ==> #[trigger] rule_closed(
                            rules@,
                            nt as nat,
                            f@,
                            q,
                        ),
                        !changed ==> forall|k: int| 0 <= k < i ==> #[trigger] pos_closed(
                            rules@,
                            nt as nat,
                            f@,
                            p as int,
                            k,
                        ),
                    decreases nt - t,
                {
                    if t != eps && cell(&f, b, t) && !cell(&f, h, t) {
                        let ghost fb = f@;
                        proof {
                            lemma_first_step(rules@, nt as nat, p as int, i as int, t as nat);
                            lemma_count_row_set(fb[h as int]@, t as int);
                        }
                        set_cell(&mut f, h, t);
                        proof {
                            lemma_count_table_update(fb, h as int, f@[h as int]);
                            lemma_count_table_le(f@, nt as nat);
                            assert(forall|j: int|
                                0 <= j < i ==> #[trigger] f@[body@[j] as int]@[nt - 2] == fb[body@[
                                j] as int]@[nt - 2]);
                        }
                        changed = true;
                    }
                    t = t + 1;
                }
                all_null = cell(&f, b, eps);
                proof {
                    if !changed {
                        assert(pos_closed(rules@, nt as nat, f@, p as int, i as int));
                    }
                    if all_null {
                        lemma_prefix_step(rules@, nt as nat, ns as nat, f@, body@, i as int);
                    }
                }
                i = i + 1;
            }
            if all_null && !cell(&f, h, eps) {
                let ghost fb = f@;
                proof {
                    lemma_eps_step(rules@, nt as nat, ns as nat, fb, p as int, depth);
                    lemma_count_row_set(fb[h as int]@, eps as int);
                }
                set_cell(&mut f, h, eps);
                proof {
                    depth = depth + 1;
                    lemma_count_table_update(fb, h as int, f@[h as int]);
                    lemma_count_table_le(f@, nt as nat);
                }
                changed = true;
            }
            proof {
                if !changed {
                    assert(rule_closed(rules@, nt as nat, f@, p as int)) by {
                        if !all_null {
                            assert forall|k: int|
                                0 <= k < body@.len() implies #[trigger] pos_closed(
                                rules@,
                                nt as nat,
                                f@,
                                p as int,
                                k,
                            ) by {
                                if k >= i {
                                    assert(!table_prefix(nt as nat, f@, body@, k));
                                }
                            }
                            assert(!table_prefix(nt as nat, f@, body@, body@.len() as int));
                        }
                    }
                }
            }
            p = p + 1;
        }
    }
    proof {
        assert forall|x: int, t: int| 0 <= x < ns && 0 <= t < nt implies (#[trigger] f@[x]@[t]
            <==> in_first(rules@, nt as nat, x as nat, t as nat)) by {
            if in_first(rules@, nt as nat, x as nat, t as nat) {
                lemma_complete(rules@, nt as nat, ns as nat, f@, x as nat, t as nat);
            }
        }
    }
    f
}

/// Extending a nullable prefix by one symbol whose row holds ε.
proof fn lemma_prefix_step(
    rules: Seq<Rule>,
    nt: nat,
    ns: nat,
    f: Seq<Vec<bool>>,
    w: Seq<usize>,
    i: int,
)
    requires
        2 <= nt <= ns,
        0 <= i < w.len(),
        w[i] < ns,
        table_shape(f, nt, ns),
        sound(rules, nt, ns, f),
        table_prefix(nt, f, w, i),
        prefix_nullable(rules, nt, w, i),
        f[w[i] as int]@[nt - 2],
    ensures
        table_prefix(nt, f, w, i + 1),
        prefix_nullable(rules, nt, w, i + 1),
{
    assert(in_first(rules, nt, w[i] as nat, (nt - 2) as nat));
}

/// A rule whose whole body is nullable makes its head nullable, one level deeper.
proof fn lemma_eps_step(rules: Seq<Rule>, nt: nat, ns: nat, f: Seq<Vec<bool>>, p: int, d: nat)
    requires
        rules_wf(rules, nt, ns),
        0 <= p < rules.len(),
        table_shape(f, nt, ns),
        eps_depth(rules, nt, ns, f, d),
        table_prefix(nt, f, rules[p].body@, rules[p].body@.len() as int),
    ensures
        nullable_at(rules, nt, d + 1, rules[p].head as nat),
        forall|x: int| 0 <= x < ns && #[trigger] f[x]@[nt - 2] ==> nullable_at(rules, nt, d + 1, x as nat),
{
    let body = rules[p].body@;
    assert forall|j: int| 0 <= j < body.len() implies nullable_at(
        rules,
        nt,
        d,
        #[trigger] body[j] as nat,
    ) by {
        assert(f[body[j] as int]@[nt - 2]);
    }
    assert(rules[p].head >= nt);
    assert forall|x: int| 0 <= x < ns && #[trigger] f[x]@[nt - 2] implies nullable_at(
        rules,
        nt,
        d + 1,
        x as nat,
    ) by {
        lemma_nullable_mono(rules, nt, d, x as nat);
    }
}

/// A terminal in FIRST of a body symbol preceded only by nullable ones is in FIRST of the head.
proof fn lemma_first_step(rules: Seq<Rule>, nt: nat, p: int, i: int, t: nat)
    requires
        0 <= p < rules.len(),
        nt <= rules[p].head,
        0 <= i < rules[p].body@.len(),
        prefix_nullable(rules, nt, rules[p].body@, i),
        t != nt - 2,
        in_first(rules, nt, rules[p].body@[i] as nat, t),
    ensures
        in_first(rules, nt, rules[p].head as nat, t),
{
    let n = choose|n: nat| first_at(rules, nt, n, rules[p].body@[i] as nat, t);
    assert(first_at(rules, nt, n + 1, rules[p].head as nat, t));
}

proof fn lemma_nullable_complete(rules: Seq<Rule>, nt: nat, ns: nat, f: Seq<Vec<bool>>, n: nat, x: nat)
    requires
        rules_wf(rules, nt, ns),
        table_shape(f, nt, ns),
        terminal_rows(nt, f),
        all_closed(rules, nt, f),
        x < ns,
        nullable_at(rules, nt, n, x),
    ensures
        f[x as int]@[nt - 2],
    decreases n,
{
    if x >= nt {
        let p = choose|p: int|
            0 <= p < rules.len() && #[trigger] rules[p].head == x && forall|j: int|
                0 <= j < rules[p].body@.len() ==> nullable_at(
                    rules,
                    nt,
                    (n - 1) as nat,
                    #[trigger] rules[p].body@[j] as nat,
                );
        let body = rules[p].body@;
        assert forall|j: int| 0 <= j < body.len() implies #[trigger] f[body[j] as int]@[nt - 2] by {
            lemma_nullable_complete(rules, nt, ns, f, (n - 1) as nat, body[j] as nat);
        }
        assert(rule_closed(rules, nt, f, p));
    } else {
        assert(f[x as int]@[x as int]);
    }
}

proof fn lemma_first_complete(
    rules: Seq<Rule>,
    nt: nat,
    ns: nat,
    f: Seq<Vec<bool>>,
    n: nat,
    x: nat,
    t: nat,
)
    requires
        rules_wf(rules, nt, ns),
        table_shape(f, nt, ns),
        terminal_rows(nt, f),
        all_closed(rules, nt, f),
        x < ns,
        t < nt,
        t != nt - 2,
        first_at(rules, nt, n, x, t),
    ensures
        f[x as int]@[t as int],
    decreases n,
{
    if x >= nt {
        let (p, i) = choose|p: int, i: int|
            0 <= p < rules.len() && #[trigger] rules[p].head == x && 0 <= i
                < rules[p].body@.len() && prefix_nullable(rules, nt, rules[p].body@, i)
                && first_at(rules, nt, (n - 1) as nat, #[trigger] rules[p].body@[i] as nat, t);
        let body = rules[p].body@;
        assert forall|j: int| 0 <= j < i implies #[trigger] f[body[j] as int]@[nt - 2] by {
            assert(nullable(rules, nt, body[j] as nat));
            let m = choose|m: nat| nullable_at(rules, nt, m, body[j] as nat);
            lemma_nullable_complete(rules, nt, ns, f, m, body[j] as nat);
        }
        lemma_first_complete(rules, nt, ns, f, (n - 1) as nat, body[i] as nat, t);
        assert(rule_closed(rules, nt, f, p));
        assert(pos_closed(rules, nt, f, p, i));
    } else {
        assert(f[x as int]@[t as int]);
    }
}

proof fn lemma_complete(rules: Seq<Rule>, nt: nat, ns: nat, f: Seq<Vec<bool>>, x: nat, t: nat)
    requires
        rules_wf(rules, nt, ns),
        table_shape(f, nt, ns),
        terminal_rows(nt, f),
        all_closed(rules, nt, f),
        x < ns,
        t < nt,
        in_first(rules, nt, x, t),
    ensures
        f[x as int]@[t as int],
{
    if t == nt - 2 {
        let m = choose|m: nat| nullable_at(rules, nt, m, x);
        lemma_nullable_complete(rules, nt, ns, f, m, x);
    } else {
        let m = choose|m: nat| first_at(rules, nt, m, x, t);
        lemma_first_complete(rules, nt, ns, f, m, x, t);
    }
}

} // verus!
