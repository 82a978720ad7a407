//! The shift-reduce driver: runs the ACTION/GOTO table over a token stream, recovers from
//! errors in panic mode, and records the right-sentential forms met before each reduction.
use vstd::prelude::*;
use vstd::string::*;

use crate::grammar::{clone_tokens, toks, without_eps, Grammar};
use crate::item::{join, join_words, string_views, token_name, Family};
use crate::panic::{panic_scan, term_code, PanicAction, PanicModel};
use crate::table::{action_model, goto_model, push_decimal, ActionCell, Table};
use crate::text::{
    chars_of, lemma_lines_prefix, lines_of, ranges_text, substring, words,
    words_of,
};
use crate::token::{eof_ident, NonTerminal, Terminal, Token, TokenModel};

verus! {

/// What a run of the driver produced.
#[derive(Debug)]
pub struct Derivation {
    /// The sentential form before each reduction, with the position of the next input token.
    pub steps: Vec<(Vec<Token>, usize)>,
    /// The input, with every terminal that recovery supplied put in its place.
    pub terms: Vec<(usize, Terminal)>,
    /// The terminals that recovery supplied, with the line each was missing on.
    pub missing: Vec<(usize, Terminal)>,
    /// The production reduced by at each recorded form.
    pub reduced: Vec<usize>,
    /// Recovery could not go on at the end of the input, the table led nowhere, or the run
    /// used up its moves before it ended.
    pub escaped: bool,
    /// An input token was skipped, or the end of input was shifted.
    pub irregular: bool,
}

/// The input tokens from `a` to `b`, as terminals.
pub open spec fn term_names(terms: Seq<(usize, Terminal)>, a: int, b: int) -> Seq<TokenModel> {
    terms.subrange(a, b).map_values(|t: (usize, Terminal)| TokenModel::Term(t.1@))
}

/// The form `form` ends with the effective tail of production `p`.
pub open spec fn ends_with_tail(g: Grammar, form: Seq<TokenModel>, p: int) -> bool {
    let tail = without_eps(g.spec_prods()[p].tail);
    &&& 0 <= p < g.spec_prods().len()
    &&& tail.len() <= form.len()
    &&& form.subrange(form.len() - tail.len(), form.len() as int) == tail
}

/// The form `form` with the effective tail of production `p` at its end replaced by the
/// head of `p`.
pub open spec fn reduced_form(g: Grammar, form: Seq<TokenModel>, p: int) -> Seq<TokenModel> {
    form.subrange(0, form.len() - without_eps(g.spec_prods()[p].tail).len()).push(
        TokenModel::NonTerm(g.spec_prods()[p].head),
    )
}

/// Recorded form `k` ends with the tail of the production reduced there, and form `k + 1`
/// is form `k` with that tail replaced by its head, followed by the input read in between.
/// Read from `k + 1` back to `k`, this is one step of a rightmost derivation: the head is
/// the last non-terminal of the line, and only input terminals follow it.
pub open spec fn log_step(
    g: Grammar,
    steps: Seq<(Vec<Token>, usize)>,
    reduced: Seq<usize>,
    terms: Seq<(usize, Terminal)>,
    k: int,
) -> bool {
    let f0 = toks(steps[k].0@);
    let c0 = steps[k].1 as int;
    let f1 = toks(steps[k + 1].0@);
    let c1 = steps[k + 1].1 as int;
    &&& ends_with_tail(g, f0, reduced[k] as int)
    &&& c0 <= c1 <= terms.len()
    &&& f1 == reduced_form(g, f0, reduced[k] as int) + term_names(terms, c0, c1)
}

/// The current form follows from the last recorded one (or from the start) by its reduction
/// and the input read since.
pub open spec fn current_ok(
    g: Grammar,
    steps: Seq<(Vec<Token>, usize)>,
    reduced: Seq<usize>,
    terms: Seq<(usize, Terminal)>,
    step: Seq<TokenModel>,
    cursor: int,
) -> bool {
    if steps.len() == 0 {
        step == term_names(terms, 0, cursor)
    } else {
        let f0 = toks(steps.last().0@);
        &&& ends_with_tail(g, f0, reduced.last() as int)
        &&& steps.last().1 <= cursor
        &&& step == reduced_form(g, f0, reduced.last() as int) + term_names(terms, steps.last().1 as int, cursor)
    }
}

/// The tokens of line `k`: its words, each with the line index.
pub open spec fn line_tokens(k: int, l: Seq<char>) -> Seq<(int, Seq<char>)> {
    words_of(l).map_values(|w: Seq<char>| (k, w))
}

/// The tokens of the first `k` lines of `s`.
pub open spec fn tokens_upto(s: Seq<char>, k: nat) -> Seq<(int, Seq<char>)>
    decreases k,
{
    if k == 0 {
        Seq::empty()
    } else {
        tokens_upto(s, (k - 1) as nat) + line_tokens(k - 1, lines_of(s)[k - 1])
    }
}

/// The views of a token list: line index and name.
pub open spec fn token_views(v: Seq<(usize, Terminal)>) -> Seq<(int, Seq<char>)> {
    v.map_values(|t: (usize, Terminal)| (t.0 as int, t.1@))
}

/// The tokens of a text: the words of each line, line by line, each with the index of its
/// line.
pub fn tokenize(s: &str) -> (r: Vec<(usize, Terminal)>)
    ensures
        token_views(r@) == tokens_upto(s@, lines_of(s@).len()),
{
    let cs = chars_of(s);
    let n = cs.len();
    let ghost lines = lines_of(cs@);
    proof {
        assert(cs@.subrange(0, n as int) =~= cs@);
        assert(cs@.subrange(0, 0) =~= Seq::<char>::empty());
        lemma_lines_prefix(cs@, 0, n as int);
    }
    let mut r: Vec<(usize, Terminal)> = Vec::new();
    let mut a: usize = 0;
    let mut k: usize = 0;
    let mut i: usize = 0;
    loop
        invariant_except_break
            token_views(r@) == tokens_upto(s@, k as nat),
        invariant
            cs@ == s@,
            n == cs@.len(),
            lines == lines_of(cs@),
            lines_of(cs@.subrange(0, n as int)) == lines,
            a <= i <= n,
            k <= i,
            k < lines.len(),
            lines_of(cs@.subrange(0, i as int)).len() == k + 1,
            lines_of(cs@.subrange(0, i as int))[k as int] == cs@.subrange(a as int, i as int),
        ensures
            token_views(r@) == tokens_upto(s@, lines_of(s@).len()),
        decreases n - i, (if i < n { 1int } else { 0int }),
    {
        if i < n && cs[i] != '\n' {
            proof {
                let pre = cs@.subrange(0, i + 1);
                assert(pre.drop_last() =~= cs@.subrange(0, i as int));
                assert(pre.last() == cs@[i as int]);
                assert(cs@.subrange(a as int, i + 1) =~= cs@.subrange(a as int, i as int).push(cs@[i as int]));
            }
            i = i + 1;
        } else {
            let ghost line = cs@.subrange(a as int, i as int);
            proof {
                if i < n {
                    let pre = cs@.subrange(0, i + 1);
                    assert(pre.drop_last() =~= cs@.subrange(0, i as int));
                    assert(pre.last() == cs@[i as int]);
                    lemma_lines_prefix(cs@, i + 1, n as int);
                    assert(lines_of(pre).len() == k + 2);
                    assert(lines_of(pre)[k as int] == line);
                    assert(lines[k as int] == line);
                } else {
                    assert(cs@.subrange(0, i as int) =~= cs@);
                    assert(lines.len() == k + 1);
                    assert(lines[k as int] == line);
                }
            }
            let ws = words(&cs, a, i);
            let ghost r0 = token_views(r@);
            let mut w: usize = 0;
            while w < ws.len()
                invariant
                    cs@ == s@,
                    a <= i <= n,
                    n == cs@.len(),
                    line == cs@.subrange(a as int, i as int),
                    forall|z: int| 0 <= z < ws@.len() ==> a <= (#[trigger] ws@[z]).0 < ws@[z].1 <= i,
                    ranges_text(cs@, ws@) == words_of(line),
                    w <= ws@.len(),
                    token_views(r@) == r0 + line_tokens(k as int, line).subrange(0, w as int),
                decreases ws@.len() - w,
            {
                let (u, v) = ws[w];
                let word = substring(s, u, v);
                let ghost rb = token_views(r@);
                r.push((k, Terminal::from(word.as_str())));
                proof {
                    assert(word@ == words_of(line)[w as int]);
                    assert(ranges_text(cs@, ws@).len() == ws@.len());
                    assert(token_views(r@) =~= rb.push((k as int, word@)));
                    assert(line_tokens(k as int, line).subrange(0, w + 1) =~= line_tokens(k as int, line).subrange(0, w as int).push((k as int, word@)));
                }
                w = w + 1;
            }
            proof {
                assert(ranges_text(cs@, ws@).len() == ws@.len());
                assert(line_tokens(k as int, line).subrange(0, w as int) =~= line_tokens(k as int, line));
                assert(tokens_upto(s@, (k + 1) as nat) == tokens_upto(s@, k as nat) + line_tokens(k as int, lines[k as int]));
            }
            if i == n {
                proof {
                    assert(lines.len() == k + 1);
                }
                break;
            }
            proof {
                let pre = cs@.subrange(0, i + 1);
                assert(pre.drop_last() =~= cs@.subrange(0, i as int));
                assert(pre.last() == cs@[i as int]);
                assert(cs@.subrange(i + 1, i + 1) =~= Seq::<char>::empty());
                lemma_lines_prefix(cs@, i + 1, n as int);
                assert(lines_of(pre).len() == k + 2);
            }
            i = i + 1;
            a = i;
            k = k + 1;
        }
    }
    r
}

/// The names of a list of tokens.
pub open spec fn names(v: Seq<TokenModel>) -> Seq<Seq<char>> {
    v.map_values(
        |t: TokenModel|
            match t {
                TokenModel::Term(s) => s,
                TokenModel::NonTerm(s) => s,
            },
    )
}

/// Reduces by production `p`: the effective tail of `p` on top of the sentential form
/// becomes its head, as many states leave the stack, and GOTO on the head is pushed. The
/// form before is recorded first. Returns false, and records nothing more, when the top of
/// the form is not that tail or the stack is too short.
fn reduce(
    g: &Grammar,
    table: &Table,
    p: usize,
    cursor: usize,
    stack: &mut Vec<usize>,
    steps: &mut Vec<(Vec<Token>, usize)>,
    step: &mut Vec<Token>,
) -> (ok: bool)
    requires
        g.wf(),
        old(stack)@.len() >= 1,
    ensures
        final(stack)@.len() >= 1,
        final(steps)@.len() == old(steps)@.len() + 1,
        toks(final(steps)@.last().0@) == toks(old(step)@),
        final(steps)@.last().1 == cursor,
        forall|k: int| 0 <= k < old(steps)@.len() ==> #[trigger] final(steps)@[k] == old(steps)@[k],
        ({
            let res = reduce_result(*g, *table, old(stack)@, toks(old(step)@), p as int);
            &&& final(stack)@ == res.0
            &&& toks(final(step)@) == res.1
            &&& ok == res.2
        }),
        ok ==> p < g.spec_prods().len() && ({
            let tail = without_eps(g.spec_prods()[p as int].tail);
            let n = tail.len();
            &&& n <= old(step)@.len()
            &&& toks(old(step)@).subrange(old(step)@.len() - n, old(step)@.len() as int) == tail
            &&& toks(final(step)@) == toks(old(step)@).subrange(0, old(step)@.len() - n).push(
                TokenModel::NonTerm(g.spec_prods()[p as int].head),
            )
        }),
{
    steps.push((clone_tokens(step), cursor));
    let ghost st0 = stack@;
    let ghost sp1 = steps@;
    let ghost step0 = step@;
    if p >= g.prods().len() {
        return false;
    }
    let prod = &g.prods()[p];
    proof {
        assert(prod@ == g.spec_prods()[p as int]);
    }
    let tail = prod.tail_without_eps();
    let n = tail.len();
    if step.len() < n || stack.len() <= n {
        return false;
    }
    let base = step.len() - n;
    let mut i: usize = 0;
    while i < n
        invariant
            n == tail@.len(),
            base + n == step@.len(),
            base + n <= usize::MAX,
            stack@ == st0,
            steps@ == sp1,
            step@ == step0,
            st0.len() >= 1,
            sp1.len() == old(steps)@.len() + 1,
            toks(sp1.last().0@) == toks(old(step)@),
            sp1.last().1 == cursor,
            forall|k: int| 0 <= k < old(steps)@.len() ==> #[trigger] sp1[k] == old(steps)@[k],
            step0 == old(step)@,
            p < g.spec_prods().len(),
            toks(tail@) == without_eps(g.spec_prods()[p as int].tail),
            i <= n,
            forall|k: int| 0 <= k < i ==> (#[trigger] step@[base + k])@ == tail@[k]@,
        decreases n - i,
    {
        if step[base + i] != tail[i] {
            proof {
                let tl = without_eps(g.spec_prods()[p as int].tail);
                assert(toks(tail@) == tl);
                assert(toks(step0).subrange(base as int, step0.len() as int)[i as int] != tl[i as int]);
            }
            return false;
        }
        i = i + 1;
    }
    let ghost before = toks(step@);
    proof {
        assert forall|k: int| 0 <= k < n implies before.subrange(base as int, step@.len() as int)[k] == toks(tail@)[k] by {
            assert(step@[base + k]@ == tail@[k]@);
        }
        assert(before.subrange(base as int, step@.len() as int) =~= toks(tail@));
    }
    step.truncate(base);
    stack.truncate(stack.len() - n);
    let head = prod.head();
    let top = stack[stack.len() - 1];
    match table.goto(top, &head) {
        Some(Some(j)) => {
            stack.push(j);
        },
        _ => {},
    }
    step.push(Token::NonTerminal(head));
    proof {
        assert(toks(step@) =~= before.subrange(0, base as int).push(TokenModel::NonTerm(g.spec_prods()[p as int].head)));
        assert(toks(tail@) == without_eps(g.spec_prods()[p as int].tail));
    }
    true
}

/// What a reduction by production `p` does to the state stack and the sentential form: when
/// the form ends with the effective tail of `p` and the stack holds more states than that
/// tail has symbols, the tail becomes the head of `p`, as many states leave the stack, and
/// GOTO on the head from the new top (when the table has it) is pushed; otherwise nothing
/// changes and the reduction fails.
pub open spec fn reduce_result(
    g: Grammar,
    tab: Table,
    stack: Seq<usize>,
    step: Seq<TokenModel>,
    p: int,
) -> (Seq<usize>, Seq<TokenModel>, bool) {
    if !(0 <= p < g.spec_prods().len()) {
        (stack, step, false)
    } else {
        let tail = without_eps(g.spec_prods()[p].tail);
        let n = tail.len();
        if step.len() < n || stack.len() <= n || step.subrange(step.len() - n, step.len() as int) != tail {
            (stack, step, false)
        } else {
            let st = stack.subrange(0, stack.len() - n);
            let head = g.spec_prods()[p].head;
            (
                match goto_model(tab, st.last() as int, head) {
                    Some(j) => st.push(j),
                    None => st,
                },
                step.subrange(0, step.len() - n).push(TokenModel::NonTerm(head)),
                true,
            )
        }
    }
}

/// The driver's state, as data.
pub struct DriveModel {
    pub stack: Seq<usize>,
    pub step: Seq<TokenModel>,
    pub cursor: nat,
    pub terms: Seq<(usize, Seq<char>)>,
    pub steps: Seq<(Seq<TokenModel>, usize)>,
    pub reduced: Seq<usize>,
    pub missing: Seq<(usize, Seq<char>)>,
    pub escaped: bool,
    pub irregular: bool,
    pub finished: bool,
}

/// The views of (line, terminal) pairs.
pub open spec fn pair_views(v: Seq<(usize, Terminal)>) -> Seq<(usize, Seq<char>)> {
    v.map_values(|t: (usize, Terminal)| (t.0, t.1@))
}

/// The views of recorded forms.
pub open spec fn step_views(v: Seq<(Vec<Token>, usize)>) -> Seq<(Seq<TokenModel>, usize)> {
    v.map_values(|x: (Vec<Token>, usize)| (toks(x.0@), x.1))
}

/// The state the driver starts in: state 0 on the stack, nothing read.
pub open spec fn initial_model(input: Seq<(usize, Seq<char>)>) -> DriveModel {
    DriveModel {
        stack: seq![0usize],
        step: Seq::empty(),
        cursor: 0,
        terms: input,
        steps: Seq::empty(),
        reduced: Seq::empty(),
        missing: Seq::empty(),
        escaped: false,
        irregular: false,
        finished: false,
    }
}

/// A reduction by production `p` (an accept when `accept`): the form before it is recorded,
/// and when the reduction fails the run ends, escaped.
pub open spec fn reduce_move(g: Grammar, tab: Table, m: DriveModel, p: int, accept: bool) -> DriveModel {
    let r = reduce_result(g, tab, m.stack, m.step, p);
    DriveModel {
        stack: r.0,
        step: r.1,
        cursor: m.cursor,
        terms: m.terms,
        steps: m.steps.push((m.step, m.cursor as usize)),
        reduced: m.reduced.push(p as usize),
        missing: m.missing,
        escaped: m.escaped || !r.2,
        irregular: m.irregular,
        finished: accept || !r.2,
    }
}

/// The run ends, escaped.
pub open spec fn escape(m: DriveModel) -> DriveModel {
    DriveModel { escaped: true, finished: true, ..m }
}

/// One move of the driver: shift, reduce or accept as ACTION says for the state on top of
/// the stack and the next input terminal (end of input when there is none); where ACTION is
/// empty, follow panic-mode recovery.
pub open spec fn drive_step(g: Grammar, f: Family, tab: Table, m: DriveModel) -> DriveModel {
    let top = m.stack.last() as int;
    let has = m.cursor < m.terms.len();
    let line = if has { m.terms[m.cursor as int].0 } else { usize::MAX };
    let term = if has { m.terms[m.cursor as int].1 } else { eof_ident() };
    match action_model(tab, top, term) {
        ActionCell::Shift(j) => DriveModel {
            stack: m.stack.push(j),
            step: m.step.push(TokenModel::Term(term)),
            cursor: if has { m.cursor + 1 } else { m.cursor },
            irregular: m.irregular || has == false,
            ..m
        },
        ActionCell::Reduce(p) => reduce_move(g, tab, m, p as int, false),
        ActionCell::Accept => reduce_move(g, tab, m, 0, true),
        ActionCell::Conflict(_, _) => escape(m),
        ActionCell::Empty => if top >= f.spec_states().len() {
            escape(m)
        } else {
            match panic_scan(g, f, top, f.spec_states()[top].spec_items(), choose|c: int| term_code(g, term, c)) {
                PanicModel::Shift(xc, to) => {
                    let x = token_name(g, xc as int);
                    DriveModel {
                        stack: m.stack.push(to as usize),
                        step: m.step.push(TokenModel::Term(x)),
                        cursor: m.cursor + 1,
                        terms: m.terms.insert(m.cursor as int, (line, x)),
                        missing: m.missing.push((line, x)),
                        ..m
                    }
                },
                PanicModel::Reduce(p) => reduce_move(g, tab, m, p as int, false),
                PanicModel::Accept => reduce_move(g, tab, m, 0, true),
                PanicModel::Empty => if term == eof_ident() {
                    escape(m)
                } else {
                    DriveModel { irregular: true, cursor: if has { m.cursor + 1 } else { m.cursor }, ..m }
                },
            }
        },
    }
}

/// At most `fuel` moves from `m`, stopping when the run ends.
pub open spec fn drive_run(g: Grammar, f: Family, tab: Table, m: DriveModel, fuel: nat) -> DriveModel
    decreases fuel,
{
    if fuel == 0 || m.finished {
        m
    } else {
        drive_run(g, f, tab, drive_step(g, f, tab, m), (fuel - 1) as nat)
    }
}

/// The outcome of a run: one that ran out of moves before it ended is marked escaped.
pub open spec fn settle(m: DriveModel) -> DriveModel {
    if m.finished {
        m
    } else {
        DriveModel { escaped: true, ..m }
    }
}

/// The derivation reports the run `m`.
pub open spec fn reports(d: Derivation, m: DriveModel) -> bool {
    &&& step_views(d.steps@) == m.steps
    &&& pair_views(d.terms@) == m.terms
    &&& pair_views(d.missing@) == m.missing
    &&& d.reduced@ == m.reduced
    &&& d.escaped == m.escaped
    &&& d.irregular == m.irregular
}

/// The exec state of the driver is the state `m`.
pub open spec fn state_is(
    m: DriveModel,
    stack: Seq<usize>,
    step: Seq<Token>,
    cursor: usize,
    terms: Seq<(usize, Terminal)>,
    steps: Seq<(Vec<Token>, usize)>,
    reduced: Seq<usize>,
    missing: Seq<(usize, Terminal)>,
    escaped: bool,
    irregular: bool,
    finished: bool,
) -> bool {
    &&& m.stack == stack
    &&& m.step == toks(step)
    &&& m.cursor == cursor
    &&& m.terms == pair_views(terms)
    &&& m.steps == step_views(steps)
    &&& m.reduced == reduced
    &&& m.missing == pair_views(missing)
    &&& m.escaped == escaped
    &&& m.irregular == irregular
    &&& m.finished == finished
}

/// Runs the table over `input` for at most `fuel` moves: shift, reduce and accept as ACTION
/// says, and where ACTION is empty follow panic-mode recovery, supplying a missing terminal
/// in the input when it says so. The derivation reports exactly the run that `drive_run`
/// describes; a run that uses up its moves before it ends is marked escaped.
#[verifier::rlimit(40)]
pub fn drive(
    g: &Grammar,
    f: &Family,
    table: &Table,
    input: Vec<(usize, Terminal)>,
    fuel: usize,
) -> (r: Derivation)
    requires
        g.wf(),
        f.wf(*g),
        table.is_table_of(*g, *f),
        !table.spec_conflict(),
    ensures
        r.terms@.len() == input@.len() + r.missing@.len(),
        r.reduced@.len() == r.steps@.len(),
        forall|k: int| 0 <= k < r.steps@.len() ==> (#[trigger] r.steps@[k]).1 <= r.terms@.len(),
        !r.irregular ==> forall|k: int|
            0 <= k < r.steps@.len() - 1 ==> #[trigger] log_step(*g, r.steps@, r.reduced@, r.terms@, k),
        !r.irregular && r.steps@.len() > 0 ==> toks(r.steps@[0].0@) == term_names(r.terms@, 0, r.steps@[0].1 as int),
        reports(r, settle(drive_run(*g, *f, *table, initial_model(pair_views(input@)), fuel as nat))),
{
    let ghost init = initial_model(pair_views(input@));
    let ghost fuel0 = fuel;
    let mut terms = input;
    let mut cursor: usize = 0;
    let mut stack: Vec<usize> = Vec::new();
    stack.push(0);
    let mut step: Vec<Token> = Vec::new();
    let mut steps: Vec<(Vec<Token>, usize)> = Vec::new();
    let mut reduced: Vec<usize> = Vec::new();
    let mut missing: Vec<(usize, Terminal)> = Vec::new();
    let mut escaped = false;
    let mut irregular = false;
    let mut finished = false;
    let mut fuel = fuel;
    assert(toks(step@) =~= term_names(terms@, 0, 0));
    let ghost mut cur = init;
    assert(toks(step@) =~= Seq::<TokenModel>::empty());
    assert(step_views(steps@) =~= Seq::<(Seq<TokenModel>, usize)>::empty());
    assert(pair_views(missing@) =~= Seq::<(usize, Seq<char>)>::empty());
    assert(reduced@ =~= Seq::<usize>::empty());
    assert(stack@ =~= seq![0usize]);
    while fuel > 0 && !finished
        invariant
            g.wf(),
            f.wf(*g),
            table.is_table_of(*g, *f),
            stack@.len() >= 1,
            cursor <= terms@.len(),
            terms@.len() == input@.len() + missing@.len(),
            reduced@.len() == steps@.len(),
            forall|k: int| 0 <= k < steps@.len() ==> (#[trigger] steps@[k]).1 <= cursor,
            !irregular ==> forall|k: int|
                0 <= k < steps@.len() - 1 ==> #[trigger] log_step(*g, steps@, reduced@, terms@, k),
            !irregular && !finished ==> current_ok(*g, steps@, reduced@, terms@, toks(step@), cursor as int),
            !irregular && steps@.len() > 0 ==> toks(steps@[0].0@) == term_names(terms@, 0, steps@[0].1 as int),
            state_is(cur, stack@, step@, cursor, terms@, steps@, reduced@, missing@, escaped, irregular, finished),
            drive_run(*g, *f, *table, init, fuel0 as nat) == drive_run(*g, *f, *table, cur, fuel as nat),
        decreases fuel,
    {
        let ghost m0 = cur;
        proof {
            assert(drive_run(*g, *f, *table, m0, fuel as nat) == drive_run(*g, *f, *table, drive_step(*g, *f, *table, m0), (fuel - 1) as nat));
        }
        fuel = fuel - 1;
        let top = stack[stack.len() - 1];
        let (line, term) = if cursor < terms.len() {
            (terms[cursor].0, terms[cursor].1.clone())
        } else {
            (usize::MAX, Terminal::eof())
        };
        let cell = match table.action(top, &term) {
            Some(c) => c.clone(),
            None => ActionCell::Empty,
        };
        let ghost has = cursor < terms@.len();
        proof {
            assert(top == m0.stack.last());
            if has {
                assert(m0.terms[cursor as int] == (terms@[cursor as int].0, terms@[cursor as int].1@));
            }
            assert(line == (if has { m0.terms[m0.cursor as int].0 } else { usize::MAX }));
            assert(term@ == (if has { m0.terms[m0.cursor as int].1 } else { eof_ident() }));
            assert(cell == action_model(*table, top as int, term@));
        }
        let ghost s0 = steps@;
        let ghost r0 = reduced@;
        let ghost st0 = toks(step@);
        let ghost t0 = terms@;
        let ghost c0 = cursor as int;
        let mut reduce_by: Option<usize> = None;
        match cell {
            ActionCell::Shift(j) => {
                let ghost tv = term@;
                stack.push(j);
                step.push(Token::Terminal(term));
                proof {
                    assert(toks(step@) =~= m0.step.push(TokenModel::Term(tv)));
                }
                if cursor < terms.len() {
                    proof {
                        lemma_term_names_push(terms@, steps@, c0);
                        assert(toks(step@) =~= st0.push(TokenModel::Term(terms@[c0].1@)));
                    }
                    cursor = cursor + 1;
                } else {
                    irregular = true;
                }
            },
            ActionCell::Reduce(p) => {
                reduce_by = Some(p);
            },
            ActionCell::Accept => {
                reduce_by = Some(0);
                finished = true;
            },
            ActionCell::Conflict(_, _) => {
                escaped = true;
                finished = true;
            },
            ActionCell::Empty => {
                let pa = table.panic_action(g, f, top, &term);
                proof {
                    if top < f.spec_states().len() {
                        let c = choose|c: int| term_code(*g, term@, c) && crate::panic::matches_model(*g, pa->Ok_0, panic_scan(*g, *f, top as int, f.spec_states()[top as int].spec_items(), c));
                        lemma_term_code_unique(*g, term@, c);
                    }
                }
                match pa {
                    Ok(PanicAction::Shift(x, to)) => {
                        let ghost xv = x@;
                        missing.push((line, x.clone()));
                        terms.insert(cursor, (line, x.clone()));
                        stack.push(to);
                        step.push(Token::Terminal(x));
                        proof {
                            assert(pair_views(missing@) =~= m0.missing.push((line, xv)));
                            assert(pair_views(terms@) =~= m0.terms.insert(cursor as int, (line, xv)));
                            assert(toks(step@) =~= m0.step.push(TokenModel::Term(xv)));
                            assert(terms@ == t0.insert(c0, terms@[c0]));
                            lemma_insert_keeps_log(*g, t0, terms@, steps@, reduced@, c0, terms@[c0]);
                            if steps@.len() > 0 {
                                assert(steps@[0].1 <= c0);
                                assert(term_names(terms@, 0, steps@[0].1 as int) == term_names(t0, 0, steps@[0].1 as int));
                            }
                            assert(terms@[c0].1@ == x@);
                            assert(toks(step@) =~= st0.push(TokenModel::Term(x@)));
                        }
                        if cursor < terms.len() {
                            cursor = cursor + 1;
                        }
                    },
                    Ok(PanicAction::Reduce(p)) => {
                        reduce_by = Some(p);
                    },
                    Ok(PanicAction::Accept) => {
                        reduce_by = Some(0);
                        finished = true;
                    },
                    Ok(PanicAction::Empty) => {
                        if term.is_eof() {
                            escaped = true;
                            finished = true;
                        } else {
                            irregular = true;
                            if cursor < terms.len() {
                                cursor = cursor + 1;
                            }
                        }
                    },
                    Err(_) => {
                        escaped = true;
                        finished = true;
                    },
                }
            },
        }
        if let Some(p) = reduce_by {
            let ok = reduce(g, table, p, cursor, &mut stack, &mut steps, &mut step);
            reduced.push(p);
            proof {
                assert(step_views(steps@) =~= step_views(s0).push((st0, c0 as usize)));
                lemma_log_after_reduce(*g, s0, r0, steps@, reduced@, terms@, st0, p, c0, irregular);
                if s0.len() > 0 {
                    assert(steps@[0] == s0[0]);
                }
                if ok {
                    let tail = without_eps(g.spec_prods()[p as int].tail);
                    assert(toks(step@) =~= reduced_form(*g, st0, p as int) + term_names(terms@, c0, c0));
                }
            }
            if !ok {
                escaped = true;
                finished = true;
            }
        }
        proof {
            assert forall|k: int| 0 <= k < steps@.len() implies (#[trigger] steps@[k]).1 <= cursor by {
                if k < s0.len() {
                    assert(steps@[k] == s0[k]);
                }
            }
            cur = drive_step(*g, *f, *table, m0);
            assert(state_is(cur, stack@, step@, cursor, terms@, steps@, reduced@, missing@, escaped, irregular, finished));
        }
    }
    proof {
        assert(drive_run(*g, *f, *table, cur, fuel as nat) == cur);
    }
    if !finished {
        escaped = true;
    }
    Derivation { steps, terms, missing, reduced, escaped, irregular }
}

/// The lookahead has one code.
proof fn lemma_term_code_unique(g: Grammar, term: Seq<char>, c: int)
    requires
        g.wf(),
        term_code(g, term, c),
    ensures
        (choose|c2: int| term_code(g, term, c2)) == c,
{
    let c2 = choose|c2: int| term_code(g, term, c2);
    assert(term_code(g, term, c2));
    if c >= 0 && c2 >= 0 {
        assert(g.spec_tokens()[c] == g.spec_tokens()[c2]);
    } else if c >= 0 {
        assert(g.spec_tokens()[c] == TokenModel::Term(term));
        assert(g.spec_tokens().contains(TokenModel::Term(term)));
    } else if c2 >= 0 {
        assert(g.spec_tokens()[c2] == TokenModel::Term(term));
    }
}

/// Reading one more input token extends the current form by it.
proof fn lemma_term_names_push(terms: Seq<(usize, Terminal)>, steps: Seq<(Vec<Token>, usize)>, c: int)
    requires
        0 <= c < terms.len(),
    ensures
        forall|a: int| 0 <= a <= c ==> #[trigger] term_names(terms, a, c + 1) == term_names(terms, a, c).push(TokenModel::Term(terms[c].1@)),
{
    assert forall|a: int| 0 <= a <= c implies #[trigger] term_names(terms, a, c + 1) == term_names(terms, a, c).push(TokenModel::Term(terms[c].1@)) by {
        assert(term_names(terms, a, c + 1) =~= term_names(terms, a, c).push(TokenModel::Term(terms[c].1@)));
    }
}

/// Putting a token into the input at the cursor leaves every recorded step as it was, and
/// extends the current form by it.
proof fn lemma_insert_keeps_log(
    g: Grammar,
    t0: Seq<(usize, Terminal)>,
    t1: Seq<(usize, Terminal)>,
    steps: Seq<(Vec<Token>, usize)>,
    reduced: Seq<usize>,
    c: int,
    x: (usize, Terminal),
)
    requires
        0 <= c <= t0.len(),
        t1 == t0.insert(c, x),
        forall|k: int| 0 <= k < steps.len() ==> (#[trigger] steps[k]).1 <= c,
    ensures
        forall|a: int, b: int| 0 <= a <= b <= c ==> #[trigger] term_names(t1, a, b) == term_names(t0, a, b),
        forall|a: int| 0 <= a <= c ==> #[trigger] term_names(t1, a, c + 1) == term_names(t0, a, c).push(TokenModel::Term(x.1@)),
        forall|k: int| 0 <= k < steps.len() - 1 ==> log_step(g, steps, reduced, t0, k) ==> #[trigger] log_step(g, steps, reduced, t1, k),
{
    assert forall|a: int, b: int| 0 <= a <= b <= c implies #[trigger] term_names(t1, a, b) == term_names(t0, a, b) by {
        assert(t1.subrange(a, b) =~= t0.subrange(a, b));
    }
    assert forall|a: int| 0 <= a <= c implies #[trigger] term_names(t1, a, c + 1) == term_names(t0, a, c).push(TokenModel::Term(x.1@)) by {
        assert(t1.subrange(a, c + 1) =~= t0.subrange(a, c).push(x));
        assert(term_names(t1, a, c + 1) =~= term_names(t0, a, c).push(TokenModel::Term(x.1@)));
    }
    assert forall|k: int| 0 <= k < steps.len() - 1 && log_step(g, steps, reduced, t0, k) implies #[trigger] log_step(g, steps, reduced, t1, k) by {
        assert(steps[k + 1].1 <= c);
        assert(term_names(t1, steps[k].1 as int, steps[k + 1].1 as int) == term_names(t0, steps[k].1 as int, steps[k + 1].1 as int));
    }
}

/// Recording the form before a reduction adds one derivation step.
proof fn lemma_log_after_reduce(
    g: Grammar,
    s0: Seq<(Vec<Token>, usize)>,
    r0: Seq<usize>,
    s1: Seq<(Vec<Token>, usize)>,
    r1: Seq<usize>,
    terms: Seq<(usize, Terminal)>,
    form: Seq<TokenModel>,
    p: usize,
    c: int,
    irregular: bool,
)
    requires
        r0.len() == s0.len(),
        s1.len() == s0.len() + 1,
        r1 == r0.push(p),
        forall|k: int| 0 <= k < s0.len() ==> #[trigger] s1[k] == s0[k],
        toks(s1.last().0@) == form,
        s1.last().1 == c,
        c <= terms.len(),
        !irregular ==> forall|k: int| 0 <= k < s0.len() - 1 ==> #[trigger] log_step(g, s0, r0, terms, k),
        !irregular ==> current_ok(g, s0, r0, terms, form, c),
    ensures
        !irregular ==> forall|k: int| 0 <= k < s1.len() - 1 ==> #[trigger] log_step(g, s1, r1, terms, k),
{
    if !irregular {
        assert forall|k: int| 0 <= k < s1.len() - 1 implies #[trigger] log_step(g, s1, r1, terms, k) by {
            assert(s1[k] == s0[k]);
            assert(r1[k] == r0[k]);
            if k < s0.len() - 1 {
                assert(s1[k + 1] == s0[k + 1]);
                assert(log_step(g, s0, r0, terms, k));
            } else {
                assert(k == s0.len() - 1);
                assert(s0.last() == s0[k]);
                assert(r0.last() == r0[k]);
            }
        }
    }
}

/// The line of the derivation for one recorded form: its tokens, then every input token
/// not read yet, ` =>` unless it is the last line.
pub open spec fn derivation_line(step: Seq<TokenModel>, rest: Seq<Seq<char>>, last: bool) -> Seq<char> {
    join(names(step), seq![' ']) + rest_text(rest) + if last {
        Seq::empty()
    } else {
        seq![' ', '=', '>']
    }
}

/// Each word with a space before it.
pub open spec fn rest_text(words: Seq<Seq<char>>) -> Seq<char>
    decreases words.len(),
{
    if words.len() == 0 {
        Seq::empty()
    } else {
        rest_text(words.drop_last()) + seq![' '] + words.last()
    }
}

/// The names of the input tokens from position `c` on.
pub open spec fn rest_names(terms: Seq<(usize, Terminal)>, c: int) -> Seq<Seq<char>> {
    terms.subrange(c, terms.len() as int).map_values(|t: (usize, Terminal)| t.1@)
}

impl Derivation {
    /// The rightmost derivation: the recorded forms from the last to the first, each with
    /// the input not read yet; every line but the last ends with ` =>`.
    pub fn lines(&self) -> (r: Vec<String>)
        ensures
            r@.len() == self.steps@.len(),
            forall|k: int|
                0 <= k < r@.len() ==> {
                    let i = self.steps@.len() - 1 - k;
                    self.steps@[i].1 <= self.terms@.len() ==> (#[trigger] r@[k])@ == derivation_line(
                        toks(self.steps@[i].0@),
                        rest_names(self.terms@, self.steps@[i].1 as int),
                        i == 0,
                    )
                },
    {
        proof {
            reveal_strlit(" ");
            reveal_strlit(" =>");
        }
        let mut r: Vec<String> = Vec::new();
        let mut i = self.steps.len();
        while i > 0
            invariant
                i <= self.steps@.len(),
                r@.len() == self.steps@.len() - i,
                forall|k: int|
                    0 <= k < r@.len() ==> {
                        let i = self.steps@.len() - 1 - k;
                        self.steps@[i].1 <= self.terms@.len() ==> (#[trigger] r@[k])@ == derivation_line(
                            toks(self.steps@[i].0@),
                            rest_names(self.terms@, self.steps@[i].1 as int),
                            i == 0,
                        )
                    },
            decreases i,
        {
            proof {
                reveal_strlit(" ");
                reveal_strlit(" =>");
            }
            i = i - 1;
            let (step, cursor) = (&self.steps[i].0, self.steps[i].1);
            let mut words: Vec<String> = Vec::new();
            let mut k: usize = 0;
            while k < step.len()
                invariant
                    k <= step@.len(),
                    words@.len() == k,
                    forall|j: int| 0 <= j < k ==> (#[trigger] words@[j])@ == names(toks(step@))[j],
                decreases step@.len() - k,
            {
                words.push(step[k].as_str().to_owned());
                k = k + 1;
            }
            assert(string_views(words@) =~= names(toks(step@)));
            let mut line = join_words(&words, " ");
            let ghost lead = line@;
            let mut c = cursor;
            while c < self.terms.len()
                invariant
                    cursor <= c <= self.terms@.len() || cursor > self.terms@.len(),
                    cursor <= self.terms@.len() ==> line@ == lead + rest_text(rest_names(self.terms@, cursor as int).subrange(0, c - cursor)),
                decreases self.terms@.len() - c,
            {
                line.append(" ");
                line.append(self.terms[c].1.as_str());
                proof {
                    reveal_strlit(" ");
                    if cursor <= self.terms@.len() {
                        let all = rest_names(self.terms@, cursor as int);
                        let part = all.subrange(0, c + 1 - cursor);
                        assert(part.drop_last() =~= all.subrange(0, c - cursor));
                        assert(part.last() == self.terms@[c as int].1@);
                    }
                }
                c = c + 1;
            }
            proof {
                if cursor <= self.terms@.len() {
                    let all = rest_names(self.terms@, cursor as int);
                    assert(all.subrange(0, c - cursor) =~= all);
                }
            }
            let ghost mid = line@;
            if i != 0 {
                line.append(" =>");
            }
            proof {
                reveal_strlit(" ");
                reveal_strlit(" =>");
                if cursor <= self.terms@.len() {
                    assert(" "@ == seq![' ']);
                    assert(lead == join(names(toks(step@)), seq![' ']));
                    assert(line@ =~= derivation_line(toks(step@), rest_names(self.terms@, cursor as int), i == 0));
                }
            }
            let ghost r0 = r@;
            r.push(line);
            proof {
                assert forall|k: int|
                    0 <= k < r@.len() implies {
                        let i = self.steps@.len() - 1 - k;
                        self.steps@[i].1 <= self.terms@.len() ==> (#[trigger] r@[k])@ == derivation_line(
                            toks(self.steps@[i].0@),
                            rest_names(self.terms@, self.steps@[i].1 as int),
                            i == 0,
                        )
                    } by {
                    if k < r0.len() {
                        assert(r@[k] == r0[k]);
                    }
                }
            }
        }
        r
    }

    /// One message per terminal that recovery supplied: the line it was missing on and the
    /// terminal.
    pub fn messages(&self) -> (r: Vec<String>)
        ensures
            r@.len() == self.missing@.len(),
            forall|k: int| 0 <= k < r@.len() ==> (#[trigger] r@[k])@ == missing_message(self.missing@[k].0 as nat, self.missing@[k].1@),
    {
        let mut r: Vec<String> = Vec::new();
        let mut k: usize = 0;
        while k < self.missing.len()
            invariant
                k <= self.missing@.len(),
                r@.len() == k,
                forall|j: int| 0 <= j < k ==> (#[trigger] r@[j])@ == missing_message(self.missing@[j].0 as nat, self.missing@[j].1@),
            decreases self.missing@.len() - k,
        {
            let mut m = String::new();
            m.append("语法错误，第");
            push_decimal(&mut m, self.missing[k].0);
            m.append("行，缺少\"");
            m.append(self.missing[k].1.as_str());
            m.append("\"");
            proof {
                assert(m@ =~= missing_message(self.missing@[k as int].0 as nat, self.missing@[k as int].1@));
            }
            r.push(m);
            k = k + 1;
        }
        r
    }
}

/// The message for terminal `x` missing on line `line`.
pub open spec fn missing_message(line: nat, x: Seq<char>) -> Seq<char> {
    "语法错误，第"@ + crate::table::dec(line) + "行，缺少\""@ + x + "\""@
}

} // verus!
