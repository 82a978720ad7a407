//! Productions and grammars: the ordered token set, the coded rules and the FIRST sets.
use vstd::prelude::*;
use vstd::string::*;

use crate::cfg::{compute_first, in_first, in_first_seq, is_first_table, rules_wf, Rule};
use crate::error::{Error, ParseProductionError};
use crate::text::{
    all_lines_ok, alternatives, arrow_at, blank, chars_of, find_arrow, first_arrow, first_arrow_at, first_bad_line,
    has_arrow, head_text, is_blank, is_head, is_prod_line, lemma_lines_nonempty, lemma_lines_prefix,
    line_ok, lines_of, ranges_text, split_on, substring, tail_text, trim_range, words, words_of,
};
use crate::token::{
    eof_ident, eps_ident, lemma_token_total, lemma_token_trans, token_lt,
    NonTerminal, Terminal, Token, TokenModel,
};

verus! {

/// The views of a sequence of tokens.
pub open spec fn toks(v: Seq<Token>) -> Seq<TokenModel> {
    v.map_values(|t: Token| t@)
}

pub open spec fn eps_tok() -> TokenModel {
    TokenModel::Term(eps_ident())
}

pub open spec fn eof_tok() -> TokenModel {
    TokenModel::Term(eof_ident())
}

/// A tail with every ε left out: its effective symbols.
pub open spec fn without_eps(s: Seq<TokenModel>) -> Seq<TokenModel>
    decreases s.len(),
{
    if s.len() == 0 {
        Seq::empty()
    } else if s.last() == eps_tok() {
        without_eps(s.drop_last())
    } else {
        without_eps(s.drop_last()).push(s.last())
    }
}

/// The views of a list of productions.
pub open spec fn prod_views(v: Seq<Production>) -> Seq<ProductionModel> {
    v.map_values(|p: Production| p@)
}

/// A production: a head non-terminal and a tail of tokens.
#[derive(Debug)]
pub struct Production {
    head: NonTerminal,
    tail: Vec<Token>,
}

/// A production seen as data.
pub struct ProductionModel {
    pub head: Seq<char>,
    pub tail: Seq<TokenModel>,
}

impl View for Production {
    type V = ProductionModel;

    closed spec fn view(&self) -> ProductionModel {
        ProductionModel { head: self.head@, tail: toks(self.tail@) }
    }
}

impl Clone for Production {
    fn clone(&self) -> (r: Self)
        ensures
            r@ == self@,
    {
        Production { head: self.head.clone(), tail: clone_tokens(&self.tail) }
    }
}

impl PartialEq for Production {
    fn eq(&self, other: &Production) -> (r: bool) {
        self.head == other.head && tokens_eq(&self.tail, &other.tail)
    }
}

impl vstd::std_specs::cmp::PartialEqSpecImpl for Production {
    open spec fn obeys_eq_spec() -> bool {
        true
    }

    open spec fn eq_spec(&self, other: &Production) -> bool {
        self@ == other@
    }
}

impl Eq for Production {

}

/// Copies a list of tokens.
pub fn clone_tokens(v: &Vec<Token>) -> (r: Vec<Token>)
    ensures
        toks(r@) == toks(v@),
{
    let mut r: Vec<Token> = Vec::new();
    let mut i: usize = 0;
    while i < v.len()
        invariant
            i <= v@.len(),
            r@.len() == i,
            forall|k: int| 0 <= k < i ==> (#[trigger] r@[k])@ == v@[k]@,
        decreases v@.len() - i,
    {
        let c = v[i].clone();
        r.push(c);
        i = i + 1;
    }
    assert(toks(r@) =~= toks(v@));
    r
}

/// Whether two lists of tokens are equal.
fn tokens_eq(a: &Vec<Token>, b: &Vec<Token>) -> (r: bool)
    ensures
        r == (toks(a@) == toks(b@)),
{
    if a.len() != b.len() {
        assert(toks(a@).len() != toks(b@).len());
        return false;
    }
    let mut i: usize = 0;
    while i < a.len()
        invariant
            i <= a@.len(),
            a@.len() == b@.len(),
            forall|k: int| 0 <= k < i ==> (#[trigger] a@[k])@ == b@[k]@,
        decreases a@.len() - i,
    {
        if a[i] != b[i] {
            assert(toks(a@)[i as int] != toks(b@)[i as int]);
            return false;
        }
        i = i + 1;
    }
    assert(toks(a@) =~= toks(b@));
    true
}

impl Production {
    pub fn new(head: NonTerminal, tail: Vec<Token>) -> (r: Production)
        ensures
            r@.head == head@,
            r@.tail == toks(tail@),
    {
        Production { head, tail }
    }

    pub fn head(&self) -> (r: NonTerminal)
        ensures
            r@ == self@.head,
    {
        self.head.clone()
    }

    pub fn tail(&self) -> (r: &Vec<Token>)
        ensures
            toks(r@) == self@.tail,
    {
        &self.tail
    }

    /// The tail with every ε left out.
    pub fn tail_without_eps(&self) -> (r: Vec<Token>)
        ensures
            toks(r@) == without_eps(self@.tail),
    {
        let mut r: Vec<Token> = Vec::new();
        let mut i: usize = 0;
        while i < self.tail.len()
            invariant
                i <= self.tail@.len(),
                toks(r@) == without_eps(toks(self.tail@).subrange(0, i as int)),
            decreases self.tail@.len() - i,
        {
            let ghost pre = toks(self.tail@).subrange(0, i as int);
            let t = &self.tail[i];
            let is_eps = match t {
                Token::Terminal(term) => term.is_epsilon(),
                Token::NonTerminal(_) => false,
            };
            if !is_eps {
                r.push(t.clone());
            }
            i = i + 1;
            assert(toks(self.tail@).subrange(0, i as int).drop_last() =~= pre);
            assert(toks(r@) =~= without_eps(toks(self.tail@).subrange(0, i as int)));
        }
        assert(toks(self.tail@).subrange(0, i as int) =~= toks(self.tail@));
        r
    }

    /// How the production reads: `head -> t1 t2 …`.
    pub fn to_text(&self) -> (r: String)
        ensures
            r@ == self@.head + seq![' ', '-', '>', ' '] + crate::item::join(
                crate::driver::names(self@.tail),
                seq![' '],
            ),
    {
        proof {
            reveal_strlit(" -> ");
            reveal_strlit(" ");
        }
        let mut words: Vec<String> = Vec::new();
        let mut i: usize = 0;
        while i < self.tail.len()
            invariant
                i <= self.tail@.len(),
                words@.len() == i,
                forall|j: int| 0 <= j < i ==> (#[trigger] words@[j])@ == crate::driver::names(toks(self.tail@))[j],
            decreases self.tail@.len() - i,
        {
            words.push(self.tail[i].as_str().to_owned());
            i = i + 1;
        }
        assert(crate::item::string_views(words@) =~= crate::driver::names(toks(self.tail@)));
        let mut r = self.head.as_str().to_owned();
        r.append(" -> ");
        let t = crate::item::join_words(&words, " ");
        r.append(t.as_str());
        proof {
            assert(" -> "@ == seq![' ', '-', '>', ' ']);
            assert(" "@ == seq![' ']);
        }
        r
    }

    /// The number of tail tokens, ε not counted.
    pub fn len(&self) -> (r: usize)
        ensures
            r == without_eps(self@.tail).len(),
    {
        self.tail_without_eps().len()
    }

    pub fn is_empty(&self) -> (r: bool)
        ensures
            r == (without_eps(self@.tail).len() == 0),
    {
        self.len() == 0
    }
}

/// A context-free grammar over an ordered set of tokens.
///
/// Tokens are kept in one list: the ordinary terminals, then ε, then end of input, then the
/// non-terminals. A token's index in that list is its code, and the productions are also kept
/// in coded form, together with the FIRST set of every token.
#[derive(Debug)]
pub struct Grammar {
    prods: Vec<Production>,
    tokens: Vec<Token>,
    n_terms: usize,
    start: NonTerminal,
    start_id: usize,
    rules: Vec<Rule>,
    first: Vec<Vec<bool>>,
}

impl Grammar {
    pub closed spec fn spec_prods(&self) -> Seq<ProductionModel> {
        prod_views(self.prods@)
    }

    pub closed spec fn spec_tokens(&self) -> Seq<TokenModel> {
        toks(self.tokens@)
    }

    /// The number of terminals, ε and end of input included.
    pub closed spec fn spec_nt(&self) -> nat {
        self.n_terms as nat
    }

    /// The number of tokens.
    pub closed spec fn spec_ns(&self) -> nat {
        self.tokens@.len()
    }

    pub closed spec fn spec_start(&self) -> Seq<char> {
        self.start@
    }

    pub closed spec fn spec_start_id(&self) -> nat {
        self.start_id as nat
    }

    pub closed spec fn spec_rules(&self) -> Seq<Rule> {
        self.rules@
    }

    pub closed spec fn spec_first(&self) -> Seq<Vec<bool>> {
        self.first@
    }

    /// The code of ε.
    pub open spec fn eps_id(&self) -> nat {
        (self.spec_nt() - 2) as nat
    }

    /// The code of the end-of-input marker.
    pub open spec fn eof_id(&self) -> nat {
        (self.spec_nt() - 1) as nat
    }

    /// The token list, the coded rules and the FIRST table agree with the productions.
    pub open spec fn wf(&self) -> bool {
        let nt = self.spec_nt();
        let ns = self.spec_ns();
        let tk = self.spec_tokens();
        &&& rules_wf(self.spec_rules(), nt, ns)
        &&& tk.len() == ns
        &&& forall|i: int| 0 <= i < nt ==> #[trigger] tk[i] is Term
        &&& forall|i: int| nt <= i < ns ==> #[trigger] tk[i] is NonTerm
        &&& tk[nt - 2] == eps_tok()
        &&& tk[nt - 1] == eof_tok()
        &&& forall|i: int, j: int| 0 <= i < ns && 0 <= j < ns && i != j ==> tk[i] != tk[j]
        &&& sorted(tk)
        &&& forall|x: TokenModel| #[trigger] tk.contains(x) <==> (x == eps_tok() || x == eof_tok() || occurs(self.spec_prods(), x))
        &&& self.spec_rules().len() == self.spec_prods().len()
        &&& forall|p: int| 0 <= p < self.spec_rules().len() ==> #[trigger] self.rule_matches(p)
        &&& is_first_table(self.spec_rules(), nt, ns, self.spec_first())
        &&& nt <= self.spec_start_id() < ns
        &&& tk[self.spec_start_id() as int] == TokenModel::NonTerm(self.spec_start())
    }

    /// Coded rule `p` is production `p` with every token replaced by its code.
    pub open spec fn rule_matches(&self, p: int) -> bool {
        let r = self.spec_rules()[p];
        let pr = self.spec_prods()[p];
        let tail = without_eps(pr.tail);
        &&& self.spec_tokens()[r.head as int] == TokenModel::NonTerm(pr.head)
        &&& r.body@.len() == tail.len()
        &&& forall|j: int| 0 <= j < tail.len() ==> self.spec_tokens()[#[trigger] r.body@[j] as int] == tail[j]
    }

    /// The productions, in order of their ids.
    pub fn prods(&self) -> (r: &Vec<Production>)
        ensures
            prod_views(r@) == self.spec_prods(),
    {
        &self.prods
    }

    /// The tokens, in the grammar's order.
    pub fn tokens(&self) -> (r: &Vec<Token>)
        ensures
            toks(r@) == self.spec_tokens(),
    {
        &self.tokens
    }

    pub fn symbol_start(&self) -> (r: NonTerminal)
        ensures
            r@ == self.spec_start(),
    {
        self.start.clone()
    }

    /// The number of terminals, ε and end of input included.
    pub fn n_terms(&self) -> (r: usize)
        ensures
            r == self.spec_nt(),
    {
        self.n_terms
    }

    /// The code of the start symbol.
    pub fn start_id(&self) -> (r: usize)
        ensures
            r == self.spec_start_id(),
    {
        self.start_id
    }

    /// The productions in coded form.
    pub fn rules(&self) -> (r: &Vec<Rule>)
        ensures
            r@ == self.spec_rules(),
    {
        &self.rules
    }

    /// The FIRST table: row per token code, column per terminal code.
    pub fn first_table(&self) -> (r: &Vec<Vec<bool>>)
        ensures
            r@ == self.spec_first(),
    {
        &self.first
    }

    /// The id of `prod`: the last production equal to it, if any.
    pub fn index_of_prod(&self, prod: &Production) -> (r: Option<usize>)
        ensures
            r matches Some(i) ==> i < self.spec_prods().len() && self.spec_prods()[i as int]
                == prod@ && forall|j: int|
                i < j < self.spec_prods().len() ==> self.spec_prods()[j] != prod@,
            r is None ==> forall|j: int|
                0 <= j < self.spec_prods().len() ==> self.spec_prods()[j] != prod@,
    {
        let mut i = self.prods.len();
        while i > 0
            invariant
                i <= self.prods@.len(),
                forall|j: int| i <= j < self.prods@.len() ==> self.spec_prods()[j] != prod@,
            decreases i,
        {
            if self.prods[i - 1] == *prod {
                return Some(i - 1);
            }
            i = i - 1;
        }
        None
    }

    /// The code of a token of the grammar.
    pub fn token_id(&self, tok: &Token) -> (r: Option<usize>)
        ensures
            r matches Some(i) ==> i < self.spec_ns() && self.spec_tokens()[i as int] == tok@,
            r is None ==> forall|i: int| 0 <= i < self.spec_ns() ==> self.spec_tokens()[i] != tok@,
    {
        find_token(&self.tokens, tok)
    }
}

/// Whether two lists of productions are equal.
fn prods_eq(a: &Vec<Production>, b: &Vec<Production>) -> (r: bool)
    ensures
        r == (prod_views(a@) == prod_views(b@)),
{
    if a.len() != b.len() {
        assert(prod_views(a@).len() != prod_views(b@).len());
        return false;
    }
    let mut i: usize = 0;
    while i < a.len()
        invariant
            i <= a@.len(),
            a@.len() == b@.len(),
            forall|k: int| 0 <= k < i ==> (#[trigger] a@[k])@ == b@[k]@,
        decreases a@.len() - i,
    {
        if a[i] != b[i] {
            assert(prod_views(a@)[i as int] != prod_views(b@)[i as int]);
            return false;
        }
        i = i + 1;
    }
    assert(prod_views(a@) =~= prod_views(b@));
    true
}

impl PartialEq for Grammar {
    fn eq(&self, other: &Grammar) -> (r: bool) {
        prods_eq(&self.prods, &other.prods) && self.start == other.start && tokens_eq(&self.tokens, &other.tokens)
    }
}

impl vstd::std_specs::cmp::PartialEqSpecImpl for Grammar {
    open spec fn obeys_eq_spec() -> bool {
        true
    }

    open spec fn eq_spec(&self, other: &Grammar) -> bool {
        &&& self.spec_prods() == other.spec_prods()
        &&& self.spec_start() == other.spec_start()
        &&& self.spec_tokens() == other.spec_tokens()
    }
}

/// The index of `tok` in `v`, if it is there.
pub fn find_token(v: &Vec<Token>, tok: &Token) -> (r: Option<usize>)
    ensures
        r matches Some(i) ==> i < v@.len() && v@[i as int]@ == tok@,
        r is None ==> forall|i: int| 0 <= i < v@.len() ==> v@[i]@ != tok@,
{
    let mut i: usize = 0;
    while i < v.len()
        invariant
            i <= v@.len(),
            forall|j: int| 0 <= j < i ==> v@[j]@ != tok@,
        decreases v@.len() - i,
    {
        if v[i] == *tok {
            return Some(i);
        }
        i = i + 1;
    }
    None
}

/// `x` heads one of the productions `ps` or stands in the tail of one.
pub open spec fn occurs(ps: Seq<ProductionModel>, x: TokenModel) -> bool {
    exists|q: int| 0 <= q < ps.len() && (TokenModel::NonTerm((#[trigger] ps[q]).head) == x || ps[q].tail.contains(x))
}

proof fn lemma_occurs_head(ps: Seq<ProductionModel>, q: int)
    requires
        0 <= q < ps.len(),
    ensures
        occurs(ps, TokenModel::NonTerm(ps[q].head)),
{
}

proof fn lemma_occurs_tail(ps: Seq<ProductionModel>, q: int, i: int)
    requires
        0 <= q < ps.len(),
        0 <= i < ps[q].tail.len(),
    ensures
        occurs(ps, ps[q].tail[i]),
{
    assert(ps[q].tail.contains(ps[q].tail[i]));
}

/// The entries of `v` stand in strictly increasing token order.
pub open spec fn sorted(v: Seq<TokenModel>) -> bool {
    forall|i: int, j: int| 0 <= i < j < v.len() ==> token_lt(#[trigger] v[i], #[trigger] v[j])
}

/// No two entries of `v` are the same token.
pub open spec fn unique(v: Seq<TokenModel>) -> bool {
    forall|i: int, j: int| 0 <= i < v.len() && 0 <= j < v.len() && i != j ==> v[i] != v[j]
}

/// Adds `t` to `v` unless it is already there, before the first entry it precedes.
fn insert_token(v: &mut Vec<Token>, t: &Token)
    requires
        unique(toks(old(v)@)),
        sorted(toks(old(v)@)),
    ensures
        unique(toks(final(v)@)),
        sorted(toks(final(v)@)),
        forall|x: TokenModel| toks(final(v)@).contains(x) <==> (toks(old(v)@).contains(x) || x == t@),
{
    let ghost tv = t@;
    let ghost old_v = toks(v@);
    let found = find_token(&*v, t);
    if found.is_none() {
        let mut k: usize = 0;
        while k < v.len() && v[k].precedes(t)
            invariant
                k <= v@.len(),
                toks(v@) == old_v,
                forall|i: int| 0 <= i < v@.len() ==> v@[i]@ != tv,
                forall|i: int| 0 <= i < k ==> token_lt(#[trigger] old_v[i], tv),
                tv == t@,
            decreases v@.len() - k,
        {
            assert(old_v[k as int] == v@[k as int]@);
            k = k + 1;
        }
        proof {
            if k < old_v.len() {
                assert(old_v[k as int] == v@[k as int]@);
                assert(!token_lt(old_v[k as int], tv));
                lemma_token_total(old_v[k as int], tv);
                assert(token_lt(tv, old_v[k as int]));
                assert forall|j: int| k <= j < old_v.len() implies token_lt(tv, #[trigger] old_v[j]) by {
                    if j > k {
                        lemma_token_trans(tv, old_v[k as int], old_v[j]);
                    }
                }
            }
        }
        let c = t.clone();
        v.insert(k, c);
        assert(toks(v@) =~= old_v.insert(k as int, tv));
        proof {
            let nv = toks(v@);
            assert forall|i: int, j: int| 0 <= i < j < nv.len() implies token_lt(#[trigger] nv[i], #[trigger] nv[j]) by {
                if j < k {
                    assert(nv[i] == old_v[i] && nv[j] == old_v[j]);
                } else if j == k {
                    assert(nv[i] == old_v[i]);
                } else if i == k {
                    assert(nv[j] == old_v[j - 1]);
                } else if i < k {
                    assert(nv[i] == old_v[i] && nv[j] == old_v[j - 1]);
                    lemma_token_trans(old_v[i], tv, old_v[j - 1]);
                } else {
                    assert(nv[i] == old_v[i - 1] && nv[j] == old_v[j - 1]);
                }
            }
        }
        assert forall|x: TokenModel| toks(v@).contains(x) <==> (old_v.contains(x) || x == tv) by {
            if old_v.contains(x) {
                let j = choose|j: int| 0 <= j < old_v.len() && old_v[j] == x;
                if j < k {
                    assert(toks(v@)[j] == x);
                } else {
                    assert(toks(v@)[j + 1] == x);
                }
            }
            if x == tv {
                assert(toks(v@)[k as int] == x);
            }
            if toks(v@).contains(x) {
                let j = choose|j: int| 0 <= j < toks(v@).len() && toks(v@)[j] == x;
                if j < k {
                    assert(old_v[j] == x);
                } else if j > k {
                    assert(old_v[j - 1] == x);
                }
            }
        }
    } else {
        let i = found.unwrap();
        assert(toks(v@)[i as int] == tv);
    }
    assert(forall|x: TokenModel| toks(v@).contains(x) <==> (toks(old(v)@).contains(x) || x == t@));
}

/// Every effective tail symbol differs from ε.
proof fn lemma_without_eps_no_eps(s: Seq<TokenModel>)
    ensures
        forall|j: int| 0 <= j < without_eps(s).len() ==> #[trigger] without_eps(s)[j] != eps_tok(),
        without_eps(s).len() <= s.len(),
        forall|j: int| 0 <= j < without_eps(s).len() ==> s.contains(#[trigger] without_eps(s)[j]),
    decreases s.len(),
{
    if s.len() > 0 {
        lemma_without_eps_no_eps(s.drop_last());
        let w = without_eps(s.drop_last());
        assert forall|j: int| 0 <= j < w.len() implies s.contains(#[trigger] w[j]) by {
            let k = choose|k: int| 0 <= k < s.drop_last().len() && s.drop_last()[k] == w[j];
            assert(s[k] == w[j]);
        }
        if s.last() != eps_tok() {
            assert(s[s.len() - 1] == s.last());
        }
    }
}

/// Every token of production `p` is in `terms` or `nts`, or is ε or end of input.
spec fn covered(terms: Seq<TokenModel>, nts: Seq<TokenModel>, x: TokenModel) -> bool {
    match x {
        TokenModel::Term(_) => x == eps_tok() || x == eof_tok() || terms.contains(x),
        TokenModel::NonTerm(_) => nts.contains(x),
    }
}

/// The codes of the effective tail of a production.
fn code_tail(tokens: &Vec<Token>, tail: &Vec<Token>) -> (body: Vec<usize>)
    requires
        forall|j: int| 0 <= j < tail@.len() ==> toks(tokens@).contains(#[trigger] tail@[j]@),
    ensures
        body@.len() == without_eps(toks(tail@)).len(),
        forall|j: int|
            0 <= j < body@.len() ==> #[trigger] body@[j] < tokens@.len() && toks(tokens@)[body@[j] as int]
                == without_eps(toks(tail@))[j],
{
    let mut body: Vec<usize> = Vec::new();
    let mut i: usize = 0;
    while i < tail.len()
        invariant
            i <= tail@.len(),
            forall|j: int| 0 <= j < tail@.len() ==> toks(tokens@).contains(#[trigger] tail@[j]@),
            body@.len() == without_eps(toks(tail@).subrange(0, i as int)).len(),
            forall|j: int|
                0 <= j < body@.len() ==> #[trigger] body@[j] < tokens@.len() && toks(tokens@)[body@[j] as int]
                    == without_eps(toks(tail@).subrange(0, i as int))[j],
        decreases tail@.len() - i,
    {
        let ghost pre = toks(tail@).subrange(0, i as int);
        let t = &tail[i];
        let is_eps = match t {
            Token::Terminal(term) => term.is_epsilon(),
            Token::NonTerminal(_) => false,
        };
        assert(toks(tail@).subrange(0, i + 1).drop_last() =~= pre);
        assert(toks(tail@).subrange(0, i + 1).last() == t@);
        if !is_eps {
            assert(toks(tokens@).contains(tail@[i as int]@));
            match find_token(tokens, t) {
                Some(id) => {
                    body.push(id);
                },
                None => {
                    proof {
                        let j = choose|j: int| 0 <= j < toks(tokens@).len() && toks(tokens@)[j] == t@;
                        assert(tokens@[j]@ == t@);
                    }
                },
            }
        }
        i = i + 1;
    }
    assert(toks(tail@).subrange(0, i as int) =~= toks(tail@));
    body
}

impl Grammar {
    /// The grammar of `prods` with start symbol `start`, which heads one of them: the tokens
    /// in their order, the coded rules and every FIRST set.
    fn build(prods: Vec<Production>, start: NonTerminal) -> (g: Grammar)
        requires
            exists|p: int| 0 <= p < prods@.len() && (#[trigger] prods@[p])@.head == start@,
        ensures
            g.wf(),
            g.spec_prods() == prod_views(prods@),
            g.spec_start() == start@,
    {
        let mut terms: Vec<Token> = Vec::new();
        let mut nts: Vec<Token> = Vec::new();
        let mut p: usize = 0;
        while p < prods.len()
            invariant
                p <= prods@.len(),
                unique(toks(terms@)),
                unique(toks(nts@)),
                sorted(toks(terms@)),
                sorted(toks(nts@)),
                forall|x: TokenModel| toks(terms@).contains(x) ==> occurs(prod_views(prods@), x),
                forall|x: TokenModel| toks(nts@).contains(x) ==> occurs(prod_views(prods@), x),

                forall|k: int| 0 <= k < terms@.len() ==> (#[trigger] toks(terms@)[k]) is Term
                    && toks(terms@)[k] != eps_tok() && toks(terms@)[k] != eof_tok(),
                forall|k: int| 0 <= k < nts@.len() ==> (#[trigger] toks(nts@)[k]) is NonTerm,
                forall|q: int|
                    0 <= q < p ==> toks(nts@).contains(
                        TokenModel::NonTerm((#[trigger] prods@[q])@.head),
                    ),
                forall|q: int, j: int|
                    0 <= q < p && 0 <= j < prods@[q]@.tail.len() ==> covered(
                        toks(terms@),
                        toks(nts@),
                        #[trigger] prods@[q]@.tail[j],
                    ),
            decreases prods@.len() - p,
        {
            let prod = &prods[p];
            let ghost terms0 = toks(terms@);
            let ghost nts0 = toks(nts@);
            insert_token(&mut nts, &Token::NonTerminal(prod.head.clone()));
            proof {
                lemma_occurs_head(prod_views(prods@), p as int);
                assert(prod_views(prods@)[p as int] == prod@);
                assert forall|k: int| 0 <= k < nts@.len() implies (#[trigger] toks(nts@)[k]) is NonTerm by {
                    assert(toks(nts@).contains(toks(nts@)[k]));
                    if toks(nts@)[k] != TokenModel::NonTerm(prod@.head) {
                        let m = choose|m: int| 0 <= m < nts0.len() && nts0[m] == toks(nts@)[k];
                        assert(nts0[m] is NonTerm);
                    }
                }
            }
            let mut i: usize = 0;
            while i < prod.tail.len()
                invariant
                    p < prods@.len(),
                    *prod == prods@[p as int],
                    i <= prod.tail@.len(),
                    unique(toks(terms@)),
                    unique(toks(nts@)),
                    sorted(toks(terms@)),
                    sorted(toks(nts@)),
                    forall|x: TokenModel| toks(terms@).contains(x) ==> occurs(prod_views(prods@), x),
                    forall|x: TokenModel| toks(nts@).contains(x) ==> occurs(prod_views(prods@), x),

                    forall|k: int| 0 <= k < terms@.len() ==> (#[trigger] toks(terms@)[k]) is Term
                        && toks(terms@)[k] != eps_tok() && toks(terms@)[k] != eof_tok(),
                    forall|k: int| 0 <= k < nts@.len() ==> (#[trigger] toks(nts@)[k]) is NonTerm,
                    forall|x: TokenModel| terms0.contains(x) ==> toks(terms@).contains(x),
                    forall|x: TokenModel| nts0.contains(x) ==> toks(nts@).contains(x),
                    toks(nts@).contains(TokenModel::NonTerm(prod@.head)),
                    forall|j: int| 0 <= j < i ==> covered(toks(terms@), toks(nts@), #[trigger] prod@.tail[j]),
                decreases prod.tail@.len() - i,
            {
                let t = &prod.tail[i];
                let ghost terms1 = toks(terms@);
                let ghost nts1 = toks(nts@);
                match t {
                    Token::Terminal(term) => {
                        if !term.is_epsilon() && !term.is_eof() {
                            insert_token(&mut terms, t);
                            proof {
                                lemma_occurs_tail(prod_views(prods@), p as int, i as int);
                                assert(prod_views(prods@)[p as int] == prod@);
                                assert(prod@.tail[i as int] == t@);
                                assert forall|k: int| 0 <= k < terms@.len() implies (#[trigger] toks(terms@)[k]) is Term
                                    && toks(terms@)[k] != eps_tok() && toks(terms@)[k] != eof_tok() by {
                                    assert(toks(terms@).contains(toks(terms@)[k]));
                                    if toks(terms@)[k] != t@ {
                                        let m = choose|m: int| 0 <= m < terms1.len() && terms1[m] == toks(terms@)[k];
                                        assert(terms1[m] is Term);
                                    }
                                }
                            }
                        }
                    },
                    Token::NonTerminal(_) => {
                        insert_token(&mut nts, t);
                        proof {
                            lemma_occurs_tail(prod_views(prods@), p as int, i as int);
                            assert(prod_views(prods@)[p as int] == prod@);
                            assert(prod@.tail[i as int] == t@);
                            assert forall|k: int| 0 <= k < nts@.len() implies (#[trigger] toks(nts@)[k]) is NonTerm by {
                                assert(toks(nts@).contains(toks(nts@)[k]));
                                if toks(nts@)[k] != t@ {
                                    let m = choose|m: int| 0 <= m < nts1.len() && nts1[m] == toks(nts@)[k];
                                    assert(nts1[m] is NonTerm);
                                }
                            }
                        }
                    },
                }
                proof {
                    assert(prod@.tail[i as int] == t@);
                    assert forall|j: int| 0 <= j <= i implies covered(toks(terms@), toks(nts@), #[trigger] prod@.tail[j]) by {
                        if j < i {
                            let x = prod@.tail[j];
                            assert(covered(terms1, nts1, x));
                            if x is Term && x != eps_tok() && x != eof_tok() {
                                assert(terms1.contains(x));
                            }
                        }
                    }
                }
                i = i + 1;
            }
            proof {
                assert forall|q: int|
                    0 <= q <= p implies toks(nts@).contains(TokenModel::NonTerm((#[trigger] prods@[q])@.head)) by {
                    if q < p {
                        assert(nts0.contains(TokenModel::NonTerm(prods@[q]@.head)));
                    }
                }
                assert forall|q: int, j: int|
                    0 <= q <= p && 0 <= j < prods@[q]@.tail.len() implies covered(
                        toks(terms@),
                        toks(nts@),
                        #[trigger] prods@[q]@.tail[j],
                    ) by {
                    if q < p {
                        let x = prods@[q]@.tail[j];
                        assert(covered(terms0, nts0, x));
                        if x is Term && x != eps_tok() && x != eof_tok() {
                            assert(terms0.contains(x));
                        }
                    }
                }
            }
            p = p + 1;
        }
        // Assemble the token list: ordinary terminals, ε, end of input, non-terminals.
        let mut tokens = terms;
        let ghost terms_v = toks(tokens@);
        let ghost nts_v = toks(nts@);
        tokens.push(Token::Terminal(Terminal::epsilon()));
        tokens.push(Token::Terminal(Terminal::eof()));
        let n_terms = tokens.len();
        let mut k: usize = 0;
        while k < nts.len()
            invariant
                k <= nts@.len(),
                toks(nts@) == nts_v,
                tokens@.len() == n_terms + k,
                n_terms == terms_v.len() + 2,
                forall|i: int| 0 <= i < terms_v.len() ==> toks(tokens@)[i] == terms_v[i],
                toks(tokens@)[n_terms - 2] == eps_tok(),
                toks(tokens@)[n_terms - 1] == eof_tok(),
                forall|i: int| 0 <= i < k ==> toks(tokens@)[n_terms + i] == nts_v[i],
                unique(terms_v),
                unique(nts_v),
                sorted(terms_v),
                sorted(nts_v),
                forall|i: int| 0 <= i < terms_v.len() ==> (#[trigger] terms_v[i]) is Term
                    && terms_v[i] != eps_tok() && terms_v[i] != eof_tok(),
                forall|i: int| 0 <= i < nts_v.len() ==> (#[trigger] nts_v[i]) is NonTerm,
            decreases nts@.len() - k,
        {
            tokens.push(nts[k].clone());
            k = k + 1;
        }
        let ghost tk = toks(tokens@);
        let ghost ns = tokens@.len();
        proof {
            assert(eps_tok() != eof_tok()) by {
                assert(eps_ident().len() != eof_ident().len());
            }
            assert forall|i: int| 0 <= i < n_terms implies #[trigger] tk[i] is Term by {
                if i < terms_v.len() {
                    assert(terms_v[i] is Term);
                }
            }
            assert forall|i: int| n_terms <= i < ns implies #[trigger] tk[i] is NonTerm by {
                assert(nts_v[i - n_terms] is NonTerm);
            }
            assert forall|i: int, j: int| 0 <= i < ns && 0 <= j < ns && i != j implies tk[i] != tk[j] by {
                if i >= n_terms && j >= n_terms {
                    assert(nts_v[i - n_terms] != nts_v[j - n_terms]);
                }
                if i < terms_v.len() {
                    assert(terms_v[i] != eps_tok() && terms_v[i] != eof_tok());
                }
                if j < terms_v.len() {
                    assert(terms_v[j] != eps_tok() && terms_v[j] != eof_tok());
                }
                if i >= n_terms && j < n_terms {
                    assert(tk[i] is NonTerm);
                    assert(tk[j] is Term);
                }
                if j >= n_terms && i < n_terms {
                    assert(tk[j] is NonTerm);
                    assert(tk[i] is Term);
                }
            }
            assert forall|i: int, j: int| 0 <= i < j < ns implies token_lt(#[trigger] tk[i], #[trigger] tk[j]) by {
                lemma_special_order();
                if j < terms_v.len() {
                    assert(tk[i] == terms_v[i] && tk[j] == terms_v[j]);
                } else if i < terms_v.len() && j < n_terms {
                    assert(tk[i] == terms_v[i]);
                    assert(terms_v[i] != eps_tok() && terms_v[i] != eof_tok());
                    if let TokenModel::Term(x) = terms_v[i] {
                        assert(token_lt(TokenModel::Term(x), eps_tok()) && token_lt(TokenModel::Term(x), eof_tok()));
                    }
                } else if i >= n_terms {
                    assert(nts_v[i - n_terms] == tk[i] && nts_v[j - n_terms] == tk[j]);
                } else if j >= n_terms {
                    assert(tk[i] is Term);
                    assert(tk[j] is NonTerm);
                } else {
                    assert(i == n_terms - 2 && j == n_terms - 1);
                }
            }
            assert forall|x: TokenModel| #[trigger] tk.contains(x) implies (x == eps_tok() || x == eof_tok() || occurs(prod_views(prods@), x)) by {
                let i = choose|i: int| 0 <= i < tk.len() && tk[i] == x;
                if i < terms_v.len() {
                    assert(terms_v.contains(terms_v[i]));
                } else if i >= n_terms {
                    assert(nts_v.contains(nts_v[i - n_terms]));
                }
            }
            // every token of every production is in the list
            assert forall|x: TokenModel| covered(terms_v, nts_v, x) implies tk.contains(x) by {
                if x == eps_tok() {
                    assert(tk[n_terms - 2] == x);
                } else if x == eof_tok() {
                    assert(tk[n_terms - 1] == x);
                } else if x is Term {
                    let m = choose|m: int| 0 <= m < terms_v.len() && terms_v[m] == x;
                    assert(tk[m] == x);
                } else {
                    let m = choose|m: int| 0 <= m < nts_v.len() && nts_v[m] == x;
                    assert(tk[n_terms + m] == x);
                }
            }
        }
        // Code every production.
        let mut rules: Vec<Rule> = Vec::new();
        let mut p: usize = 0;
        while p < prods.len()
            invariant
                p <= prods@.len(),
                rules@.len() == p,
                toks(tokens@) == tk,
                tokens@.len() == ns,
                2 <= n_terms <= ns,
                forall|i: int| 0 <= i < n_terms ==> #[trigger] tk[i] is Term,
                forall|i: int| n_terms <= i < ns ==> #[trigger] tk[i] is NonTerm,
                tk[n_terms - 2] == eps_tok(),
                forall|i: int, j: int| 0 <= i < ns && 0 <= j < ns && i != j ==> tk[i] != tk[j],
                sorted(tk),
                forall|x: TokenModel| covered(terms_v, nts_v, x) ==> tk.contains(x),
                forall|q: int| 0 <= q < prods@.len() ==> nts_v.contains(
                    TokenModel::NonTerm((#[trigger] prods@[q])@.head),
                ),
                forall|q: int, j: int|
                    0 <= q < prods@.len() && 0 <= j < prods@[q]@.tail.len() ==> covered(
                        terms_v,
                        nts_v,
                        #[trigger] prods@[q]@.tail[j],
                    ),
                forall|q: int| 0 <= q < p ==> #[trigger] rule_for(tk, rules@[q], prods@[q]@),
                forall|q: int| 0 <= q < p ==> n_terms <= (#[trigger] rules@[q]).head < ns,
                forall|q: int, j: int|
                    0 <= q < p && 0 <= j < rules@[q].body@.len() ==> #[trigger] rules@[q].body@[j]
                        < ns && rules@[q].body@[j] != n_terms - 2,
            decreases prods@.len() - p,
        {
            let prod = &prods[p];
            let head_tok = Token::NonTerminal(prod.head.clone());
            proof {
                assert(prods@[p as int] == *prod);
                assert(nts_v.contains(TokenModel::NonTerm(prods@[p as int]@.head)));
                assert(head_tok@ == TokenModel::NonTerm(prod@.head));
                assert(covered(terms_v, nts_v, head_tok@));
                assert(tk.contains(head_tok@));
            }
            let head = match find_token(&tokens, &head_tok) {
                Some(h) => h,
                None => {
                    proof {
                        let m = choose|m: int| 0 <= m < tk.len() && tk[m] == head_tok@;
                        assert(tokens@[m]@ == head_tok@);
                    }
                    0
                },
            };
            proof {
                assert forall|j: int| 0 <= j < prod.tail@.len() implies toks(tokens@).contains(
                    #[trigger] prod.tail@[j]@,
                ) by {
                    assert(prod@.tail[j] == prod.tail@[j]@);
                    assert(covered(terms_v, nts_v, prod@.tail[j]));
                }
            }
            let body = code_tail(&tokens, &prod.tail);
            proof {
                lemma_without_eps_no_eps(prod@.tail);
                assert(tk[head as int] is NonTerm);
                assert forall|j: int| 0 <= j < body@.len() implies #[trigger] body@[j] < ns && body@[j]
                    != n_terms - 2 by {
                    assert(without_eps(prod@.tail)[j] != eps_tok());
                }
            }
            rules.push(Rule { head, body });
            p = p + 1;
        }
        let first = compute_first(&rules, n_terms, tokens.len());
        let start_tok = Token::NonTerminal(start.clone());
        proof {
            let q = choose|q: int| 0 <= q < prods@.len() && (#[trigger] prods@[q])@.head == start@;
            assert(nts_v.contains(TokenModel::NonTerm(prods@[q]@.head)));
            assert(covered(terms_v, nts_v, start_tok@));
        }
        let start_id = match find_token(&tokens, &start_tok) {
            Some(s) => s,
            None => {
                proof {
                    let m = choose|m: int| 0 <= m < tk.len() && tk[m] == start_tok@;
                    assert(tokens@[m]@ == start_tok@);
                }
                0
            },
        };
        let g = Grammar { prods, tokens, n_terms, start, start_id, rules, first };
        proof {
            assert(tk[start_id as int] is NonTerm);
            assert forall|q: int| 0 <= q < g.spec_rules().len() implies #[trigger] g.rule_matches(q) by {
                assert(rule_for(tk, g.rules@[q], g.prods@[q]@));
            }
            assert(g.spec_tokens() == tk);
            assert(g.spec_nt() == n_terms);
            assert(g.spec_ns() == ns);
            assert(rules_wf(g.spec_rules(), g.spec_nt(), g.spec_ns()));
            assert(tk[n_terms - 1] == eof_tok());
            assert(is_first_table(g.spec_rules(), g.spec_nt(), g.spec_ns(), g.spec_first()));
            assert(g.spec_rules().len() == g.spec_prods().len());
        }
        g
    }
}

/// Coded rule `r` is production `pr` with every token replaced by its code in `tk`.
spec fn rule_for(tk: Seq<TokenModel>, r: Rule, pr: ProductionModel) -> bool {
    let tail = without_eps(pr.tail);
    &&& tk[r.head as int] == TokenModel::NonTerm(pr.head)
    &&& r.body@.len() == tail.len()
    &&& forall|j: int| 0 <= j < tail.len() ==> tk[#[trigger] r.body@[j] as int] == tail[j]
}

/// A tail word of grammar text `s`: a non-terminal when it heads some line of `s`, a
/// terminal otherwise.
pub open spec fn classify(s: Seq<char>, w: Seq<char>) -> TokenModel {
    if is_head(s, w) {
        TokenModel::NonTerm(w)
    } else {
        TokenModel::Term(w)
    }
}

/// The classified words of an alternative.
pub open spec fn alt_tail(s: Seq<char>, alt: Seq<char>) -> Seq<TokenModel> {
    words_of(alt).map_values(|w: Seq<char>| classify(s, w))
}

/// The productions of one production line, one per alternative, in order.
pub open spec fn line_prods(s: Seq<char>, l: Seq<char>) -> Seq<ProductionModel> {
    split_on(tail_text(l), '|').map_values(
        |alt: Seq<char>| ProductionModel { head: head_text(l), tail: alt_tail(s, alt) },
    )
}

/// The productions of the lines at the given indices, in order.
pub open spec fn lines_prods(s: Seq<char>, ks: Seq<int>) -> Seq<ProductionModel>
    decreases ks.len(),
{
    if ks.len() == 0 {
        Seq::empty()
    } else {
        lines_prods(s, ks.drop_last()) + line_prods(s, lines_of(s)[ks.last()])
    }
}

/// The productions of the first `k` lines of `s`, in order.
pub open spec fn prods_upto(s: Seq<char>, k: nat) -> Seq<ProductionModel>
    decreases k,
{
    if k == 0 {
        Seq::empty()
    } else if is_prod_line(s, k - 1) {
        prods_upto(s, (k - 1) as nat) + line_prods(s, lines_of(s)[k - 1])
    } else {
        prods_upto(s, (k - 1) as nat)
    }
}

/// The productions that grammar text `s` spells, in order.
pub open spec fn text_prods(s: Seq<char>) -> Seq<ProductionModel> {
    prods_upto(s, lines_of(s).len())
}

/// A production line read from text: where its head lies, where its tail starts and ends.
struct LineParts {
    head_start: usize,
    head_end: usize,
    tail_start: usize,
    tail_end: usize,
}

/// The first arrow of a line is unique.
proof fn lemma_first_arrow(l: Seq<char>, p: int)
    requires
        first_arrow_at(l, p),
    ensures
        first_arrow(l) == p,
{
    let q = first_arrow(l);
    assert(first_arrow_at(l, q));
    if q < p {
        assert(!arrow_at(l, q));
    } else if p < q {
        assert(!arrow_at(l, p));
    }
}

/// Reads the line `cs[a..b]`: `Err` when it is neither blank nor holds an arrow, `Ok(None)`
/// when it is blank, otherwise where its trimmed head lies and where its tail starts.
fn read_line(cs: &Vec<char>, a: usize, b: usize) -> (r: Result<Option<LineParts>, ()>)
    requires
        a <= b <= cs@.len(),
    ensures
        r is Err <==> !line_ok(cs@.subrange(a as int, b as int)),
        r matches Ok(None) ==> blank(cs@.subrange(a as int, b as int)),
        r matches Ok(Some(lp)) ==> !blank(cs@.subrange(a as int, b as int)) && has_arrow(
            cs@.subrange(a as int, b as int),
        ) && a <= lp.head_start <= lp.head_end <= lp.tail_start <= lp.tail_end && lp.tail_end
            == b && cs@.subrange(lp.head_start as int, lp.head_end as int) == head_text(
            cs@.subrange(a as int, b as int),
        ) && cs@.subrange(lp.tail_start as int, lp.tail_end as int) == tail_text(cs@.subrange(a as int, b as int)),
{
    if is_blank(cs, a, b) {
        return Ok(None);
    }
    match find_arrow(cs, a, b) {
        None => Err(()),
        Some(p) => {
            let ghost l = cs@.subrange(a as int, b as int);
            proof {
                lemma_first_arrow(l, p - a);
                assert(l.subrange(0, p - a) =~= cs@.subrange(a as int, p as int));
            }
            let (ha, hb) = trim_range(cs, a, p);
            proof {
                assert(l.subrange(p - a + 2, l.len() as int) =~= cs@.subrange(p + 2, b as int));
            }
            Ok(Some(LineParts { head_start: ha, head_end: hb, tail_start: p + 2, tail_end: b }))
        },
    }
}

/// Whether `w` is one of `heads`.
fn is_among(heads: &Vec<String>, w: &String) -> (r: bool)
    ensures
        r == exists|m: int| 0 <= m < heads@.len() && (#[trigger] heads@[m])@ == w@,
{
    let mut m: usize = 0;
    while m < heads.len()
        invariant
            m <= heads@.len(),
            forall|j: int| 0 <= j < m ==> (#[trigger] heads@[j])@ != w@,
        decreases heads@.len() - m,
    {
        if heads[m] == *w {
            return true;
        }
        m = m + 1;
    }
    false
}

impl Grammar {
    /// Reads a grammar from text: one `head -> α | β | …` line per head, blank lines skipped,
    /// tail words that head some line are non-terminals and all others terminals (`E` is ε).
    ///
    /// Fails on the first line that is neither blank nor holds `->`, and then when `start`
    /// heads no line.
    pub fn from_cfg(s: &str, start: NonTerminal) -> (r: Result<Grammar, Error>)
        ensures
            (exists|k: int| first_bad_line(s@, k)) ==> (r matches Err(
                Error::ParseProductionError { line, cause: ParseProductionError::NoArrow },
            ) && first_bad_line(s@, line as int)),
            all_lines_ok(s@) && !is_head(s@, start@) ==> (r matches Err(
                Error::ParseProductionError { line, cause: ParseProductionError::StartSymbolNotFound },
            ) && line == 0),
            all_lines_ok(s@) && is_head(s@, start@) ==> (r matches Ok(g) && g.wf()
                && g.spec_start() == start@ && g.spec_prods() == text_prods(s@) && forall|p: int|
                0 <= p < g.spec_prods().len() ==> is_head(s@, (#[trigger] g.spec_prods()[p]).head)
                && forall|j: int|
                0 <= j < g.spec_prods()[p].tail.len() ==> match #[trigger] g.spec_prods()[p].tail[j] {
                    TokenModel::NonTerm(x) => is_head(s@, x),
                    TokenModel::Term(x) => !is_head(s@, x),
                }),
    {
        let cs = chars_of(s);
        let n = cs.len();
        let ghost lines = lines_of(cs@);
        proof {
            assert(cs@.subrange(0, n as int) =~= cs@);
            assert(cs@.subrange(0, 0) =~= Seq::<char>::empty());
        }
        let mut parts: Vec<LineParts> = Vec::new();
        let mut heads: Vec<String> = Vec::new();
        proof {
            lemma_lines_prefix(cs@, 0, n as int);
        }
        let mut a: usize = 0;
        let mut k: usize = 0;
        let mut i: usize = 0;
        let ghost mut kidx: Seq<int> = Seq::empty();
        loop
            invariant_except_break
                forall|m: int|
                    0 <= m < kidx.len() ==> 0 <= #[trigger] kidx[m] < k && is_prod_line(s@, kidx[m])
                        && cs@.subrange(parts@[m].tail_start as int, parts@[m].tail_end as int) == tail_text(lines[kidx[m]])
                        && heads@[m]@ == head_text(lines[kidx[m]]),
                prods_upto(s@, k as nat) == lines_prods(s@, kidx),
            invariant
                cs@ == s@,
                n == cs@.len(),
                lines == lines_of(cs@),
                lines_of(cs@.subrange(0, n as int)) == lines,
                a <= i <= n,
                k <= i,
                k < lines.len(),
                lines_of(cs@.subrange(0, i as int)).len() == k + 1,
                lines_of(cs@.subrange(0, i as int))[k as int] == cs@.subrange(a as int, i as int),
                forall|j: int| 0 <= j < k ==> line_ok(#[trigger] lines[j]),
                kidx.len() == parts@.len(),
                parts@.len() == heads@.len(),
                forall|m: int|
                    0 <= m < parts@.len() ==> (#[trigger] parts@[m]).head_start <= parts@[m].head_end
                        <= parts@[m].tail_start <= parts@[m].tail_end <= n,
                forall|m: int| 0 <= m < heads@.len() ==> is_head(s@, (#[trigger] heads@[m])@),
                forall|j: int|
                    0 <= j < k && is_prod_line(s@, j) ==> exists|m: int|
                        0 <= m < heads@.len() && (#[trigger] heads@[m])@ == head_text(
                            #[trigger] lines[j],
                        ),
            ensures
                cs@ == s@,
                n == cs@.len(),
                all_lines_ok(s@),
                kidx.len() == parts@.len(),
                forall|m: int|
                    0 <= m < kidx.len() ==> 0 <= #[trigger] kidx[m] < lines_of(s@).len() && is_prod_line(s@, kidx[m])
                        && cs@.subrange(parts@[m].tail_start as int, parts@[m].tail_end as int) == tail_text(lines_of(s@)[kidx[m]])
                        && heads@[m]@ == head_text(lines_of(s@)[kidx[m]]),
                text_prods(s@) == lines_prods(s@, kidx),

                parts@.len() == heads@.len(),
                forall|m: int|
                    0 <= m < parts@.len() ==> (#[trigger] parts@[m]).head_start <= parts@[m].head_end
                        <= parts@[m].tail_start <= parts@[m].tail_end <= n,
                forall|m: int| 0 <= m < heads@.len() ==> is_head(s@, (#[trigger] heads@[m])@),
                forall|j: int|
                    is_prod_line(s@, j) ==> exists|m: int|
                        0 <= m < heads@.len() && (#[trigger] heads@[m])@ == head_text(
                            #[trigger] lines_of(s@)[j],
                        ),
            decreases n - i, (if i < n { 1int } else { 0int }),
        {
            if i < n && cs[i] != '\n' {
                proof {
                    let pre = cs@.subrange(0, i + 1);
                    assert(pre.drop_last() =~= cs@.subrange(0, i as int));
                    assert(pre.last() == cs@[i as int]);
                    assert(cs@.subrange(a as int, i + 1) =~= cs@.subrange(a as int, i as int).push(cs@[i as int]));
                }
                i = i + 1;
            } else {
                // line `k` is cs[a..i]
                let ghost line = cs@.subrange(a as int, i as int);
                proof {
                    if i < n {
                        let pre = cs@.subrange(0, i + 1);
                        assert(pre.drop_last() =~= cs@.subrange(0, i as int));
                        assert(pre.last() == cs@[i as int]);
                        lemma_lines_prefix(cs@, i + 1, n as int);
                        assert(lines_of(pre).len() == k + 2);
                        assert(lines_of(pre)[k as int] == line);
                        assert(lines[k as int] == line);
                    } else {
                        assert(cs@.subrange(0, i as int) =~= cs@);
                        assert(lines.len() == k + 1);
                        assert(lines[k as int] == line);
                    }
                }
                match read_line(&cs, a, i) {
                    Err(()) => {
                        proof {
                            assert(!line_ok(lines[k as int]));
                            assert(first_bad_line(s@, k as int));
                            assert(!all_lines_ok(s@));
                        }
                        return Err(
                            Error::parse_production_error(k, ParseProductionError::NoArrow),
                        );
                    },
                    Ok(None) => {
                        proof {
                            assert(!is_prod_line(s@, k as int));
                            assert(prods_upto(s@, (k + 1) as nat) == prods_upto(s@, k as nat));
                            assert forall|j: int|
                                0 <= j <= k && is_prod_line(s@, j) implies exists|m: int|
                                    0 <= m < heads@.len() && (#[trigger] heads@[m])@ == head_text(
                                        #[trigger] lines[j],
                                    ) by {
                                assert(j < k);
                            }
                        }
                    },
                    Ok(Some(lp)) => {
                        let h = substring(s, lp.head_start, lp.head_end);
                        proof {
                            assert(is_prod_line(s@, k as int));
                            assert(h@ == head_text(lines[k as int]));
                        }
                        let ghost h0 = heads@;
                        let ghost p0 = parts@;
                        let ghost k0 = kidx;
                        heads.push(h);
                        parts.push(lp);
                        proof {
                            kidx = kidx.push(k as int);
                            assert(kidx.drop_last() =~= k0);
                            assert(prods_upto(s@, (k + 1) as nat) == prods_upto(s@, k as nat) + line_prods(s@, lines[k as int]));
                            assert(lines_prods(s@, kidx) == lines_prods(s@, k0) + line_prods(s@, lines_of(s@)[k as int]));
                            assert forall|m: int|
                                0 <= m < kidx.len() implies 0 <= #[trigger] kidx[m] < k + 1 && is_prod_line(s@, kidx[m])
                                    && cs@.subrange(parts@[m].tail_start as int, parts@[m].tail_end as int) == tail_text(lines[kidx[m]])
                                    && heads@[m]@ == head_text(lines[kidx[m]]) by {
                                if m < k0.len() {
                                    assert(parts@[m] == p0[m]);
                                    assert(heads@[m] == h0[m]);
                                }
                            }
                            assert forall|j: int|
                                0 <= j <= k && is_prod_line(s@, j) implies exists|m: int|
                                    0 <= m < heads@.len() && (#[trigger] heads@[m])@ == head_text(
                                        #[trigger] lines[j],
                                    ) by {
                                if j == k {
                                    assert(heads@[heads@.len() - 1]@ == head_text(lines[j]));
                                } else {
                                    let m = choose|m: int| 0 <= m < h0.len() && (#[trigger] h0[m])@ == head_text(lines[j]);
                                    assert(heads@[m] == h0[m]);
                                }
                            }
                        }
                    },
                }
                proof {
                    assert(line_ok(lines[k as int]));
                }
                if i == n {
                    proof {
                        assert(lines.len() == k + 1);
                        assert(text_prods(s@) == prods_upto(s@, (k + 1) as nat));
                        assert forall|j: int| 0 <= j < lines_of(s@).len() implies line_ok(#[trigger] lines_of(s@)[j]) by {
                            assert(j <= k);
                        }
                        assert forall|j: int| is_prod_line(s@, j) implies exists|m: int|
                            0 <= m < heads@.len() && (#[trigger] heads@[m])@ == head_text(
                                #[trigger] lines_of(s@)[j],
                            ) by {
                            assert(j <= k);
                        }
                    }
                    break;
                }
                proof {
                    let pre = cs@.subrange(0, i + 1);
                    assert(pre.drop_last() =~= cs@.subrange(0, i as int));
                    assert(pre.last() == cs@[i as int]);
                    assert(cs@.subrange(i + 1, i + 1) =~= Seq::<char>::empty());
                    lemma_lines_prefix(cs@, i + 1, n as int);
                    assert(lines_of(pre).len() == k + 2);
                }
                i = i + 1;
                a = i;
                k = k + 1;
            }
        }
        // the start symbol must head some line
        let mut found = false;
        let mut m: usize = 0;
        while m < heads.len()
            invariant
                m <= heads@.len(),
                found ==> exists|q: int| 0 <= q < heads@.len() && (#[trigger] heads@[q])@ == start@,
                !found ==> forall|q: int| 0 <= q < m ==> (#[trigger] heads@[q])@ != start@,
            decreases heads@.len() - m,
        {
            if NonTerminal::from(heads[m].as_str()) == start {
                found = true;
            }
            m = m + 1;
        }
        if !found {
            proof {
                if is_head(s@, start@) {
                    let j = choose|j: int| is_prod_line(s@, j) && head_text(#[trigger] lines_of(s@)[j]) == start@;
                    let q = choose|q: int| 0 <= q < heads@.len() && (#[trigger] heads@[q])@ == head_text(lines[j]);
                    assert(heads@[q]@ == start@);
                }
            }
            return Err(
                Error::parse_production_error(0, ParseProductionError::StartSymbolNotFound),
            );
        }
        // read the productions
        let mut prods: Vec<Production> = Vec::new();
        let mut m: usize = 0;
        while m < parts.len()
            invariant
                cs@ == s@,
                n == cs@.len(),
                m <= parts@.len(),
                parts@.len() == heads@.len(),
                forall|q: int|
                    0 <= q < parts@.len() ==> (#[trigger] parts@[q]).head_start <= parts@[q].head_end
                        <= parts@[q].tail_start <= parts@[q].tail_end <= n,
                forall|q: int| 0 <= q < heads@.len() ==> is_head(s@, (#[trigger] heads@[q])@),
                forall|x: Seq<char>| is_head(s@, x) ==> exists|q: int| 0 <= q < heads@.len() && (#[trigger] heads@[q])@ == x,
                forall|q: int| 0 <= q < m ==> exists|p: int| 0 <= p < prods@.len() && (#[trigger] prods@[p])@.head == (#[trigger] heads@[q])@,
                kidx.len() == parts@.len(),
                forall|z: int|
                    0 <= z < kidx.len() ==> 0 <= #[trigger] kidx[z] < lines_of(s@).len() && is_prod_line(s@, kidx[z])
                        && cs@.subrange(parts@[z].tail_start as int, parts@[z].tail_end as int) == tail_text(lines_of(s@)[kidx[z]])
                        && heads@[z]@ == head_text(lines_of(s@)[kidx[z]]),
                prod_views(prods@) == lines_prods(s@, kidx.subrange(0, m as int)),
                forall|p: int| 0 <= p < prods@.len() ==> is_head(s@, (#[trigger] prods@[p])@.head)
                    && forall|j: int|
                    0 <= j < prods@[p]@.tail.len() ==> match #[trigger] prods@[p]@.tail[j] {
                        TokenModel::NonTerm(x) => is_head(s@, x),
                        TokenModel::Term(x) => !is_head(s@, x),
                    },
            decreases parts@.len() - m,
        {
            let lp = &parts[m];
            let alts = alternatives(&cs, lp.tail_start, lp.tail_end);
            let mut q: usize = 0;
            let ghost before = prods@.len();
            let ghost pb = prods@;
            let ghost line = lines_of(s@)[kidx[m as int]];
            proof {
                assert(ranges_text(cs@, alts@) == split_on(tail_text(line), '|'));
                assert(line_prods(s@, line).subrange(0, 0) =~= Seq::<ProductionModel>::empty());
                assert(prod_views(prods@) =~= lines_prods(s@, kidx.subrange(0, m as int)) + line_prods(s@, line).subrange(0, 0));
            }
            while q < alts.len()
                invariant
                    cs@ == s@,
                    n == cs@.len(),
                    m < parts@.len(),
                    m < heads@.len(),
                    q <= alts@.len(),
                    alts@.len() >= 1,
                    forall|z: int| 0 <= z < alts@.len() ==> (#[trigger] alts@[z]).0 <= alts@[z].1 <= n,
                    forall|x: Seq<char>| is_head(s@, x) ==> exists|q: int| 0 <= q < heads@.len() && (#[trigger] heads@[q])@ == x,
                    forall|q: int| 0 <= q < heads@.len() ==> is_head(s@, (#[trigger] heads@[q])@),
                    prods@.len() >= before,
                    prods@.len() == before + q,
                    ranges_text(cs@, alts@) == split_on(tail_text(line), '|'),
                    heads@[m as int]@ == head_text(line),
                    prod_views(prods@) == lines_prods(s@, kidx.subrange(0, m as int)) + line_prods(s@, line).subrange(0, q as int),
                    q > 0 ==> (prods@[before as int])@.head == heads@[m as int]@,
                    forall|z: int| 0 <= z < before ==> prods@[z] == pb[z],
                    pb.len() == before,
                    forall|p: int| 0 <= p < prods@.len() ==> is_head(s@, (#[trigger] prods@[p])@.head)
                        && forall|j: int|
                        0 <= j < prods@[p]@.tail.len() ==> match #[trigger] prods@[p]@.tail[j] {
                            TokenModel::NonTerm(x) => is_head(s@, x),
                            TokenModel::Term(x) => !is_head(s@, x),
                        },
                decreases alts@.len() - q,
            {
                let (x, y) = alts[q];
                let ws = words(&cs, x, y);
                let ghost alt = cs@.subrange(x as int, y as int);
                proof {
                    assert(alt == split_on(tail_text(line), '|')[q as int]);
                    assert(toks(Seq::<Token>::empty()) =~= alt_tail(s@, alt).subrange(0, 0));
                }
                let mut tail: Vec<Token> = Vec::new();
                let mut w: usize = 0;
                while w < ws.len()
                    invariant
                        cs@ == s@,
                        n == cs@.len(),
                        x <= y <= n,
                        forall|z: int| 0 <= z < ws@.len() ==> x <= (#[trigger] ws@[z]).0 < ws@[z].1 <= y,
                        forall|x: Seq<char>| is_head(s@, x) ==> exists|q: int| 0 <= q < heads@.len() && (#[trigger] heads@[q])@ == x,
                        forall|q: int| 0 <= q < heads@.len() ==> is_head(s@, (#[trigger] heads@[q])@),
                        w <= ws@.len(),
                        alt == cs@.subrange(x as int, y as int),
                        ranges_text(cs@, ws@) == words_of(alt),
                        toks(tail@) == alt_tail(s@, alt).subrange(0, w as int),
                        forall|j: int| 0 <= j < tail@.len() ==> match (#[trigger] tail@[j])@ {
                            TokenModel::NonTerm(x) => is_head(s@, x),
                            TokenModel::Term(x) => !is_head(s@, x),
                        },
                    decreases ws@.len() - w,
                {
                    let (u, v) = ws[w];
                    let word = substring(s, u, v);
                    let ghost t0 = tail@;
                    proof {
                        assert(word@ == words_of(alt)[w as int]);
                    }
                    if is_among(&heads, &word) {
                        tail.push(Token::NonTerminal(NonTerminal::from_string(word)));
                    } else {
                        proof {
                            if is_head(s@, word@) {
                                let q = choose|q: int| 0 <= q < heads@.len() && (#[trigger] heads@[q])@ == word@;
                                assert(heads@[q]@ == word@);
                            }
                        }
                        tail.push(Token::Terminal(Terminal::from(word.as_str())));
                    }
                    proof {
                        assert(alt_tail(s@, alt).len() == words_of(alt).len());
                        assert(ranges_text(cs@, ws@).len() == ws@.len());
                        assert(toks(t0).len() == t0.len());
                        assert(t0.len() == w);
                        assert(tail@.len() == w + 1);
                        assert(tail@[w as int]@ == classify(s@, word@));
                        assert(alt_tail(s@, alt)[w as int] == classify(s@, words_of(alt)[w as int]));
                        assert forall|j: int| 0 <= j < w + 1 implies toks(tail@)[j] == alt_tail(s@, alt).subrange(0, w + 1)[j] by {
                            if j < w {
                                assert(tail@[j] == t0[j]);
                                assert(toks(t0)[j] == alt_tail(s@, alt).subrange(0, w as int)[j]);
                            }
                        }
                        assert(toks(tail@) =~= alt_tail(s@, alt).subrange(0, w + 1));
                    }
                    w = w + 1;
                }
                let head = NonTerminal::from(heads[m].as_str());
                let prod = Production::new(head, tail);
                let ghost p0 = prods@;
                prods.push(prod);
                proof {
                    assert forall|j: int| 0 <= j < prod@.tail.len() implies match #[trigger] prod@.tail[j] {
                        TokenModel::NonTerm(x) => is_head(s@, x),
                        TokenModel::Term(x) => !is_head(s@, x),
                    } by {
                        assert(prod@.tail[j] == tail@[j]@);
                    }
                    assert(prods@[prods@.len() - 1] == prod);
                    assert(alt_tail(s@, alt).len() == words_of(alt).len());
                    assert(ranges_text(cs@, ws@).len() == ws@.len());
                    assert(alt_tail(s@, alt).subrange(0, w as int) =~= alt_tail(s@, alt));
                    assert(toks(tail@) == alt_tail(s@, alt));
                    assert(split_on(tail_text(line), '|').len() == ranges_text(cs@, alts@).len());
                    assert(line_prods(s@, line)[q as int] == (ProductionModel { head: head_text(line), tail: alt_tail(s@, split_on(tail_text(line), '|')[q as int]) }));
                    assert(prod@ == line_prods(s@, line)[q as int]);
                    assert(prod_views(prods@) =~= prod_views(p0).push(prod@));
                    assert(prod_views(prods@) =~= lines_prods(s@, kidx.subrange(0, m as int)) + line_prods(s@, line).subrange(0, q + 1));
                }
                q = q + 1;
            }
            proof {
                assert(line_prods(s@, line).subrange(0, q as int) =~= line_prods(s@, line));
                assert(kidx.subrange(0, m + 1).drop_last() =~= kidx.subrange(0, m as int));
                assert(prod_views(prods@) == lines_prods(s@, kidx.subrange(0, m + 1)));
                assert(prods@[before as int]@.head == heads@[m as int]@);
                assert forall|q: int| 0 <= q < m + 1 implies exists|p: int| 0 <= p < prods@.len() && (#[trigger] prods@[p])@.head == (#[trigger] heads@[q])@ by {
                    if q < m {
                        let p = choose|p: int| 0 <= p < pb.len() && (#[trigger] pb[p])@.head == (#[trigger] heads@[q])@;
                        assert(prods@[p] == pb[p]);
                    } else {
                        assert(prods@[before as int]@.head == heads@[q]@);
                    }
                }
            }
            m = m + 1;
        }
        proof {
            let q = choose|q: int| 0 <= q < heads@.len() && (#[trigger] heads@[q])@ == start@;
            let p = choose|p: int| 0 <= p < prods@.len() && (#[trigger] prods@[p])@.head == (#[trigger] heads@[q])@;
            assert(prods@[p]@.head == start@);
        }
        proof {
            assert(kidx.subrange(0, m as int) =~= kidx);
        }
        let g = Grammar::build(prods, start);
        Ok(g)
    }
}

/// The suffix that names the fresh start symbol of an augmented grammar.
pub open spec fn prime_suffix() -> Seq<char> {
    seq!['p', 'r', 'i', 'm', 'e']
}

impl Grammar {
    /// The grammar with a fresh start symbol `Sprime` (for start `S`) and the production
    /// `Sprime -> S` as id 0; every other production keeps its order, its id shifted by one.
    pub fn augmented(self) -> (g: Grammar)
        requires
            self.wf(),
        ensures
            g.wf(),
            g.spec_start() == self.spec_start() + prime_suffix(),
            g.spec_prods().len() == self.spec_prods().len() + 1,
            g.spec_prods()[0] == (ProductionModel {
                head: g.spec_start(),
                tail: seq![TokenModel::NonTerm(self.spec_start())],
            }),
            forall|i: int|
                0 <= i < self.spec_prods().len() ==> g.spec_prods()[i + 1] == #[trigger] self.spec_prods()[i],
            forall|x: TokenModel| g.spec_tokens().contains(x) <==> (self.spec_tokens().contains(x) || x == TokenModel::NonTerm(g.spec_start())),
    {
        let mut name = self.start.as_str().to_owned();
        name.append("prime");
        proof {
            reveal_strlit("prime");
        }
        let new_start = NonTerminal::from_string(name);
        let mut tail: Vec<Token> = Vec::new();
        tail.push(Token::NonTerminal(self.start.clone()));
        let first_prod = Production::new(new_start.clone(), tail);
        assert(first_prod@.tail =~= seq![TokenModel::NonTerm(self.spec_start())]);
        let mut prods: Vec<Production> = Vec::new();
        prods.push(first_prod);
        let mut i: usize = 0;
        while i < self.prods.len()
            invariant
                i <= self.prods@.len(),
                prods@.len() == i + 1,
                prods@[0]@ == first_prod@,
                forall|j: int| 0 <= j < i ==> (#[trigger] prods@[j + 1])@ == self.prods@[j]@,
            decreases self.prods@.len() - i,
        {
            prods.push(self.prods[i].clone());
            i = i + 1;
        }
        let g = Grammar::build(prods, new_start);
        proof {
            assert forall|i: int| 0 <= i < self.spec_prods().len() implies g.spec_prods()[i + 1]
                == #[trigger] self.spec_prods()[i] by {
                assert(prods@[i + 1]@ == self.prods@[i]@);
            }
            let ps = self.spec_prods();
            let gs = g.spec_prods();
            assert(self.spec_tokens()[self.spec_start_id() as int] == TokenModel::NonTerm(self.spec_start()));
            assert forall|x: TokenModel| g.spec_tokens().contains(x) <==> (self.spec_tokens().contains(x) || x == TokenModel::NonTerm(g.spec_start())) by {
                assert(g.spec_tokens().contains(x) <==> (x == eps_tok() || x == eof_tok() || occurs(gs, x)));
                assert(self.spec_tokens().contains(x) <==> (x == eps_tok() || x == eof_tok() || occurs(ps, x)));
                if occurs(gs, x) {
                    let q = choose|q: int| 0 <= q < gs.len() && (TokenModel::NonTerm((#[trigger] gs[q]).head) == x || gs[q].tail.contains(x));
                    if q == 0 {
                        if x != TokenModel::NonTerm(g.spec_start()) {
                            assert(gs[0].tail.contains(x));
                            assert(x == TokenModel::NonTerm(self.spec_start()));
                            assert(self.spec_tokens().contains(x));
                        }
                    } else {
                        assert(gs[q] == ps[q - 1]);
                        assert(occurs(ps, x));
                    }
                }
                if occurs(ps, x) {
                    let q = choose|q: int| 0 <= q < ps.len() && (TokenModel::NonTerm((#[trigger] ps[q]).head) == x || ps[q].tail.contains(x));
                    assert(gs[q + 1] == ps[q]);
                    assert(occurs(gs, x));
                }
                if x == TokenModel::NonTerm(g.spec_start()) {
                    assert(TokenModel::NonTerm(gs[0].head) == x);
                    assert(occurs(gs, x));
                }
            }
        }
        g
    }

    /// The token named `s`: the non-terminal when the grammar has one of that name, else the
    /// terminal when it has one, else none.
    pub fn get_token(&self, s: &str) -> (r: Option<Token>)
        ensures
            self.spec_tokens().contains(TokenModel::NonTerm(s@)) ==> (r matches Some(t) && t@
                == TokenModel::NonTerm(s@)),
            !self.spec_tokens().contains(TokenModel::NonTerm(s@)) && self.spec_tokens().contains(
                TokenModel::Term(s@),
            ) ==> (r matches Some(t) && t@ == TokenModel::Term(s@)),
            !self.spec_tokens().contains(TokenModel::NonTerm(s@)) && !self.spec_tokens().contains(
                TokenModel::Term(s@),
            ) ==> r is None,
    {
        let nt = Token::NonTerminal(NonTerminal::from(s));
        match find_token(&self.tokens, &nt) {
            Some(i) => {
                proof {
                    assert(self.spec_tokens()[i as int] == nt@);
                }
                return Some(nt);
            },
            None => {},
        }
        let t = Token::Terminal(Terminal::from(s));
        match find_token(&self.tokens, &t) {
            Some(i) => {
                proof {
                    assert(self.spec_tokens()[i as int] == t@);
                }
                Some(t)
            },
            None => {
                proof {
                    assert(!self.spec_tokens().contains(TokenModel::Term(s@)));
                    assert(!self.spec_tokens().contains(TokenModel::NonTerm(s@)));
                }
                None
            },
        }
    }

    /// A word read in this grammar's terms: the non-terminal of that name when there is one,
    /// otherwise a terminal.
    pub open spec fn read_word(&self, w: Seq<char>) -> TokenModel {
        if self.spec_tokens().contains(TokenModel::NonTerm(w)) {
            TokenModel::NonTerm(w)
        } else {
            TokenModel::Term(w)
        }
    }

    /// The words of a tail text, each read in this grammar's terms.
    pub open spec fn read_tail(&self, t: Seq<char>) -> Seq<TokenModel> {
        words_of(t).map_values(|w: Seq<char>| self.read_word(w))
    }

    /// The grammar has a terminal named `h` and no non-terminal of that name.
    pub open spec fn names_terminal_only(&self, h: Seq<char>) -> bool {
        !self.spec_tokens().contains(TokenModel::NonTerm(h)) && self.spec_tokens().contains(
            TokenModel::Term(h),
        )
    }

    /// Reads one production in this grammar's terms: the trimmed text before the first `->`
    /// heads it, and each word after it is a non-terminal when the grammar has one of that
    /// name, a terminal otherwise.
    ///
    /// Fails with `NoArrow` when the line holds no `->`, and with `TokenTypeMisMatch` when
    /// the head names a terminal of the grammar (and no non-terminal).
    pub fn parse_production(&self, line: &str) -> (r: Result<Production, Error>)
        ensures
            !has_arrow(line@) ==> r matches Err(
                Error::ParseProductionError { line: 0, cause: ParseProductionError::NoArrow },
            ),
            has_arrow(line@) && self.names_terminal_only(head_text(line@)) ==> (r matches Err(
                Error::ParseProductionError {
                    line: 0,
                    cause: ParseProductionError::TokenTypeMisMatch(name),
                },
            ) && name@ == head_text(line@)),
            has_arrow(line@) && !self.names_terminal_only(head_text(line@)) ==> (r matches Ok(p)
                && p@.head == head_text(line@) && p@.tail == self.read_tail(tail_text(line@)) && forall|j: int|
                0 <= j < p@.tail.len() ==> match #[trigger] p@.tail[j] {
                    TokenModel::NonTerm(x) => self.spec_tokens().contains(TokenModel::NonTerm(x)),
                    TokenModel::Term(x) => !self.spec_tokens().contains(TokenModel::NonTerm(x)),
                }),
    {
        let cs = chars_of(line);
        let n = cs.len();
        let arrow = find_arrow(&cs, 0, n);
        proof {
            assert(cs@.subrange(0, n as int) =~= line@);
        }
        let p = match arrow {
            None => {
                return Err(Error::parse_production_error(0, ParseProductionError::NoArrow));
            },
            Some(p) => p,
        };
        proof {
            crate::grammar::lemma_first_arrow(line@, p as int);
            assert(line@.subrange(0, p as int) =~= cs@.subrange(0, p as int));
        }
        let (ha, hb) = trim_range(&cs, 0, p);
        let head = substring(line, ha, hb);
        let head_tok = self.get_token(head.as_str());
        if let Some(Token::Terminal(_)) = head_tok {
            return Err(
                Error::parse_production_error(0, ParseProductionError::TokenTypeMisMatch(head)),
            );
        }
        let ws = words(&cs, p + 2, n);
        let ghost tt = cs@.subrange(p + 2, n as int);
        proof {
            assert(tt =~= tail_text(line@));
            assert(toks(Seq::<Token>::empty()) =~= self.read_tail(tt).subrange(0, 0));
        }
        let mut tail: Vec<Token> = Vec::new();
        let mut w: usize = 0;
        while w < ws.len()
            invariant
                cs@ == line@,
                n == cs@.len(),
                p + 2 <= n,
                forall|z: int| 0 <= z < ws@.len() ==> p + 2 <= (#[trigger] ws@[z]).0 < ws@[z].1 <= n,
                w <= ws@.len(),
                tt == cs@.subrange(p + 2, n as int),
                ranges_text(cs@, ws@) == words_of(tt),
                toks(tail@) == self.read_tail(tt).subrange(0, w as int),
                forall|j: int| 0 <= j < tail@.len() ==> match (#[trigger] tail@[j])@ {
                    TokenModel::NonTerm(x) => self.spec_tokens().contains(TokenModel::NonTerm(x)),
                    TokenModel::Term(x) => !self.spec_tokens().contains(TokenModel::NonTerm(x)),
                },
            decreases ws@.len() - w,
        {
            let (u, v) = ws[w];
            let word = substring(line, u, v);
            let ghost t0 = tail@;
            proof {
                assert(word@ == words_of(tt)[w as int]);
            }
            let nt = Token::NonTerminal(NonTerminal::from(word.as_str()));
            match find_token(&self.tokens, &nt) {
                Some(i) => {
                    proof {
                        assert(self.spec_tokens()[i as int] == nt@);
                    }
                    tail.push(nt);
                },
                None => {
                    tail.push(Token::Terminal(Terminal::from(word.as_str())));
                },
            }
            proof {
                assert(self.read_tail(tt).len() == words_of(tt).len());
                assert(ranges_text(cs@, ws@).len() == ws@.len());
                assert(toks(t0).len() == t0.len());
                assert(t0.len() == w);
                assert(tail@[w as int]@ == self.read_word(word@));
                assert forall|j: int| 0 <= j < w + 1 implies toks(tail@)[j] == self.read_tail(tt).subrange(0, w + 1)[j] by {
                    if j < w {
                        assert(tail@[j] == t0[j]);
                        assert(toks(t0)[j] == self.read_tail(tt).subrange(0, w as int)[j]);
                    }
                }
                assert(toks(tail@) =~= self.read_tail(tt).subrange(0, w + 1));
            }
            w = w + 1;
        }
        proof {
            assert(self.read_tail(tt).len() == words_of(tt).len());
            assert(ranges_text(cs@, ws@).len() == ws@.len());
            assert(self.read_tail(tt).subrange(0, w as int) =~= self.read_tail(tt));
        }
        let prod = Production::new(NonTerminal::from_string(head), tail);
        proof {
            assert forall|j: int| 0 <= j < prod@.tail.len() implies match #[trigger] prod@.tail[j] {
                TokenModel::NonTerm(x) => self.spec_tokens().contains(TokenModel::NonTerm(x)),
                TokenModel::Term(x) => !self.spec_tokens().contains(TokenModel::NonTerm(x)),
            } by {
                assert(prod@.tail[j] == tail@[j]@);
            }
        }
        Ok(prod)
    }
}

/// The name of a token.
pub open spec fn tok_name(x: TokenModel) -> Seq<char> {
    match x {
        TokenModel::Term(n) => n,
        TokenModel::NonTerm(n) => n,
    }
}

/// The tokens of `seq` before `k` are tokens of `g`, and the one at `k` (if any) is not.
pub open spec fn known_upto(g: Grammar, seq: Seq<Token>, k: int) -> bool {
    &&& 0 <= k <= seq.len()
    &&& forall|j: int| 0 <= j < k ==> g.spec_tokens().contains((#[trigger] seq[j])@)
    &&& k < seq.len() ==> !g.spec_tokens().contains(seq[k]@)
}

/// FIRST of the known part of `seq` (coded as `w`, ending at `k`), one flag per terminal
/// code: a terminal when it can begin a string derived from that part, ε when the whole of
/// `seq` is known and derives the empty string.
pub open spec fn first_flags(g: Grammar, seq: Seq<Token>, k: int, w: Seq<usize>) -> Seq<bool> {
    Seq::new(
        g.spec_nt(),
        |t: int|
            if t == g.eps_id() {
                k == seq.len() && crate::cfg::prefix_nullable(g.spec_rules(), g.spec_nt(), w, k)
            } else {
                in_first_seq(g.spec_rules(), g.spec_nt(), w, t as nat)
            },
    )
}

/// `v` is the FIRST set of `seq`: the terminals of the flags in terminal order, and then the
/// terminal that the grammar lacks at `k`, when the known part before it derives ε.
pub open spec fn first_result(g: Grammar, seq: Seq<Token>, k: int, w: Seq<usize>, v: Seq<Terminal>) -> bool {
    &&& known_upto(g, seq, k)
    &&& codes_for(g, toks(seq).subrange(0, k), w)
    &&& crate::item::term_views(v) == crate::item::listed_terms(g, first_flags(g, seq, k, w), g.spec_nt()) + if k
        < seq.len() && crate::cfg::prefix_nullable(g.spec_rules(), g.spec_nt(), w, k) {
        seq![tok_name(seq[k]@)]
    } else {
        Seq::empty()
    }
}

/// `v` is exactly the FIRST set of `seq` in `g`, as `first_result` describes it.
pub open spec fn is_first_set(g: Grammar, seq: Seq<Token>, v: Seq<Terminal>) -> bool {
    exists|k: int, w: Seq<usize>| #[trigger] first_result(g, seq, k, w, v)
}

/// `x` is a token of `g` that derives the empty string.
pub open spec fn known_nullable(g: Grammar, x: TokenModel) -> bool {
    exists|c: int| 0 <= c < g.spec_ns() && g.spec_tokens()[c] == x && crate::cfg::nullable(g.spec_rules(), g.spec_nt(), c as nat)
}

/// Reading `seq` for its FIRST set reaches position `j`, a non-terminal that `g` lacks: every
/// token before it is a token of `g` that derives the empty string.
pub open spec fn reaches_unknown(g: Grammar, seq: Seq<Token>, j: int) -> bool {
    &&& 0 <= j < seq.len()
    &&& seq[j]@ is NonTerm
    &&& !g.spec_tokens().contains(seq[j]@)
    &&& forall|k: int| 0 <= k < j ==> #[trigger] known_nullable(g, seq[k]@)
}

/// `w` holds the code of each token of `seq`.
pub open spec fn codes_for(g: Grammar, seq: Seq<TokenModel>, w: Seq<usize>) -> bool {
    &&& w.len() == seq.len()
    &&& forall|j: int| 0 <= j < seq.len() ==> (#[trigger] w[j]) < g.spec_ns() && g.spec_tokens()[w[j] as int] == seq[j]
}

impl Grammar {
    /// FIRST of a token sequence: every terminal that can begin a string derived from it,
    /// and ε when all of it derives the empty string (so ε alone for an empty sequence).
    ///
    /// Fails with `NonTerminalNotFound` naming the first non-terminal that the grammar lacks,
    /// when every token before it derives the empty string. A terminal the grammar lacks
    /// contributes itself, after the terminals of what comes before it, and reading stops
    /// there.
    #[verifier::rlimit(50)]
    pub fn first_set(&self, seq: &Vec<Token>) -> (r: Result<Vec<Terminal>, Error>)
        requires
            self.wf(),
        ensures
            r is Err <==> exists|j: int| #[trigger] reaches_unknown(*self, seq@, j),
            r is Err ==> (r matches Err(Error::NonTerminalNotFound(n)) && exists|j: int|
                #[trigger] reaches_unknown(*self, seq@, j) && seq@[j]@ == TokenModel::NonTerm(n@)),
            (forall|j: int| 0 <= j < seq@.len() ==> self.spec_tokens().contains((#[trigger] seq@[j])@)) ==> (r matches Ok(v)
                && exists|w: Seq<usize>| codes_for(*self, toks(seq@), w) && forall|t: int|
                0 <= t < self.spec_nt() ==> (crate::item::listed(*self, v@, t) <==> in_first_seq(
                    self.spec_rules(),
                    self.spec_nt(),
                    w,
                    t as nat,
                ))),
            r matches Ok(v) ==> is_first_set(*self, seq@, v@),
    {
        // the code of every token, or none for a token the grammar lacks
        let mut codes: Vec<Option<usize>> = Vec::new();
        let mut j: usize = 0;
        let ghost mut kf: int = -1;
        while j < seq.len()
            invariant
                self.wf(),
                j <= seq@.len(),
                codes@.len() == j,
                kf == -1 ==> forall|k: int| 0 <= k < j ==> (#[trigger] codes@[k]) is Some,
                kf != -1 ==> 0 <= kf < j && codes@[kf] is None && forall|k: int| 0 <= k < kf ==> (#[trigger] codes@[k]) is Some,
                forall|k: int| 0 <= k < j ==> match #[trigger] codes@[k] {
                    Some(c) => c < self.spec_ns() && self.spec_tokens()[c as int] == seq@[k]@,
                    None => !self.spec_tokens().contains(seq@[k]@),
                },
            decreases seq@.len() - j,
        {
            let c = self.token_id(&seq[j]);
            proof {
                if c is None {
                    assert(!self.spec_tokens().contains(seq@[j as int]@));
                }
            }
            let ghost c0 = codes@;
            codes.push(c);
            proof {
                if kf == -1 && c is None {
                    kf = j as int;
                }
                assert forall|k: int| 0 <= k < j implies codes@[k] == c0[k] by {}
            }
            j = j + 1;
        }
        let ghost kk: int = if kf == -1 { seq@.len() as int } else { kf };
        let nt = self.n_terms();
        let eps = nt - 2;
        let mut acc = crate::item::empty_flags(nt);
        let mut extra: Vec<Terminal> = Vec::new();
        let mut all_null = true;
        let mut stopped = false;
        let mut i: usize = 0;
        let ghost w: Seq<usize> = Seq::new(codes@.len(), |k: int| match codes@[k] {
            Some(c) => c,
            None => 0usize,
        });
        while i < codes.len() && all_null && !stopped
            invariant
                self.wf(),
                nt == self.spec_nt(),
                eps == nt - 2,
                codes@.len() == seq@.len(),
                w.len() == codes@.len(),
                forall|k: int| 0 <= k < codes@.len() ==> match #[trigger] codes@[k] {
                    Some(c) => c < self.spec_ns() && self.spec_tokens()[c as int] == seq@[k]@ && w[k] == c,
                    None => !self.spec_tokens().contains(seq@[k]@),
                },
                i <= codes@.len(),
                acc@.len() == nt,
                !acc@[eps as int],
                stopped ==> i < codes@.len() && codes@[i as int] is None && seq@[i as int]@ is Term,
                stopped ==> extra@.len() == 1 && seq@[i as int]@ == TokenModel::Term(extra@[0]@),
                stopped ==> all_null,
                !stopped ==> extra@.len() == 0,
                0 <= kk <= codes@.len(),
                i <= kk,
                forall|k: int| 0 <= k < kk ==> (#[trigger] codes@[k]) is Some,
                kk < codes@.len() ==> codes@[kk] is None,
                forall|k: int| 0 <= k < i ==> (#[trigger] codes@[k]) is Some,
                forall|u: int| 0 <= u < nt ==> (#[trigger] acc@[u] <==> (u != eps && crate::item::first_upto(*self, w, i as int, u as nat))),
                all_null ==> crate::cfg::prefix_nullable(self.spec_rules(), nt as nat, w, i as int),
                !all_null ==> i > 0 && !crate::cfg::nullable(self.spec_rules(), nt as nat, w[i - 1] as nat),
            decreases codes@.len() - i, if stopped { 0int } else { 1int },
        {
            match codes[i] {
                None => {
                    match &seq[i] {
                        Token::Terminal(t) => {
                            extra.push(t.clone());
                            proof {
                                assert(i as int == kk);
                            }
                        },
                        Token::NonTerminal(n) => {
                            let name = n.as_str().to_owned();
                            proof {
                                assert forall|k: int| 0 <= k < i implies #[trigger] known_nullable(*self, seq@[k]@) by {
                                    assert(codes@[k] is Some);
                                    assert(crate::cfg::nullable(self.spec_rules(), nt as nat, w[k] as nat));
                                }
                                assert(reaches_unknown(*self, seq@, i as int));
                                assert(seq@[i as int]@ == TokenModel::NonTerm(name@));
                            }
                            return Err(Error::NonTerminalNotFound(name));
                        },
                    }
                    stopped = true;
                },
                Some(sym) => {
                    proof {
                        if i as int == kk {
                            assert(codes@[kk] is None);
                        }
                    }
                    let first = &self.first;
                    let mut t: usize = 0;
                    while t < nt
                        invariant
                            self.wf(),
                            nt == self.spec_nt(),
                            eps == nt - 2,
                            *first == self.first,
                            sym < self.spec_ns(),
                            0 <= i < w.len(),
                            w[i as int] == sym,
                            t <= nt,
                            acc@.len() == nt,
                            !acc@[eps as int],
                            all_null ==> crate::cfg::prefix_nullable(self.spec_rules(), nt as nat, w, i as int),
                            all_null,
                            forall|u: int| t <= u < nt ==> (#[trigger] acc@[u] <==> (u != eps && crate::item::first_upto(*self, w, i as int, u as nat))),
                            forall|u: int| 0 <= u < t ==> (#[trigger] acc@[u] <==> (u != eps && crate::item::first_upto(*self, w, i + 1, u as nat))),
                        decreases nt - t,
                    {
                        proof {
                            crate::item::lemma_first_upto_step(*self, w, i as int, t as nat);
                        }
                        if t != eps && crate::cfg::cell(first, sym, t) {
                            acc.set(t, true);
                        }
                        t = t + 1;
                    }
                    all_null = crate::cfg::cell(&self.first, sym, eps);
                    proof {
                        if all_null {
                            assert(in_first(self.spec_rules(), nt as nat, sym as nat, eps as nat));
                            assert(crate::cfg::prefix_nullable(self.spec_rules(), nt as nat, w, i + 1));
                        }
                    }
                    i = i + 1;
                },
            }
        }
        let ghost acc_before = acc@;
        if all_null && !stopped {
            acc.set(eps, true);
        }
        let mut v = crate::item::terminals_of(self, &acc);
        let ghost v0 = v@;
        let ghost extra_view = extra@;
        v.append(&mut extra);
        proof {
            assert forall|j: int| !#[trigger] reaches_unknown(*self, seq@, j) by {
                if reaches_unknown(*self, seq@, j) {
                    if stopped {
                        if i < j {
                            assert(known_nullable(*self, seq@[i as int]@));
                        } else if i > j {
                            assert(codes@[j] is Some);
                        }
                    } else if !all_null {
                        let k = i - 1;
                        if k < j {
                            assert(known_nullable(*self, seq@[k]@));
                            let c2 = choose|c2: int| 0 <= c2 < self.spec_ns() && self.spec_tokens()[c2] == seq@[k]@ && crate::cfg::nullable(self.spec_rules(), self.spec_nt(), c2 as nat);
                            assert(codes@[k] is Some);
                            assert(self.spec_tokens()[w[k] as int] == seq@[k]@);
                            assert(c2 == w[k]);
                        } else {
                            assert(codes@[j] is Some);
                        }
                    } else {
                        assert(codes@[j] is Some);
                    }
                }
            }
            if forall|j: int| 0 <= j < seq@.len() ==> self.spec_tokens().contains((#[trigger] seq@[j])@) {
                assert(!stopped) by {
                    if stopped {
                        assert(self.spec_tokens().contains(seq@[i as int]@));
                    }
                }
                assert(v@ == v0);
                assert(codes_for(*self, toks(seq@), w)) by {
                    assert forall|j: int| 0 <= j < seq@.len() implies (#[trigger] w[j]) < self.spec_ns() && self.spec_tokens()[w[j] as int] == toks(seq@)[j] by {
                        assert(self.spec_tokens().contains(seq@[j]@));
                        assert(codes@[j] is Some);
                    }
                }
                let k = i;
                assert forall|t: int| 0 <= t < nt implies (crate::item::listed(*self, v@, t) <==> acc@[t]) by {
                    if crate::item::listed(*self, v@, t) {
                        let j = choose|j: int| 0 <= j < v@.len() && #[trigger] crate::item::term_named(*self, t, v@[j]);
                        assert(crate::item::named_upto(*self, acc@, nt as int, v@[j]));
                        let u = choose|u: int| 0 <= u < nt && acc@[u] && #[trigger] crate::item::term_named(*self, u, v@[j]);
                        assert(self.spec_tokens()[u] == self.spec_tokens()[t]);
                    }
                }
                assert forall|t: int| 0 <= t < nt implies (acc@[t] <==> in_first_seq(self.spec_rules(), nt as nat, w, t as nat)) by {
                    if t != eps {
                        assert(acc@[t] == acc_before[t]);
                        if in_first_seq(self.spec_rules(), nt as nat, w, t as nat) {
                            let j = choose|j: int| 0 <= j < w.len() && crate::cfg::prefix_nullable(self.spec_rules(), nt as nat, w, j) && #[trigger] in_first(self.spec_rules(), nt as nat, w[j] as nat, t as nat);
                            if j >= k {
                                assert(!all_null);
                                assert(!crate::cfg::nullable(self.spec_rules(), nt as nat, w[k - 1] as nat));
                                assert(w[k - 1] == w[k - 1]);
                                assert(false);
                            }
                            assert(crate::item::first_upto(*self, w, k as int, t as nat));
                        }
                        if crate::item::first_upto(*self, w, k as int, t as nat) {
                            let j = choose|j: int| 0 <= j < k && crate::cfg::prefix_nullable(self.spec_rules(), nt as nat, w, j) && #[trigger] in_first(self.spec_rules(), nt as nat, w[j] as nat, t as nat);
                        }
                    } else {
                        if !all_null {
                            assert(!crate::cfg::prefix_nullable(self.spec_rules(), nt as nat, w, w.len() as int));
                        }
                    }
                }
                assert forall|t: int| 0 <= t < nt implies (crate::item::listed(*self, v@, t) <==> in_first_seq(self.spec_rules(), nt as nat, w, t as nat)) by {
                    assert(crate::item::listed(*self, v@, t) <==> acc@[t]);
                    assert(acc@[t] <==> in_first_seq(self.spec_rules(), nt as nat, w, t as nat));
                }
            }
        }
        proof {
            let len = seq@.len() as int;
            let wk = w.subrange(0, kk);
            let rules = self.spec_rules();
            assert(codes_for(*self, toks(seq@).subrange(0, kk), wk)) by {
                assert forall|j: int| 0 <= j < kk implies (#[trigger] wk[j]) < self.spec_ns() && self.spec_tokens()[wk[j] as int] == toks(seq@).subrange(0, kk)[j] by {
                    assert(codes@[j] is Some);
                }
            }
            assert(known_upto(*self, seq@, kk)) by {
                assert forall|j: int| 0 <= j < kk implies self.spec_tokens().contains((#[trigger] seq@[j])@) by {
                    assert(codes@[j] is Some);
                    let c = codes@[j]->Some_0;
                    assert(self.spec_tokens()[c as int] == seq@[j]@);
                }
            }
            assert forall|j: int| 0 <= j <= i implies (crate::cfg::prefix_nullable(rules, nt as nat, w, j) <==> #[trigger] crate::cfg::prefix_nullable(rules, nt as nat, wk, j)) by {
                assert forall|m: int| 0 <= m < j implies wk[m] == w[m] by {}
            }
            let fl = first_flags(*self, seq@, kk, wk);
            assert forall|t: int| 0 <= t < nt implies acc@[t] == fl[t] by {
                if t != eps {
                    assert(acc@[t] == acc_before[t]);
                    if crate::item::first_upto(*self, w, i as int, t as nat) {
                        let j = choose|j: int| 0 <= j < i && crate::cfg::prefix_nullable(rules, nt as nat, w, j) && #[trigger] in_first(rules, nt as nat, w[j] as nat, t as nat);
                        assert(wk[j] == w[j]);
                        assert(crate::cfg::prefix_nullable(rules, nt as nat, wk, j));
                    }
                    if in_first_seq(rules, nt as nat, wk, t as nat) {
                        let j = choose|j: int| 0 <= j < wk.len() && crate::cfg::prefix_nullable(rules, nt as nat, wk, j) && #[trigger] in_first(rules, nt as nat, wk[j] as nat, t as nat);
                        if j >= i {
                            if stopped {
                                assert(i as int == kk);
                            } else if !all_null {
                                assert(wk[i - 1] == w[i - 1]);
                                assert(crate::cfg::nullable(rules, nt as nat, wk[i - 1] as nat));
                            } else {
                                assert(i == codes@.len());
                            }
                        }
                        assert(wk[j] == w[j]);
                        assert(crate::cfg::prefix_nullable(rules, nt as nat, w, j));
                        assert(crate::item::first_upto(*self, w, i as int, t as nat));
                    }
                } else {
                    if all_null && !stopped {
                        assert(i == codes@.len());
                        assert(kk == len);
                    } else if !all_null {
                        assert(wk[i - 1] == w[i - 1]);
                        assert(!crate::cfg::prefix_nullable(rules, nt as nat, wk, kk));
                    }
                }
            }
            assert(acc@ =~= fl);
            assert(crate::item::term_views(v@) =~= crate::item::term_views(v0) + crate::item::term_views(extra_view));
            if stopped {
                if (i as int) < kk {
                    assert(codes@[i as int] is Some);
                }
                assert(i as int == kk);
                assert(crate::cfg::prefix_nullable(rules, nt as nat, w, i as int));
                assert(crate::cfg::prefix_nullable(rules, nt as nat, wk, i as int));
            } else if kk < len {
                if all_null {
                    assert(i == codes@.len());
                }
                assert(!crate::cfg::prefix_nullable(rules, nt as nat, wk, kk)) by {
                    assert(wk[i - 1] == w[i - 1]);
                }
            }
            if stopped {
                assert(crate::item::term_views(extra_view) =~= seq![tok_name(seq@[kk]@)]);
            } else {
                assert(crate::item::term_views(extra_view) =~= Seq::<Seq<char>>::empty());
            }
            assert(crate::item::term_views(v0) == crate::item::listed_terms(*self, fl, nt as nat));
            assert(known_upto(*self, seq@, kk));
            assert(codes_for(*self, toks(seq@).subrange(0, kk), wk));
            assert(first_result(*self, seq@, kk, wk, v@));
            assert(is_first_set(*self, seq@, v@));
        }
        Ok(v)
    }
}

/// Ordinary terminals come before ε, ε before end of input, and terminals before
/// non-terminals.
proof fn lemma_special_order()
    ensures
        token_lt(eps_tok(), eof_tok()),
        forall|x: Seq<char>| x != eps_ident() && x != eof_ident() ==> #[trigger] token_lt(TokenModel::Term(x), eps_tok()) && token_lt(TokenModel::Term(x), eof_tok()),
{
    crate::token::lemma_specials_last(eps_ident());
    assert forall|x: Seq<char>| x != eps_ident() && x != eof_ident() implies #[trigger] token_lt(TokenModel::Term(x), eps_tok()) && token_lt(TokenModel::Term(x), eof_tok()) by {
        crate::token::lemma_specials_last(x);
    }
}

} // verus!
