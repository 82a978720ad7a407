//! Grammar symbols: terminals, non-terminals and the tagged union of both.
use vstd::prelude::*;
use vstd::string::*;

verus! {

/// Identifier of the empty string ε.
pub open spec fn eps_ident() -> Seq<char> {
    seq!['E']
}

/// Identifier of the end-of-input marker.
pub open spec fn eof_ident() -> Seq<char> {
    seq!['e', 'o', 'f']
}

/// The UTF-8 bytes of an identifier: ordering and length go by these.
pub open spec fn ident_bytes(s: Seq<char>) -> Seq<u8> {
    vstd::utf8::encode_utf8(s)
}

/// `a` is a strict prefix of `b`, or the two differ first at `i` with `a[i] < b[i]`.
pub open spec fn lex_lt(a: Seq<u8>, b: Seq<u8>) -> bool {
    exists|i: int|
        #![trigger a.subrange(0, i)]
        0 <= i <= a.len() && i <= b.len() && a.subrange(0, i) == b.subrange(0, i) && (
        (i == a.len() && i < b.len()) || (i < a.len() && i < b.len() && a[i] < b[i]))
}

/// Order of two ordinary terminal identifiers: shorter first, equal lengths byte-wise.
pub open spec fn ident_lt(a: Seq<u8>, b: Seq<u8>) -> bool {
    a.len() < b.len() || (a.len() == b.len() && lex_lt(a, b))
}

/// Rank of the special terminals: 0 for ordinary ones, then ε, then EOF.
pub open spec fn special_rank(t: Seq<char>) -> int {
    if t == eof_ident() {
        2
    } else if t == eps_ident() {
        1
    } else {
        0
    }
}

/// The total order on terminals: ordinary ones first, then ε, then EOF.
pub open spec fn term_lt(a: Seq<char>, b: Seq<char>) -> bool {
    if special_rank(a) != special_rank(b) {
        special_rank(a) < special_rank(b)
    } else {
        special_rank(a) == 0 && ident_lt(ident_bytes(a), ident_bytes(b))
    }
}

/// The order on non-terminals: byte-wise lexicographic.
pub open spec fn non_term_lt(a: Seq<char>, b: Seq<char>) -> bool {
    lex_lt(ident_bytes(a), ident_bytes(b))
}

/// A grammar symbol seen as data: its kind and its identifier.
pub enum TokenModel {
    Term(Seq<char>),
    NonTerm(Seq<char>),
}

/// The order on tokens: terminals before non-terminals, then each kind by its own order.
pub open spec fn token_lt(a: TokenModel, b: TokenModel) -> bool {
    match (a, b) {
        (TokenModel::Term(x), TokenModel::Term(y)) => term_lt(x, y),
        (TokenModel::Term(_), TokenModel::NonTerm(_)) => true,
        (TokenModel::NonTerm(_), TokenModel::Term(_)) => false,
        (TokenModel::NonTerm(x), TokenModel::NonTerm(y)) => non_term_lt(x, y),
    }
}

/// Compares two byte strings lexicographically: -1, 0 or 1.
fn lex_cmp(a: &[u8], b: &[u8]) -> (r: i8)
    ensures
        r == 0 <==> a@ == b@,
        r < 0 <==> lex_lt(a@, b@),
        r > 0 <==> lex_lt(b@, a@),
        -1 <= r <= 1,
{
    let mut i: usize = 0;
    while i < a.len() && i < b.len()
        invariant
            i <= a.len(),
            i <= b.len(),
            a@.subrange(0, i as int) == b@.subrange(0, i as int),
        decreases a.len() - i,
    {
        if a[i] != b[i] {
            assert(a@.subrange(0, i as int) == b@.subrange(0, i as int));
            if a[i] < b[i] {
                proof {
                    lemma_lex_not_both(a@, b@, i as int);
                }
                return -1;
            } else {
                proof {
                    lemma_lex_not_both(b@, a@, i as int);
                }
                return 1;
            }
        }
        assert(a@.subrange(0, i + 1) == a@.subrange(0, i as int).push(a@[i as int]));
        assert(b@.subrange(0, i + 1) == b@.subrange(0, i as int).push(b@[i as int]));
        i = i + 1;
    }
    if a.len() < b.len() {
        assert(a@.subrange(0, i as int) == a@);
        proof {
            lemma_lex_prefix(a@, b@);
        }
        -1
    } else if b.len() < a.len() {
        assert(b@.subrange(0, i as int) == b@);
        proof {
            lemma_lex_prefix(b@, a@);
        }
        1
    } else {
        assert(a@ == a@.subrange(0, i as int));
        assert(b@ == b@.subrange(0, i as int));
        proof {
            lemma_lex_irreflexive(a@);
        }
        0
    }
}

proof fn lemma_lex_irreflexive(a: Seq<u8>)
    ensures
        !lex_lt(a, a),
{
}

/// When `a` and `b` first differ at `i` with `a[i] < b[i]`, `a` comes first and `b` does not.
proof fn lemma_lex_not_both(a: Seq<u8>, b: Seq<u8>, i: int)
    requires
        0 <= i < a.len(),
        i < b.len(),
        a.subrange(0, i) == b.subrange(0, i),
        a[i] < b[i],
    ensures
        lex_lt(a, b),
        !lex_lt(b, a),
        a != b,
{
    assert(a[i] != b[i]);
    if lex_lt(b, a) {
        let j = choose|j: int|
            #![trigger b.subrange(0, j)]
            0 <= j <= b.len() && j <= a.len() && b.subrange(0, j) == a.subrange(0, j) && (
            (j == b.len() && j < a.len()) || (j < b.len() && j < a.len() && b[j] < a[j]));
        if j < i {
            assert(a.subrange(0, i)[j] == a[j]);
            assert(b.subrange(0, i)[j] == b[j]);
            assert(a[j] == b[j]);
            assert(false);
        } else if j == i {
            assert(b[i] < a[i]);
            assert(false);
        } else {
            assert(b.subrange(0, j)[i] == b[i]);
            assert(a.subrange(0, j)[i] == a[i]);
            assert(a[i] == b[i]);
            assert(false);
        }
    }
}

/// A strict prefix comes first, and the longer sequence does not.
proof fn lemma_lex_prefix(a: Seq<u8>, b: Seq<u8>)
    requires
        a.len() < b.len(),
        b.subrange(0, a.len() as int) == a,
    ensures
        lex_lt(a, b),
        !lex_lt(b, a),
{
    assert(a.subrange(0, a.len() as int) == a);
    if lex_lt(b, a) {
        let j = choose|j: int|
            #![trigger b.subrange(0, j)]
            0 <= j <= b.len() && j <= a.len() && b.subrange(0, j) == a.subrange(0, j) && (
            (j == b.len() && j < a.len()) || (j < b.len() && j < a.len() && b[j] < a[j]));
        assert(b.subrange(0, a.len() as int)[j] == b[j]);
    }
}

/// An ordinary terminal, or one of the two special ones: ε (`E`) and end of input (`eof`).
#[derive(Debug)]
pub struct Terminal {
    ident: String,
}

/// A non-terminal: a symbol that heads some production.
#[derive(Debug)]
pub struct NonTerminal {
    ident: String,
}

/// A grammar symbol.
#[derive(Debug)]
pub enum Token {
    Terminal(Terminal),
    NonTerminal(NonTerminal),
}

impl View for Terminal {
    type V = Seq<char>;

    closed spec fn view(&self) -> Seq<char> {
        self.ident@
    }
}

impl View for NonTerminal {
    type V = Seq<char>;

    closed spec fn view(&self) -> Seq<char> {
        self.ident@
    }
}

impl View for Token {
    type V = TokenModel;

    open spec fn view(&self) -> TokenModel {
        match self {
            Token::Terminal(t) => TokenModel::Term(t@),
            Token::NonTerminal(nt) => TokenModel::NonTerm(nt@),
        }
    }
}

impl Clone for Terminal {
    fn clone(&self) -> (r: Self)
        ensures
            r@ == self@,
    {
        Terminal { ident: self.ident.clone() }
    }
}

impl Clone for NonTerminal {
    fn clone(&self) -> (r: Self)
        ensures
            r@ == self@,
    {
        NonTerminal { ident: self.ident.clone() }
    }
}

impl Clone for Token {
    fn clone(&self) -> (r: Self)
        ensures
            r@ == self@,
    {
        match self {
            Token::Terminal(t) => Token::Terminal(t.clone()),
            Token::NonTerminal(nt) => Token::NonTerminal(nt.clone()),
        }
    }
}

impl PartialEq for Terminal {
    fn eq(&self, other: &Terminal) -> (r: bool) {
        self.ident == other.ident
    }
}

impl vstd::std_specs::cmp::PartialEqSpecImpl for Terminal {
    open spec fn obeys_eq_spec() -> bool {
        true
    }

    open spec fn eq_spec(&self, other: &Terminal) -> bool {
        self@ == other@
    }
}

impl Eq for Terminal {

}

impl PartialEq for NonTerminal {
    fn eq(&self, other: &NonTerminal) -> (r: bool) {
        self.ident == other.ident
    }
}

impl vstd::std_specs::cmp::PartialEqSpecImpl for NonTerminal {
    open spec fn obeys_eq_spec() -> bool {
        true
    }

    open spec fn eq_spec(&self, other: &NonTerminal) -> bool {
        self@ == other@
    }
}

impl Eq for NonTerminal {

}

impl PartialEq for Token {
    fn eq(&self, other: &Token) -> (r: bool) {
        match (self, other) {
            (Token::Terminal(a), Token::Terminal(b)) => a.ident == b.ident,
            (Token::NonTerminal(a), Token::NonTerminal(b)) => a.ident == b.ident,
            _ => false,
        }
    }
}

impl vstd::std_specs::cmp::PartialEqSpecImpl for Token {
    open spec fn obeys_eq_spec() -> bool {
        true
    }

    open spec fn eq_spec(&self, other: &Token) -> bool {
        self@ == other@
    }
}

impl Eq for Token {

}

impl Terminal {
    /// The terminal named `ident`.
    pub fn from(ident: &str) -> (r: Terminal)
        ensures
            r@ == ident@,
    {
        Terminal { ident: ident.to_owned() }
    }

    /// The terminal that stands for the empty string.
    pub fn epsilon() -> (r: Terminal)
        ensures
            r@ == eps_ident(),
    {
        proof {
            reveal_strlit("E");
        }
        Terminal::from("E")
    }

    /// The terminal that marks the end of the input.
    pub fn eof() -> (r: Terminal)
        ensures
            r@ == eof_ident(),
    {
        proof {
            reveal_strlit("eof");
        }
        Terminal::from("eof")
    }

    pub fn as_str(&self) -> (r: &str)
        ensures
            r@ == self@,
    {
        self.ident.as_str()
    }

    /// Whether this is ε.
    pub fn is_epsilon(&self) -> (r: bool)
        ensures
            r == (self@ == eps_ident()),
    {
        let e = Terminal::epsilon();
        self.ident == e.ident
    }

    /// Whether this is the end-of-input marker.
    pub fn is_eof(&self) -> (r: bool)
        ensures
            r == (self@ == eof_ident()),
    {
        let e = Terminal::eof();
        self.ident == e.ident
    }

    fn rank(&self) -> (r: u8)
        ensures
            r as int == special_rank(self@),
    {
        if self.is_eof() {
            2
        } else if self.is_epsilon() {
            1
        } else {
            0
        }
    }

    /// Whether `self` comes strictly before `other` in the order on terminals.
    pub fn precedes(&self, other: &Terminal) -> (r: bool)
        ensures
            r == term_lt(self@, other@),
    {
        let ra = self.rank();
        let rb = other.rank();
        if ra != rb {
            ra < rb
        } else if ra != 0 {
            false
        } else {
            let a = self.ident.as_str().as_bytes();
            let b = other.ident.as_str().as_bytes();
            if a.len() != b.len() {
                a.len() < b.len()
            } else {
                lex_cmp(a, b) < 0
            }
        }
    }
}

impl NonTerminal {
    /// The non-terminal named `ident`.
    pub fn from(ident: &str) -> (r: NonTerminal)
        ensures
            r@ == ident@,
    {
        NonTerminal { ident: ident.to_owned() }
    }

    /// The non-terminal named by an owned string.
    pub fn from_string(ident: String) -> (r: NonTerminal)
        ensures
            r@ == ident@,
    {
        NonTerminal { ident }
    }

    pub fn as_str(&self) -> (r: &str)
        ensures
            r@ == self@,
    {
        self.ident.as_str()
    }

    /// Whether `self` comes strictly before `other` in the order on non-terminals.
    pub fn precedes(&self, other: &NonTerminal) -> (r: bool)
        ensures
            r == non_term_lt(self@, other@),
    {
        lex_cmp(self.ident.as_str().as_bytes(), other.ident.as_str().as_bytes()) < 0
    }
}

impl Token {
    pub fn as_str(&self) -> (r: &str)
        ensures
            r@ == (match self@ {
                TokenModel::Term(s) => s,
                TokenModel::NonTerm(s) => s,
            }),
    {
        match self {
            Token::Terminal(t) => t.as_str(),
            Token::NonTerminal(nt) => nt.as_str(),
        }
    }

    pub fn is_term(&self) -> (r: bool)
        ensures
            r == (self@ is Term),
    {
        matches!(self, Token::Terminal(_))
    }

    pub fn is_non_term(&self) -> (r: bool)
        ensures
            r == (self@ is NonTerm),
    {
        matches!(self, Token::NonTerminal(_))
    }

    pub fn as_term(&self) -> (r: Option<&Terminal>)
        ensures
            r matches Some(t) ==> self@ == TokenModel::Term(t@),
            r is None <==> self@ is NonTerm,
    {
        match self {
            Token::Terminal(t) => Some(t),
            Token::NonTerminal(_) => None,
        }
    }

    pub fn as_non_term(&self) -> (r: Option<&NonTerminal>)
        ensures
            r matches Some(nt) ==> self@ == TokenModel::NonTerm(nt@),
            r is None <==> self@ is Term,
    {
        match self {
            Token::Terminal(_) => None,
            Token::NonTerminal(nt) => Some(nt),
        }
    }

    /// Whether `self` comes strictly before `other` in the order on tokens.
    pub fn precedes(&self, other: &Token) -> (r: bool)
        ensures
            r == token_lt(self@, other@),
    {
        match (self, other) {
            (Token::Terminal(a), Token::Terminal(b)) => a.precedes(b),
            (Token::Terminal(_), Token::NonTerminal(_)) => true,
            (Token::NonTerminal(_), Token::Terminal(_)) => false,
            (Token::NonTerminal(a), Token::NonTerminal(b)) => a.precedes(b),
        }
    }
}

/// The ordering on terminals puts every ordinary terminal before ε, and ε before EOF.
pub proof fn lemma_specials_last(t: Seq<char>)
    ensures
        t != eps_ident() && t != eof_ident() ==> term_lt(t, eps_ident()) && term_lt(t, eof_ident()),
        term_lt(eps_ident(), eof_ident()),
        !term_lt(eof_ident(), t),
        t != eof_ident() ==> term_lt(t, eof_ident()),
{
    assert(eps_ident() != eof_ident()) by {
        assert(eps_ident().len() != eof_ident().len());
    }
}

/// The witness of `lex_lt(a, b)`: where `a` and `b` part.
spec fn lex_at(a: Seq<u8>, b: Seq<u8>, i: int) -> bool {
    0 <= i <= a.len() && i <= b.len() && a.subrange(0, i) == b.subrange(0, i) && (
    (i == a.len() && i < b.len()) || (i < a.len() && i < b.len() && a[i] < b[i]))
}

proof fn lemma_lex_witness(a: Seq<u8>, b: Seq<u8>) -> (i: int)
    requires
        lex_lt(a, b),
    ensures
        lex_at(a, b, i),
{
    choose|i: int|
        #![trigger a.subrange(0, i)]
        0 <= i <= a.len() && i <= b.len() && a.subrange(0, i) == b.subrange(0, i) && (
        (i == a.len() && i < b.len()) || (i < a.len() && i < b.len() && a[i] < b[i]))
}

/// The byte-wise order is transitive.
pub proof fn lemma_lex_trans(a: Seq<u8>, b: Seq<u8>, c: Seq<u8>)
    requires
        lex_lt(a, b),
        lex_lt(b, c),
    ensures
        lex_lt(a, c),
{
    let i = lemma_lex_witness(a, b);
    let j = lemma_lex_witness(b, c);
    let k = if i < j { i } else { j };
    assert forall|x: int| 0 <= x < k implies a[x] == c[x] by {
        assert(a.subrange(0, i)[x] == b.subrange(0, i)[x]);
        assert(b.subrange(0, j)[x] == c.subrange(0, j)[x]);
    }
    assert(a.subrange(0, k) =~= c.subrange(0, k));
    if i < j {
        assert(b.subrange(0, j)[i] == c.subrange(0, j)[i]);
    } else if j < i {
        assert(a.subrange(0, i)[j] == b.subrange(0, i)[j]);
    }
    assert(a.subrange(0, k) == c.subrange(0, k));
    assert(lex_at(a, c, k));
}

/// Two different byte strings are ordered one way or the other.
pub proof fn lemma_lex_total(a: Seq<u8>, b: Seq<u8>)
    requires
        a != b,
    ensures
        lex_lt(a, b) || lex_lt(b, a),
{
    let m = if a.len() < b.len() { a.len() as int } else { b.len() as int };
    if forall|x: int| 0 <= x < m ==> a[x] == b[x] {
        assert(a.subrange(0, m) =~= b.subrange(0, m));
        if a.len() == b.len() {
            assert(a =~= b);
        } else if a.len() < b.len() {
            assert(lex_at(a, b, m));
        } else {
            assert(lex_at(b, a, m));
        }
    } else {
        let x = choose|x: int| 0 <= x < m && a[x] != b[x];
        lemma_first_difference(a, b, x);
    }
}

proof fn lemma_first_difference(a: Seq<u8>, b: Seq<u8>, x: int)
    requires
        0 <= x < a.len(),
        x < b.len(),
        a[x] != b[x],
    ensures
        lex_lt(a, b) || lex_lt(b, a),
    decreases x,
{
    if exists|y: int| 0 <= y < x && a[y] != b[y] {
        let y = choose|y: int| 0 <= y < x && a[y] != b[y];
        lemma_first_difference(a, b, y);
    } else {
        assert(a.subrange(0, x) =~= b.subrange(0, x));
        if a[x] < b[x] {
            assert(lex_at(a, b, x));
        } else {
            assert(lex_at(b, a, x));
        }
    }
}

/// Different identifiers have different bytes.
pub proof fn lemma_bytes_injective(a: Seq<char>, b: Seq<char>)
    requires
        a != b,
    ensures
        ident_bytes(a) != ident_bytes(b),
{
    vstd::utf8::encode_utf8_decode_utf8(a);
    vstd::utf8::encode_utf8_decode_utf8(b);
}

/// The order on tokens is transitive.
pub proof fn lemma_token_trans(a: TokenModel, b: TokenModel, c: TokenModel)
    requires
        token_lt(a, b),
        token_lt(b, c),
    ensures
        token_lt(a, c),
{
    match (a, b, c) {
        (TokenModel::Term(x), TokenModel::Term(y), TokenModel::Term(z)) => {
            if special_rank(x) == 0 && special_rank(y) == 0 && special_rank(z) == 0 {
                let (bx, by, bz) = (ident_bytes(x), ident_bytes(y), ident_bytes(z));
                if bx.len() == by.len() && by.len() == bz.len() {
                    lemma_lex_trans(bx, by, bz);
                }
            }
        },
        (TokenModel::NonTerm(x), TokenModel::NonTerm(y), TokenModel::NonTerm(z)) => {
            lemma_lex_trans(ident_bytes(x), ident_bytes(y), ident_bytes(z));
        },
        _ => {},
    }
}

/// Two different tokens are ordered one way or the other.
pub proof fn lemma_token_total(a: TokenModel, b: TokenModel)
    requires
        a != b,
    ensures
        token_lt(a, b) || token_lt(b, a),
{
    match (a, b) {
        (TokenModel::Term(x), TokenModel::Term(y)) => {
            if special_rank(x) == special_rank(y) {
                if special_rank(x) == 0 {
                    lemma_bytes_injective(x, y);
                    let (bx, by) = (ident_bytes(x), ident_bytes(y));
                    if bx.len() == by.len() {
                        lemma_lex_total(bx, by);
                    }
                }
            }
        },
        (TokenModel::NonTerm(x), TokenModel::NonTerm(y)) => {
            lemma_bytes_injective(x, y);
            lemma_lex_total(ident_bytes(x), ident_bytes(y));
        },
        _ => {},
    }
}

} // verus!
