//! The surface syntax of grammar text: lines, blank lines, the `->` arrow, heads and words.
use vstd::prelude::*;
use vstd::string::*;

verus! {

/// ASCII white space: what separates the words of a production's tail.
pub open spec fn is_ws(c: char) -> bool {
    c == ' ' || c == '\t' || c == '\n' || c == '\r' || c == '\x0C'
}

/// The lines of a text: the pieces between `\n` characters.
pub open spec fn lines_of(s: Seq<char>) -> Seq<Seq<char>>
    decreases s.len(),
{
    if s.len() == 0 {
        seq![Seq::empty()]
    } else {
        let r = lines_of(s.drop_last());
        if s.last() == '\n' {
            r.push(Seq::empty())
        } else {
            r.update(r.len() - 1, r.last().push(s.last()))
        }
    }
}

/// Only white space.
pub open spec fn blank(l: Seq<char>) -> bool {
    forall|i: int| 0 <= i < l.len() ==> is_white(#[trigger] l[i])
}

/// `->` starts at `i`.
pub open spec fn arrow_at(l: Seq<char>, i: int) -> bool {
    0 <= i && i + 1 < l.len() && l[i] == '-' && l[i + 1] == '>'
}

pub open spec fn has_arrow(l: Seq<char>) -> bool {
    exists|i: int| arrow_at(l, i)
}

/// The first `->` starts at `i`.
pub open spec fn first_arrow_at(l: Seq<char>, i: int) -> bool {
    arrow_at(l, i) && forall|j: int| 0 <= j < i ==> !arrow_at(l, j)
}

/// Where the first `->` starts.
pub open spec fn first_arrow(l: Seq<char>) -> int {
    choose|i: int| first_arrow_at(l, i)
}

/// A line is either blank or holds an arrow.
pub open spec fn line_ok(l: Seq<char>) -> bool {
    blank(l) || has_arrow(l)
}

pub open spec fn trim_start(l: Seq<char>) -> Seq<char>
    decreases l.len(),
{
    if l.len() > 0 && is_white(l[0]) {
        trim_start(l.drop_first())
    } else {
        l
    }
}

pub open spec fn trim_end(l: Seq<char>) -> Seq<char>
    decreases l.len(),
{
    if l.len() > 0 && is_white(l.last()) {
        trim_end(l.drop_last())
    } else {
        l
    }
}

/// White space removed from both ends.
pub open spec fn trim(l: Seq<char>) -> Seq<char> {
    trim_end(trim_start(l))
}

/// The head of a production line: the trimmed text before its first arrow.
pub open spec fn head_text(l: Seq<char>) -> Seq<char> {
    trim(l.subrange(0, first_arrow(l)))
}

/// The tail text of a production line: what follows its first arrow.
pub open spec fn tail_text(l: Seq<char>) -> Seq<char> {
    l.subrange(first_arrow(l) + 2, l.len() as int)
}

/// Line `k` of `s` is a production line.
pub open spec fn is_prod_line(s: Seq<char>, k: int) -> bool {
    0 <= k < lines_of(s).len() && !blank(lines_of(s)[k]) && has_arrow(lines_of(s)[k])
}

/// `h` heads some production line of `s`.
pub open spec fn is_head(s: Seq<char>, h: Seq<char>) -> bool {
    exists|k: int| is_prod_line(s, k) && head_text(#[trigger] lines_of(s)[k]) == h
}

/// Line `k` is the first line that is neither blank nor holds an arrow.
pub open spec fn first_bad_line(s: Seq<char>, k: int) -> bool {
    0 <= k < lines_of(s).len() && !line_ok(lines_of(s)[k]) && forall|j: int|
        0 <= j < k ==> line_ok(#[trigger] lines_of(s)[j])
}

/// Every line is blank or holds an arrow.
pub open spec fn all_lines_ok(s: Seq<char>) -> bool {
    forall|j: int| 0 <= j < lines_of(s).len() ==> line_ok(#[trigger] lines_of(s)[j])
}

/// White space as Unicode defines it: what blank lines hold and what trimming removes.
pub open spec fn is_white(c: char) -> bool {
    is_ws(c) || c == '\x0B' || c == '\u{85}' || c == '\u{A0}' || c == '\u{1680}' || ('\u{2000}' <= c
        && c <= '\u{200A}') || c == '\u{2028}' || c == '\u{2029}' || c == '\u{202F}' || c == '\u{205F}'
        || c == '\u{3000}'
}

pub fn is_white_char(c: char) -> (r: bool)
    ensures
        r == is_white(c),
{
    is_space(c) || c == '\x0B' || c == '\u{85}' || c == '\u{A0}' || c == '\u{1680}' || ('\u{2000}' <= c
        && c <= '\u{200A}') || c == '\u{2028}' || c == '\u{2029}' || c == '\u{202F}' || c == '\u{205F}'
        || c == '\u{3000}'
}

pub fn is_space(c: char) -> (r: bool)
    ensures
        r == is_ws(c),
{
    c == ' ' || c == '\t' || c == '\n' || c == '\r' || c == '\x0C'
}

/// The characters of `s`.
pub fn chars_of(s: &str) -> (r: Vec<char>)
    ensures
        r@ == s@,
{
    let n = s.unicode_len();
    let mut r: Vec<char> = Vec::new();
    let mut i: usize = 0;
    while i < n
        invariant
            n == s@.len(),
            i <= n,
            r@ == s@.subrange(0, i as int),
        decreases n - i,
    {
        r.push(s.get_char(i));
        i = i + 1;
        assert(r@ =~= s@.subrange(0, i as int));
    }
    assert(r@ =~= s@);
    r
}

/// Whether `cs[a..b]` is blank.
pub fn is_blank(cs: &Vec<char>, a: usize, b: usize) -> (r: bool)
    requires
        a <= b <= cs@.len(),
    ensures
        r == blank(cs@.subrange(a as int, b as int)),
{
    let mut i = a;
    while i < b
        invariant
            a <= i <= b <= cs@.len(),
            forall|j: int| a <= j < i ==> is_white(#[trigger] cs@[j]),
        decreases b - i,
    {
        if !is_white_char(cs[i]) {
            assert(!is_white(cs@.subrange(a as int, b as int)[i - a]));
            return false;
        }
        i = i + 1;
    }
    assert forall|j: int| 0 <= j < b - a implies is_white(#[trigger] cs@.subrange(a as int, b as int)[j]) by {
        assert(cs@.subrange(a as int, b as int)[j] == cs@[a + j]);
    }
    true
}

/// Where the first `->` of `cs[a..b]` starts, counted from the start of `cs`.
pub fn find_arrow(cs: &Vec<char>, a: usize, b: usize) -> (r: Option<usize>)
    requires
        a <= b <= cs@.len(),
    ensures
        r matches Some(p) ==> a <= p && first_arrow_at(cs@.subrange(a as int, b as int), p - a),
        r is None ==> !has_arrow(cs@.subrange(a as int, b as int)),
{
    let ghost l = cs@.subrange(a as int, b as int);
    let mut i = a;
    while i < b && b - i > 1
        invariant
            a <= i <= b,
            b <= cs@.len(),
            l == cs@.subrange(a as int, b as int),
            forall|j: int| 0 <= j < i - a ==> !arrow_at(l, j),
        decreases b - i,
    {
        if cs[i] == '-' && cs[i + 1] == '>' {
            assert(arrow_at(l, i - a));
            return Some(i);
        }
        i = i + 1;
    }
    assert forall|j: int| !arrow_at(l, j) by {
        if 0 <= j && j >= i - a {
            assert(!(j + 1 < l.len()));
        }
    }
    None
}

/// The bounds of `cs[a..b]` with white space removed from both ends.
pub fn trim_range(cs: &Vec<char>, a: usize, b: usize) -> (r: (usize, usize))
    requires
        a <= b <= cs@.len(),
    ensures
        a <= r.0 <= r.1 <= b,
        cs@.subrange(r.0 as int, r.1 as int) == trim(cs@.subrange(a as int, b as int)),
{
    let mut x = a;
    while x < b && is_white_char(cs[x])
        invariant
            a <= x <= b <= cs@.len(),
            trim_start(cs@.subrange(a as int, b as int)) == trim_start(cs@.subrange(x as int, b as int)),
        decreases b - x,
    {
        assert(cs@.subrange(x as int, b as int).drop_first() =~= cs@.subrange(x + 1, b as int));
        x = x + 1;
    }
    assert(trim_start(cs@.subrange(x as int, b as int)) == cs@.subrange(x as int, b as int));
    let mut y = b;
    while y > x && is_white_char(cs[y - 1])
        invariant
            x <= y <= b <= cs@.len(),
            trim_end(cs@.subrange(x as int, b as int)) == trim_end(cs@.subrange(x as int, y as int)),
        decreases y,
    {
        assert(cs@.subrange(x as int, y as int).drop_last() =~= cs@.subrange(x as int, y - 1));
        y = y - 1;
    }
    assert(trim_end(cs@.subrange(x as int, y as int)) == cs@.subrange(x as int, y as int));
    (x, y)
}

/// The pieces of a text between the characters `c`.
pub open spec fn split_on(s: Seq<char>, c: char) -> Seq<Seq<char>>
    decreases s.len(),
{
    if s.len() == 0 {
        seq![Seq::empty()]
    } else {
        let r = split_on(s.drop_last(), c);
        if s.last() == c {
            r.push(Seq::empty())
        } else {
            r.update(r.len() - 1, r.last().push(s.last()))
        }
    }
}

/// The words of a text: its maximal runs of characters that are not white space.
pub open spec fn words_of(s: Seq<char>) -> Seq<Seq<char>>
    decreases s.len(),
{
    if s.len() == 0 {
        Seq::empty()
    } else {
        let r = words_of(s.drop_last());
        if is_ws(s.last()) {
            r
        } else if s.len() >= 2 && !is_ws(s[s.len() - 2]) {
            r.update(r.len() - 1, r.last().push(s.last()))
        } else {
            r.push(seq![s.last()])
        }
    }
}

/// The texts that a list of bounds marks out.
pub open spec fn ranges_text(cs: Seq<char>, r: Seq<(usize, usize)>) -> Seq<Seq<char>> {
    r.map_values(|x: (usize, usize)| cs.subrange(x.0 as int, x.1 as int))
}

/// The words of `cs[a..b]`: maximal runs without white space, as bounds.
pub fn words(cs: &Vec<char>, a: usize, b: usize) -> (r: Vec<(usize, usize)>)
    requires
        a <= b <= cs@.len(),
    ensures
        forall|k: int|
            0 <= k < r@.len() ==> a <= (#[trigger] r@[k]).0 < r@[k].1 <= b && forall|j: int|
                r@[k].0 <= j < r@[k].1 ==> !is_ws(#[trigger] cs@[j]),
        ranges_text(cs@, r@) == words_of(cs@.subrange(a as int, b as int)),
{
    let mut r: Vec<(usize, usize)> = Vec::new();
    let mut i = a;
    assert(cs@.subrange(a as int, a as int) =~= Seq::<char>::empty());
    assert(ranges_text(cs@, r@) =~= Seq::<Seq<char>>::empty());
    while i < b
        invariant
            a <= i <= b <= cs@.len(),
            forall|k: int|
                0 <= k < r@.len() ==> a <= (#[trigger] r@[k]).0 < r@[k].1 <= i && forall|j: int|
                    r@[k].0 <= j < r@[k].1 ==> !is_ws(#[trigger] cs@[j]),
            ranges_text(cs@, r@) == words_of(cs@.subrange(a as int, i as int)),
            i < b && !is_ws(cs@[i as int]) ==> (i == a || is_ws(cs@[i - 1])),
        decreases b - i,
    {
        if is_space(cs[i]) {
            proof {
                let pre = cs@.subrange(a as int, i + 1);
                assert(pre.drop_last() =~= cs@.subrange(a as int, i as int));
                assert(pre.last() == cs@[i as int]);
            }
            i = i + 1;
        } else {
            let start = i;
            let ghost rt0 = ranges_text(cs@, r@);
            while i < b && !is_space(cs[i])
                invariant
                    a <= start <= i <= b <= cs@.len(),
                    start == a || is_ws(cs@[start - 1]),
                    forall|j: int| start <= j < i ==> !is_ws(#[trigger] cs@[j]),
                    i == start ==> words_of(cs@.subrange(a as int, i as int)) == rt0,
                    i > start ==> words_of(cs@.subrange(a as int, i as int)) == rt0.push(cs@.subrange(start as int, i as int)),
                decreases b - i,
            {
                proof {
                    let pre = cs@.subrange(a as int, i + 1);
                    assert(pre.drop_last() =~= cs@.subrange(a as int, i as int));
                    assert(pre.last() == cs@[i as int]);
                    if i == start {
                        if pre.len() >= 2 {
                            assert(pre[pre.len() - 2] == cs@[start - 1]);
                        }
                        assert(seq![cs@[i as int]] =~= cs@.subrange(start as int, i + 1));
                    } else {
                        assert(pre[pre.len() - 2] == cs@[i - 1]);
                        assert(cs@.subrange(start as int, i as int).push(cs@[i as int]) =~= cs@.subrange(start as int, i + 1));
                        assert(rt0.push(cs@.subrange(start as int, i as int)).update(rt0.len() as int, cs@.subrange(start as int, i + 1)) =~= rt0.push(cs@.subrange(start as int, i + 1)));
                    }
                }
                i = i + 1;
            }
            let ghost r0 = r@;
            r.push((start, i));
            proof {
                assert(ranges_text(cs@, r@) =~= rt0.push(cs@.subrange(start as int, i as int)));
            }
        }
    }
    r
}

/// The pieces of `cs[a..b]` between `|` characters, as bounds.
pub fn alternatives(cs: &Vec<char>, a: usize, b: usize) -> (r: Vec<(usize, usize)>)
    requires
        a <= b <= cs@.len(),
    ensures
        r@.len() >= 1,
        forall|k: int| 0 <= k < r@.len() ==> a <= (#[trigger] r@[k]).0 <= r@[k].1 <= b,
        ranges_text(cs@, r@) == split_on(cs@.subrange(a as int, b as int), '|'),
{
    let mut r: Vec<(usize, usize)> = Vec::new();
    let mut start = a;
    let mut i = a;
    assert(cs@.subrange(a as int, a as int) =~= Seq::<char>::empty());
    assert(ranges_text(cs@, r@).push(cs@.subrange(a as int, a as int)) =~= split_on(cs@.subrange(a as int, a as int), '|'));
    while i < b
        invariant
            a <= start <= i <= b <= cs@.len(),
            forall|k: int| 0 <= k < r@.len() ==> a <= (#[trigger] r@[k]).0 <= r@[k].1 <= start,
            ranges_text(cs@, r@).push(cs@.subrange(start as int, i as int)) == split_on(cs@.subrange(a as int, i as int), '|'),
        decreases b - i,
    {
        let ghost rt0 = ranges_text(cs@, r@);
        proof {
            let pre = cs@.subrange(a as int, i + 1);
            assert(pre.drop_last() =~= cs@.subrange(a as int, i as int));
            assert(pre.last() == cs@[i as int]);
        }
        if cs[i] == '|' {
            let ghost s0 = start;
            r.push((start, i));
            start = i + 1;
            proof {
                assert(ranges_text(cs@, r@) =~= rt0.push(cs@.subrange(s0 as int, i as int)));
                assert(cs@.subrange(start as int, i + 1) =~= Seq::<char>::empty());
            }
        } else {
            proof {
                assert(cs@.subrange(start as int, i as int).push(cs@[i as int]) =~= cs@.subrange(start as int, i + 1));
                assert(rt0.push(cs@.subrange(start as int, i as int)).update(rt0.len() as int, cs@.subrange(start as int, i + 1)) =~= rt0.push(cs@.subrange(start as int, i + 1)));
            }
        }
        i = i + 1;
    }
    let ghost rt0 = ranges_text(cs@, r@);
    r.push((start, b));
    assert(ranges_text(cs@, r@) =~= rt0.push(cs@.subrange(start as int, b as int)));
    r
}

/// The text `s[a..b]` as a string.
pub fn substring(s: &str, a: usize, b: usize) -> (r: String)
    requires
        a <= b <= s@.len(),
    ensures
        r@ == s@.subrange(a as int, b as int),
{
    s.substring_char(a, b).to_owned()
}

/// A text has at least one line.
pub proof fn lemma_lines_nonempty(s: Seq<char>)
    ensures
        lines_of(s).len() >= 1,
    decreases s.len(),
{
    if s.len() > 0 {
        lemma_lines_nonempty(s.drop_last());
    }
}

/// Completed lines of a prefix stay lines of every longer prefix.
pub proof fn lemma_lines_prefix(s: Seq<char>, i: int, n: int)
    requires
        0 <= i <= n <= s.len(),
    ensures
        lines_of(s.subrange(0, n)).len() >= lines_of(s.subrange(0, i)).len(),
        forall|j: int|
            0 <= j < lines_of(s.subrange(0, i)).len() - 1 ==> #[trigger] lines_of(s.subrange(0, n))[j]
                == lines_of(s.subrange(0, i))[j],
    decreases n - i,
{
    lemma_lines_nonempty(s.subrange(0, i));
    if i < n {
        lemma_lines_prefix(s, i + 1, n);
        assert(s.subrange(0, i + 1).drop_last() =~= s.subrange(0, i));
    }
}

} // verus!
