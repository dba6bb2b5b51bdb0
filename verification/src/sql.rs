//! The SQL tokenizer and the token cursor that the query parser reads from.
use vstd::prelude::*;
use crate::strmap::StrMap;
use crate::text::{chars_of, is_whitespace, string_from_range, unicode_whitespace};

verus! {

/// A character that is a token on its own.
pub open spec fn is_single(c: char) -> bool {
    c == ',' || c == '(' || c == ')' || c == '*' || c == '+' || c == '-' || c == '/'
}

/// A character that ends a word.
pub open spec fn is_break(c: char) -> bool {
    unicode_whitespace(c) || is_single(c) || c == '>' || c == '<' || c == '=' || c == '!' || c == '['
        || c == ']'
}

/// The position just past the first `c` at or after `from`, or the end of the text.
pub open spec fn past_closing(s: Seq<char>, from: int, c: char) -> int
    decreases s.len() - from,
{
    if from >= s.len() {
        s.len() as int
    } else if s[from] == c {
        from + 1
    } else {
        past_closing(s, from + 1, c)
    }
}

/// The first position at or after `from` that ends a word, or the end of the text.
pub open spec fn word_end(s: Seq<char>, from: int) -> int
    decreases s.len() - from,
{
    if from >= s.len() {
        s.len() as int
    } else if is_break(s[from]) {
        from
    } else {
        word_end(s, from + 1)
    }
}

/// The token that starts at `i` (not whitespace) and where the next scan starts; `None` where
/// the tokenizer would stop making progress (a `]` outside brackets).
pub open spec fn token_at(s: Seq<char>, i: int) -> Option<(Seq<char>, int)> {
    let c = s[i];
    if is_single(c) {
        Some((seq![c], i + 1))
    } else if c == '\'' || c == '"' {
        let e = past_closing(s, i + 1, c);
        Some((s.subrange(i, e), e))
    } else if c == '[' {
        let e = past_closing(s, i + 1, ']');
        Some((s.subrange(i, e), e))
    } else if c == '>' || c == '<' || c == '=' || c == '!' {
        if i + 1 < s.len() && (s[i + 1] == '=' || (c == '<' && s[i + 1] == '>')) {
            Some((s.subrange(i, i + 2), i + 2))
        } else {
            Some((seq![c], i + 1))
        }
    } else {
        let e = word_end(s, i);
        if e == i {
            None
        } else {
            Some((s.subrange(i, e), e))
        }
    }
}

/// The tokens of `s` from position `i` on; `None` where the tokenizer would not progress.
pub open spec fn tokens_from(s: Seq<char>, i: int) -> Option<Seq<Seq<char>>>
    decreases s.len() - i,
{
    if i < 0 || i >= s.len() {
        Some(Seq::empty())
    } else if unicode_whitespace(s[i]) {
        tokens_from(s, i + 1)
    } else {
        match token_at(s, i) {
            Some((t, next)) => if i < next <= s.len() {
                match tokens_from(s, next) {
                    Some(rest) => Some(seq![t] + rest),
                    None => None,
                }
            } else {
                None
            },
            None => None,
        }
    }
}

proof fn lemma_past_closing(s: Seq<char>, from: int, c: char)
    requires
        0 <= from <= s.len(),
    ensures
        from <= past_closing(s, from, c) <= s.len(),
    decreases s.len() - from,
{
    if from < s.len() && s[from] != c {
        lemma_past_closing(s, from + 1, c);
    }
}

proof fn lemma_word_end(s: Seq<char>, from: int)
    requires
        0 <= from <= s.len(),
    ensures
        from <= word_end(s, from) <= s.len(),
    decreases s.len() - from,
{
    if from < s.len() && !is_break(s[from]) {
        lemma_word_end(s, from + 1);
    }
}

fn char_is_break(c: char) -> (r: bool)
    ensures
        r == is_break(c),
{
    is_whitespace(c) || c == ',' || c == '(' || c == ')' || c == '*' || c == '+' || c == '-' || c == '/'
        || c == '>' || c == '<' || c == '=' || c == '!' || c == '[' || c == ']'
}

fn scan_past(s: &Vec<char>, from: usize, c: char) -> (e: usize)
    requires
        from <= s@.len(),
    ensures
        e == past_closing(s@, from as int, c),
{
    let mut k = from;
    while k < s.len()
        invariant
            from <= k <= s@.len(),
            past_closing(s@, from as int, c) == past_closing(s@, k as int, c),
        decreases s@.len() - k,
    {
        if s[k] == c {
            return k + 1;
        }
        k = k + 1;
    }
    k
}

fn scan_word(s: &Vec<char>, from: usize) -> (e: usize)
    requires
        from <= s@.len(),
    ensures
        e == word_end(s@, from as int),
{
    let mut k = from;
    while k < s.len()
        invariant
            from <= k <= s@.len(),
            word_end(s@, from as int) == word_end(s@, k as int),
        decreases s@.len() - k,
    {
        if char_is_break(s[k]) {
            return k;
        }
        k = k + 1;
    }
    k
}

/// The token starting at `i` and the position after it, or `None` (see `token_at`).
fn next_token_at(s: &Vec<char>, i: usize) -> (r: Option<(String, usize)>)
    requires
        i < s.len(),
    ensures
        match token_at(s@, i as int) {
            Some((t, next)) => r matches Some(x) && x.0@ == t && x.1 == next,
            None => r is None,
        },
        r matches Some(x) ==> i < x.1 <= s@.len(),
{
    let c = s[i];
    if c == ',' || c == '(' || c == ')' || c == '*' || c == '+' || c == '-' || c == '/' {
        let t = string_from_range(s, i, i + 1);
        assert(t@ =~= seq![c]);
        Some((t, i + 1))
    } else if c == '\'' || c == '"' {
        proof {
            lemma_past_closing(s@, i + 1, c);
        }
        let e = scan_past(s, i + 1, c);
        Some((string_from_range(s, i, e), e))
    } else if c == '[' {
        proof {
            lemma_past_closing(s@, i + 1, ']');
        }
        let e = scan_past(s, i + 1, ']');
        Some((string_from_range(s, i, e), e))
    } else if c == '>' || c == '<' || c == '=' || c == '!' {
        if i + 1 < s.len() && (s[i + 1] == '=' || (c == '<' && s[i + 1] == '>')) {
            Some((string_from_range(s, i, i + 2), i + 2))
        } else {
            let t = string_from_range(s, i, i + 1);
            assert(t@ =~= seq![c]);
            Some((t, i + 1))
        }
    } else {
        proof {
            lemma_word_end(s@, i as int);
        }
        let e = scan_word(s, i);
        if e == i {
            None
        } else {
            Some((string_from_range(s, i, e), e))
        }
    }
}

/// The tokens of `input`, or `None` where the tokenizer would not progress.
pub fn tokenize(input: &str) -> (r: Option<Vec<String>>)
    ensures
        r is None <==> sql_tokens(input@) is None,
        r matches Some(ts) ==> token_views(ts@) == sql_tokens(input@).unwrap(),
{
    let s = chars_of(input);
    assert(Seq::<Seq<char>>::empty() + tokens_from(s@, 0).unwrap_or(Seq::empty()) =~= tokens_from(s@, 0).unwrap_or(Seq::empty()));
    let ghost all = tokens_from(s@, 0);
    let mut tokens: Vec<String> = Vec::new();
    let mut i: usize = 0;
    while i < s.len()
        invariant
            i <= s@.len(),
            s@ == input@,
            all == tokens_from(s@, 0),
            all == match tokens_from(s@, i as int) {
                Some(rest) => Some(token_views(tokens@) + rest),
                None => None,
            },
        decreases s@.len() - i,
    {
        if is_whitespace(s[i]) {
            i = i + 1;
        } else {
            match next_token_at(&s, i) {
                Some((t, next)) => {
                    let ghost before = token_views(tokens@);
                    proof {
                        match tokens_from(s@, next as int) {
                            Some(rest) => {
                                assert(before + (seq![t@] + rest) =~= before.push(t@) + rest);
                            },
                            None => {},
                        }
                    }
                    tokens.push(t);
                    assert(token_views(tokens@) =~= before.push(t@));
                    i = next;
                },
                None => {
                    assert(tokens_from(s@, i as int) is None);
                    return None;
                },
            }
        }
    }
    assert(token_views(tokens@) + Seq::<Seq<char>>::empty() =~= token_views(tokens@));
    Some(tokens)
}

pub open spec fn token_views(ts: Seq<String>) -> Seq<Seq<char>> {
    ts.map_values(|t: String| t@)
}

/// A cursor over the tokens of a query, with the floating-point readings of its number texts:
/// `numbers` maps each text that reads as an `f64` to the bit pattern of that reading.
pub struct SqlParser {
    pub tokens: Vec<String>,
    pub pos: usize,
    pub numbers: StrMap<u64>,
}

/// The tokens of `input` as the tokenizer splits them.
pub open spec fn sql_tokens(input: Seq<char>) -> Option<Seq<Seq<char>>> {
    tokens_from(input, 0)
}

/// ASCII letters compared without regard to case (`eq_ignore_ascii_case`).
pub open spec fn ascii_fold(c: char) -> char {
    if 'a' <= c && c <= 'z' {
        ((c as u32) - 32) as char
    } else {
        c
    }
}

pub open spec fn eq_ignore_ascii_case(a: Seq<char>, b: Seq<char>) -> bool {
    a.len() == b.len() && forall|i: int| 0 <= i < a.len() ==> ascii_fold(#[trigger] a[i]) == ascii_fold(b[i])
}

fn fold_char(c: char) -> (r: char)
    ensures
        r == ascii_fold(c),
{
    if 'a' <= c && c <= 'z' {
        ((c as u32) - 32) as u8 as char
    } else {
        c
    }
}

/// `str::eq_ignore_ascii_case`.
pub fn same_ignoring_ascii_case(a: &str, b: &str) -> (r: bool)
    ensures
        r == eq_ignore_ascii_case(a@, b@),
{
    let x = chars_of(a);
    let y = chars_of(b);
    if x.len() != y.len() {
        return false;
    }
    let mut i: usize = 0;
    while i < x.len()
        invariant
            i <= x@.len() == y@.len(),
            x@ == a@,
            y@ == b@,
            forall|j: int| 0 <= j < i ==> ascii_fold(#[trigger] x@[j]) == ascii_fold(y@[j]),
        decreases x@.len() - i,
    {
        if fold_char(x[i]) != fold_char(y[i]) {
            return false;
        }
        i = i + 1;
    }
    true
}

impl SqlParser {
    pub open spec fn token_seq(&self) -> Seq<Seq<char>> {
        token_views(self.tokens@)
    }

    /// Splits `input` into tokens: single characters `, ( ) * + - /`; quoted text up to and
    /// including the matching quote; `[...]` vectors; the operators `> < = !`, each possibly
    /// followed by `=` (and `<>`); and words, which run up to whitespace or one of those
    /// characters. Every `]` must close a `[`: elsewhere the tokenizer would not progress.
    pub fn new(input: &str) -> (p: Self)
        requires
            sql_tokens(input@) is Some,
        ensures
            p.token_seq() == sql_tokens(input@).unwrap(),
            p.pos == 0,
            p.numbers.wf(),
            p.numbers@ == Map::<Seq<char>, u64>::empty(),
    {
        match tokenize(input) {
            Some(tokens) => SqlParser { tokens, pos: 0, numbers: StrMap::new() },
            None => SqlParser { tokens: Vec::new(), pos: 0, numbers: StrMap::new() },
        }
    }

    /// `new`, or `None` where a `]` outside brackets would stop the tokenizer.
    pub fn try_new(input: &str) -> (p: Option<Self>)
        ensures
            p is None <==> sql_tokens(input@) is None,
            p matches Some(q) ==> q.token_seq() == sql_tokens(input@).unwrap() && q.pos == 0
                && q.numbers.wf() && q.numbers@ == Map::<Seq<char>, u64>::empty(),
    {
        match tokenize(input) {
            Some(tokens) => Some(SqlParser { tokens, pos: 0, numbers: StrMap::new() }),
            None => None,
        }
    }

    /// The current token, if any.
    pub fn peek(&self) -> (r: Option<&String>)
        ensures
            r is Some <==> self.pos < self.tokens@.len(),
            r matches Some(t) ==> t@ == self.token_seq()[self.pos as int],
    {
        if self.pos < self.tokens.len() {
            Some(&self.tokens[self.pos])
        } else {
            None
        }
    }

    /// The current token, moving past it.
    pub fn next_token(&mut self) -> (r: Option<String>)
        ensures
            final(self).tokens@ == old(self).tokens@,
            final(self).numbers == old(self).numbers,
            r is Some <==> old(self).pos < old(self).tokens@.len(),
            r matches Some(t) ==> t@ == old(self).token_seq()[old(self).pos as int] && final(self).pos
                == old(self).pos + 1,
            r is None ==> final(self).pos == old(self).pos,
    {
        if self.pos < self.tokens.len() {
            let t = self.tokens[self.pos].clone();
            self.pos = self.pos + 1;
            Some(t)
        } else {
            None
        }
    }

    /// Moves past the current token when it is `kw`, ignoring ASCII case.
    pub fn match_keyword(&mut self, kw: &str) -> (r: bool)
        ensures
            final(self).tokens@ == old(self).tokens@,
            final(self).numbers == old(self).numbers,
            r == (old(self).pos < old(self).tokens@.len() && eq_ignore_ascii_case(
                old(self).token_seq()[old(self).pos as int],
                kw@,
            )),
            final(self).pos == if r {
                old(self).pos + 1
            } else {
                old(self).pos as int
            },
    {
        if self.pos >= self.tokens.len() {
            return false;
        }
        let t = chars_of(self.tokens[self.pos].as_str());
        let k = chars_of(kw);
        assert(t@ == self.token_seq()[self.pos as int]);
        if t.len() != k.len() {
            return false;
        }
        let mut i: usize = 0;
        while i < t.len()
            invariant
                i <= t@.len() == k@.len(),
                k@ == kw@,
                self.pos == old(self).pos,
                self.tokens@ == old(self).tokens@,
                self.pos < self.tokens@.len(),
                t@ == old(self).token_seq()[old(self).pos as int],
                forall|j: int| 0 <= j < i ==> ascii_fold(#[trigger] t@[j]) == ascii_fold(k@[j]),
            decreases t@.len() - i,
        {
            if fold_char(t[i]) != fold_char(k[i]) {
                return false;
            }
            i = i + 1;
        }
        self.pos = self.pos + 1;
        true
    }
}

/// The tokens from `i` on when a token of `len` characters starts at `i`: that token, then the
/// tokens after it.
pub open spec fn led_by(s: Seq<char>, i: int, len: int) -> Option<Seq<Seq<char>>> {
    match tokens_from(s, i + len) {
        Some(rest) => Some(seq![s.subrange(i, i + len)] + rest),
        None => None,
    }
}

/// How the tokenizer splits operators. Whitespace between tokens is skipped. A comparison
/// character (`<`, `>`, `=`, `!`) immediately followed by `=`, and `<` followed by `>`, make one
/// token of two characters (`a<=b` gives `a`, `<=`, `b`); a comparison character otherwise is a
/// token by itself, and so is each of `,` `(` `)` `*` `+` `-` `/`.
pub proof fn lemma_operator_tokens(s: Seq<char>, i: int)
    requires
        0 <= i < s.len(),
    ensures
        unicode_whitespace(s[i]) ==> tokens_from(s, i) == tokens_from(s, i + 1),
        ({
            let c = s[i];
            let pair = i + 1 < s.len() && (s[i + 1] == '=' || (c == '<' && s[i + 1] == '>'));
            (c == '<' || c == '>' || c == '=' || c == '!') ==> tokens_from(s, i) == led_by(
                s,
                i,
                if pair { 2 } else { 1 },
            )
        }),
        (s[i] == ',' || s[i] == '(' || s[i] == ')' || s[i] == '*' || s[i] == '+' || s[i] == '-' || s[i] == '/')
            ==> tokens_from(s, i) == led_by(s, i, 1),
{
    let c = s[i];
    if c == ',' || c == '(' || c == ')' || c == '*' || c == '+' || c == '-' || c == '/' || c == '<' || c == '>' || c == '='
        || c == '!' {
        assert(!unicode_whitespace(c));
        assert(seq![c] =~= s.subrange(i, i + 1));
    }
}

/// `e` is just past the first `q` after position `i`, or the end of the text when no `q`
/// follows `i`.
pub open spec fn closes_at(s: Seq<char>, i: int, q: char, e: int) -> bool {
    ||| i + 1 < e <= s.len() && s[e - 1] == q && (forall|j: int| i < j < e - 1 ==> s[j] != q)
    ||| e == s.len() && i < e && (forall|j: int| i < j < e ==> s[j] != q)
}

proof fn lemma_past_closing_at(s: Seq<char>, from: int, q: char, e: int)
    requires
        0 <= from <= s.len(),
        from <= e <= s.len(),
        (e >= from + 1 && s[e - 1] == q && (forall|j: int| from <= j < e - 1 ==> s[j] != q)) || (e == s.len() && (
        forall|j: int| from <= j < e ==> s[j] != q)),
    ensures
        past_closing(s, from, q) == e,
    decreases s.len() - from,
{
    if from < s.len() && s[from] != q {
        lemma_past_closing_at(s, from + 1, q, e);
    }
}

proof fn lemma_word_end_at(s: Seq<char>, from: int, e: int)
    requires
        0 <= from <= e <= s.len(),
        forall|j: int| from <= j < e ==> !is_break(s[j]),
        e == s.len() || is_break(s[e]),
    ensures
        word_end(s, from) == e,
    decreases e - from,
{
    if from < e {
        lemma_word_end_at(s, from + 1, e);
    }
}

/// How the tokenizer reads quoted texts, bracketed names and words. A quoted text runs from its
/// quote (`'` or `"`) through the first matching quote after it, or to the end of the text
/// when none follows; a bracketed name runs from `[` through the first `]`, likewise. A word or
/// number runs up to the first whitespace, operator or bracket character, or to the end.
pub proof fn lemma_quoted_and_word_tokens(s: Seq<char>, i: int, e: int)
    requires
        0 <= i < e <= s.len(),
    ensures
        (s[i] == '\'' || s[i] == '"') && closes_at(s, i, s[i], e) ==> tokens_from(s, i) == led_by(s, i, e - i),
        s[i] == '[' && closes_at(s, i, ']', e) ==> tokens_from(s, i) == led_by(s, i, e - i),
        s[i] != '\'' && s[i] != '"' && (forall|j: int| i <= j < e ==> !is_break(s[j])) && (e == s.len() || is_break(
            s[e],
        )) ==> tokens_from(s, i) == led_by(s, i, e - i),
{
    let c = s[i];
    if (c == '\'' || c == '"') && closes_at(s, i, c, e) {
        lemma_past_closing_at(s, i + 1, c, e);
        assert(!unicode_whitespace(c));
    }
    if c == '[' && closes_at(s, i, ']', e) {
        lemma_past_closing_at(s, i + 1, ']', e);
        assert(!unicode_whitespace(c));
    }
    if c != '\'' && c != '"' && (forall|j: int| i <= j < e ==> !is_break(s[j])) && (e == s.len() || is_break(s[e])) {
        lemma_word_end_at(s, i, e);
        assert(!is_break(s[i]));
    }
}

} // verus!
