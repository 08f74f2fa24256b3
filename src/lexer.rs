use vstd::prelude::*;
use vstd::string::*;

use crate::builtin::{
    lemma_standard_keywords_finite, lemma_standard_keywords_plain, standard_keywords,
    standard_lookup,
};
use crate::keywords::{lemma_longer_literal_wins, lemma_longest_exists, occurs_at, is_longest_match, no_match, Keyword, Lookup};
use crate::text::{chars_of, concat3, is_digit, is_white_space, white_space};

verus! {

/// A unit of the token stream.
#[derive(Debug)]
pub enum Token {
    /// End of a statement: a line break, a comment, or the separator keyword.
    Lf,
    /// A numeric literal, as written; it has the shape of a decimal float.
    Number(String),
    /// A keyword, with the length of the spelling that was matched, counted in
    /// characters (for the language's literals, all ASCII, the same as bytes).
    Int(Keyword, usize),
    /// Every diagnostic of the lexer, handed over once at the end of the input.
    Errors(Vec<String>),
}

/// What one step of the lexer yields, apart from its diagnostics.
pub enum Lexeme {
    Lf,
    Number(Seq<char>),
    Word(Keyword, nat),
    End,
}

pub open spec fn lexeme_of(t: Token) -> Lexeme {
    match t {
        Token::Lf => Lexeme::Lf,
        Token::Number(s) => Lexeme::Number(s@),
        Token::Int(k, n) => Lexeme::Word(k, n as nat),
        Token::Errors(_) => Lexeme::End,
    }
}

/// A token, as the grammar sees it.
pub enum Tok {
    Lf,
    Num(Seq<char>),
    Word(Keyword),
    Errs(Seq<Seq<char>>),
}

pub open spec fn tok_of(t: Token) -> Tok {
    match t {
        Token::Lf => Tok::Lf,
        Token::Number(n) => Tok::Num(n@),
        Token::Int(k, _) => Tok::Word(k),
        Token::Errors(v) => Tok::Errs(texts(v@)),
    }
}

pub open spec fn listed(m: Option<Seq<char>>) -> Seq<Seq<char>> {
    match m {
        Some(x) => seq![x],
        None => seq![],
    }
}

pub open spec fn tok_of_lexeme(lx: Lexeme) -> Tok {
    match lx {
        Lexeme::Number(s) => Tok::Num(s),
        Lexeme::Word(k, _) => Tok::Word(k),
        _ => Tok::Lf,
    }
}

/// Characters skipped before a token: whitespace other than a line break, and commas.
pub open spec fn is_blank(c: char) -> bool {
    c == ',' || (is_white_space(c) && c != '\n')
}

pub open spec fn in_numeral(c: char) -> bool {
    is_digit(c) || c == '.' || c == 'e' || c == 'E'
}

/// The first position at or after `i` whose character fails `f` (or the end).
pub open spec fn scan(t: Seq<char>, i: int, f: spec_fn(char) -> bool) -> int
    decreases t.len() - i,
{
    if 0 <= i < t.len() && f(t[i]) {
        scan(t, i + 1, f)
    } else {
        i
    }
}

/// The character classes that the lexer scans over: blanks, the rest of a line,
/// and the characters of a numeral.
pub open spec fn class(which: u8) -> spec_fn(char) -> bool {
    if which == 0 {
        |c: char| is_blank(c)
    } else if which == 1 {
        |c: char| c != '\n'
    } else {
        |c: char| in_numeral(c)
    }
}

pub open spec fn skip_blanks(t: Seq<char>, i: int) -> int {
    scan(t, i, class(0))
}

/// The position of the line break that ends the line holding `i`, or the end.
pub open spec fn line_end(t: Seq<char>, i: int) -> int {
    scan(t, i, class(1))
}

/// The start of the line after the one holding `i`, or the end.
pub open spec fn past_line(t: Seq<char>, i: int) -> int {
    let e = line_end(t, i);
    if e < t.len() {
        e + 1
    } else {
        e
    }
}

pub open spec fn digits_end(t: Seq<char>, i: int) -> int {
    scan(t, i, |c: char| is_digit(c))
}

pub open spec fn exponent_from(s: Seq<char>, b: int) -> bool {
    &&& b + 1 < s.len()
    &&& s[b] == 'e' || s[b] == 'E'
    &&& digits_end(s, b + 1) == s.len()
}

/// Digits, optionally a point and digits, optionally `e` or `E` and digits:
/// the unsigned decimal floats that std's float parser accepts.
pub open spec fn is_float_literal(s: Seq<char>) -> bool {
    let a = digits_end(s, 0);
    &&& a >= 1
    &&& a == s.len() || exponent_from(s, a) || (s[a] == '.' && (digits_end(s, a + 1) == s.len()
        || exponent_from(s, digits_end(s, a + 1))))
}

/// The text of each string.
pub open spec fn texts(v: Seq<String>) -> Seq<Seq<char>> {
    v.map_values(|s: String| s@)
}

pub open spec fn number_message(lit: Seq<char>) -> Seq<char> {
    "could not parse number "@ + lit + ""@
}

pub open spec fn text_message(text: Seq<char>) -> Seq<char> {
    "could not parse \""@ + text + "\". ignoring"@
}

/// The keyword and the length of the longest literal of `m` at `s`.
pub open spec fn longest(m: Map<Seq<char>, Keyword>, t: Seq<char>, s: int) -> (Keyword, int) {
    choose|p: (Keyword, int)| #[trigger] is_longest_match(m, t, s, p.0, p.1)
}

/// One step of the lexer from position `pos`: what it yields, where it stops,
/// and the diagnostic it records, if any.
pub open spec fn lex_step(t: Seq<char>, pos: int, m: Map<Seq<char>, Keyword>) -> (
    Lexeme,
    int,
    Option<Seq<char>>,
) {
    let s = skip_blanks(t, pos);
    if s >= t.len() {
        (Lexeme::End, s, None)
    } else if t[s] == '\n' {
        (Lexeme::Lf, s + 1, None)
    } else if t[s] == '#' {
        (Lexeme::Lf, past_line(t, s), None)
    } else if is_digit(t[s]) {
        let e = scan(t, s, class(2));
        let lit = t.subrange(s, e);
        if is_float_literal(lit) {
            (Lexeme::Number(lit), e, None)
        } else {
            (Lexeme::Lf, past_line(t, e), Some(number_message(lit)))
        }
    } else if !no_match(m, t, s) {
        let (kw, n) = longest(m, t, s);
        if kw == Keyword::Then {
            (Lexeme::Lf, s + n, None)
        } else {
            (Lexeme::Word(kw, n as nat), s + n, None)
        }
    } else {
        (Lexeme::Lf, past_line(t, s), Some(text_message(t.subrange(s, line_end(t, s)))))
    }
}

pub proof fn lemma_scan_past(t: Seq<char>, i: int, f: spec_fn(char) -> bool)
    requires
        0 <= i,
    ensures
        scan(t, i, f) >= i,
        i < t.len() && f(t[i]) ==> scan(t, i, f) > i,
    decreases t.len() - i,
{
    if 0 <= i < t.len() && f(t[i]) {
        lemma_scan_past(t, i + 1, f);
    }
}

/// From `pos`, the lexer makes progress or has reached the end.
pub open spec fn advances(t: Seq<char>, pos: int, m: Map<Seq<char>, Keyword>) -> bool {
    let (lx, p, e) = lex_step(t, pos, m);
    0 <= pos <= t.len() && (lx is End || (pos < p && p <= t.len()))
}

/// Every token that the lexer yields from `pos`, with the diagnostics `errs`
/// recorded before: the last token holds all the diagnostics, if there are any.
/// (The lexer always advances; the guard only makes the recursion well founded.)
pub open spec fn stream(
    t: Seq<char>,
    pos: int,
    m: Map<Seq<char>, Keyword>,
    errs: Seq<Seq<char>>,
) -> Seq<Tok>
    decreases t.len() - pos,
{
    let (lx, p, e) = lex_step(t, pos, m);
    if !advances(t, pos, m) {
        seq![]
    } else if lx is End {
        if errs.len() > 0 {
            seq![Tok::Errs(errs)]
        } else {
            seq![]
        }
    } else {
        seq![tok_of_lexeme(lx)] + stream(t, p, m, errs + listed(e))
    }
}

pub proof fn lemma_stream_step(
    t: Seq<char>,
    pos: int,
    m: Map<Seq<char>, Keyword>,
    errs: Seq<Seq<char>>,
)
    requires
        advances(t, pos, m),
        !(lex_step(t, pos, m).0 is End),
    ensures
        stream(t, pos, m, errs) == seq![tok_of_lexeme(lex_step(t, pos, m).0)] + stream(
            t,
            lex_step(t, pos, m).1,
            m,
            errs + listed(lex_step(t, pos, m).2),
        ),
{
}

/// Longest match, as the lexer applies it. Where two literals of a finite map
/// occur where a token starts, the longer does not start with a digit, `#` or a
/// line break, and the shorter is a prefix of it, the lexer takes at least the
/// longer one and never the shorter; where no literal longer still occurs there,
/// it takes exactly the longer one, as its keyword (a line break for the
/// separator).
pub proof fn lemma_lexer_takes_longer(
    t: Seq<char>,
    pos: int,
    m: Map<Seq<char>, Keyword>,
    l1: Seq<char>,
    l2: Seq<char>,
)
    requires
        m.dom().finite(),
        0 <= pos <= t.len(),
        m.contains_key(l1),
        m.contains_key(l2),
        l1.len() < l2.len(),
        l1.is_prefix_of(l2),
        occurs_at(l2, t, skip_blanks(t, pos)),
        !is_digit(l2[0]),
        l2[0] != '#',
        l2[0] != '\n',
    ensures
        lex_step(t, pos, m).1 >= skip_blanks(t, pos) + l2.len(),
        lex_step(t, pos, m).1 != skip_blanks(t, pos) + l1.len(),
        (forall|k: Seq<char>| #[trigger] m.contains_key(k) && occurs_at(k, t, skip_blanks(t, pos))
            ==> k.len() <= l2.len()) ==> lex_step(t, pos, m) == (
            if m[l2] == Keyword::Then {
                Lexeme::Lf
            } else {
                Lexeme::Word(m[l2], l2.len())
            },
            skip_blanks(t, pos) + l2.len(),
            None::<Seq<char>>,
        ),
{
    let s = skip_blanks(t, pos);
    lemma_scan_past(t, pos, class(0));
    assert(t[s] == t.subrange(s, s + l2.len())[0]);
    assert(!no_match(m, t, s));
    lemma_longest_exists(m, t, s);
    let p = longest(m, t, s);
    lemma_longer_literal_wins(m, t, s, l1, l2, p.0, p.1);
}

/// Longest match with the language's keywords: where two of its literals occur
/// where a token starts and the shorter is a prefix of the longer, the lexer
/// takes at least the longer one and never the shorter; where no literal longer
/// still occurs there, it takes exactly the longer one, as its keyword (a line
/// break for the separator).
pub proof fn lemma_standard_takes_longer(t: Seq<char>, pos: int, l1: Seq<char>, l2: Seq<char>)
    requires
        0 <= pos <= t.len(),
        standard_keywords().contains_key(l1),
        standard_keywords().contains_key(l2),
        l1.len() < l2.len(),
        l1.is_prefix_of(l2),
        occurs_at(l2, t, skip_blanks(t, pos)),
    ensures
        lex_step(t, pos, standard_keywords()).1 >= skip_blanks(t, pos) + l2.len(),
        lex_step(t, pos, standard_keywords()).1 != skip_blanks(t, pos) + l1.len(),
        (forall|k: Seq<char>| #[trigger] standard_keywords().contains_key(k) && occurs_at(
            k,
            t,
            skip_blanks(t, pos),
        ) ==> k.len() <= l2.len()) ==> lex_step(t, pos, standard_keywords()) == (
            if standard_keywords()[l2] == Keyword::Then {
                Lexeme::Lf
            } else {
                Lexeme::Word(standard_keywords()[l2], l2.len())
            },
            skip_blanks(t, pos) + l2.len(),
            None::<Seq<char>>,
        ),
{
    lemma_standard_keywords_plain();
    lemma_standard_keywords_finite();
    lemma_lexer_takes_longer(t, pos, standard_keywords(), l1, l2);
}

/// A line that holds only text that no literal matches (it starts with no digit,
/// `#` or line break) costs exactly one diagnostic, which quotes the line, and
/// yields only a line break: lexing goes on at the start of the next line, and
/// the diagnostic joins those handed over at the end.
pub proof fn lemma_unknown_text_skips_line(
    t: Seq<char>,
    pos: int,
    m: Map<Seq<char>, Keyword>,
    errs: Seq<Seq<char>>,
)
    requires
        0 <= pos <= t.len(),
        skip_blanks(t, pos) < t.len(),
        !is_digit(t[skip_blanks(t, pos)]),
        t[skip_blanks(t, pos)] != '#',
        t[skip_blanks(t, pos)] != '\n',
        no_match(m, t, skip_blanks(t, pos)),
    ensures
        ({
            let s = skip_blanks(t, pos);
            lex_step(t, pos, m) == (
                Lexeme::Lf,
                past_line(t, s),
                Some(text_message(t.subrange(s, line_end(t, s)))),
            )
        }),
        line_end(t, skip_blanks(t, pos)) == t.len() || t[line_end(t, skip_blanks(t, pos))] == '\n',
        past_line(t, skip_blanks(t, pos)) > skip_blanks(t, pos),
        stream(t, pos, m, errs) == seq![Tok::Lf] + stream(
            t,
            past_line(t, skip_blanks(t, pos)),
            m,
            errs.push(text_message(t.subrange(skip_blanks(t, pos), line_end(t, skip_blanks(t, pos))))),
        ),
{
    let s = skip_blanks(t, pos);
    lemma_scan_past(t, pos, class(0));
    lemma_scan_past(t, s, class(1));
    lemma_scan_end(t, s, class(1));
    assert(advances(t, pos, m));
    lemma_stream_step(t, pos, m, errs);
    let msg = text_message(t.subrange(s, line_end(t, s)));
    assert(errs + listed(Some(msg)) =~= errs.push(msg));
}

/// A scan stops at the end or at a character that fails the test.
pub proof fn lemma_scan_end(t: Seq<char>, i: int, f: spec_fn(char) -> bool)
    requires
        0 <= i <= t.len(),
    ensures
        scan(t, i, f) <= t.len(),
        scan(t, i, f) == t.len() || !f(t[scan(t, i, f)]),
    decreases t.len() - i,
{
    if i < t.len() && f(t[i]) {
        lemma_scan_end(t, i + 1, f);
    }
}

/// Two longest matches at one position agree.
pub proof fn lemma_longest_unique(
    m: Map<Seq<char>, Keyword>,
    t: Seq<char>,
    s: int,
    k1: Keyword,
    n1: int,
    k2: Keyword,
    n2: int,
)
    requires
        is_longest_match(m, t, s, k1, n1),
        is_longest_match(m, t, s, k2, n2),
    ensures
        n1 == n2,
        k1 == k2,
{
    let a = t.subrange(s, s + n1);
    let b = t.subrange(s, s + n2);
    assert(a.len() <= n2);
    assert(b.len() <= n1);
}

/// A single forward pass over a source text, yielding tokens.
pub struct Lexer {
    src: String,
    text: Vec<char>,
    pos: usize,
    lookup: Lookup,
    errors: Vec<String>,
}

impl Lexer {
    pub closed spec fn wf(&self) -> bool {
        &&& self.text@ == self.src@
        &&& self.pos <= self.text@.len()
        &&& self.lookup.wf()
    }

    /// The source text.
    pub closed spec fn source(&self) -> Seq<char> {
        self.text@
    }

    /// The position of the next character to read.
    pub closed spec fn position(&self) -> int {
        self.pos as int
    }

    pub closed spec fn keywords(&self) -> Map<Seq<char>, Keyword> {
        self.lookup.view()
    }

    /// A measure that every token handed out lowers.
    pub closed spec fn remaining(&self) -> nat {
        (2 * (self.text@.len() - self.pos) + if self.errors@.len() > 0 {
            1int
        } else {
            0int
        }) as nat
    }

    /// The tokens still to come.
    pub closed spec fn rest(&self) -> Seq<Tok> {
        stream(self.text@, self.pos as int, self.lookup.view(), self.pending_errors())
    }

    /// Once the measure is spent, no token is left.
    pub proof fn lemma_spent(&self)
        requires
            self.wf(),
            self.remaining() == 0,
        ensures
            self.rest().len() == 0,
    {
        let t = self.text@;
        let m = self.lookup.view();
        assert(self.pos == t.len());
        assert(skip_blanks(t, self.pos as int) == self.pos);
        assert(advances(t, self.pos as int, m));
    }

    /// The diagnostics recorded and not yet handed over.
    pub closed spec fn pending_errors(&self) -> Seq<Seq<char>> {
        texts(self.errors@)
    }

    /// A lexer over `src` with the language's keywords.
    pub fn new(src: &str) -> (r: Lexer)
        ensures
            r.wf(),
            r.source() == src@,
            r.position() == 0,
            r.pending_errors().len() == 0,
            src@.len() == 0 ==> r.remaining() == 0,
            r.keywords() == standard_keywords(),
            r.rest() == stream(src@, 0, standard_keywords(), seq![]),
    {
        Lexer::with_lookup(src, standard_lookup())
    }

    /// A lexer over `src` that recognises the literals of `lookup`.
    pub fn with_lookup(src: &str, lookup: Lookup) -> (r: Lexer)
        requires
            lookup.wf(),
        ensures
            r.wf(),
            r.source() == src@,
            r.position() == 0,
            r.keywords() == lookup.view(),
            r.pending_errors().len() == 0,
            src@.len() == 0 ==> r.remaining() == 0,
            r.rest() == stream(src@, 0, lookup.view(), seq![]),
    {
        let r = Lexer {
            src: String::from_str(src),
            text: chars_of(src),
            pos: 0,
            lookup,
            errors: Vec::new(),
        };
        assert(r.pending_errors() =~= seq![]);
        r
    }

    fn skip_to(&self, from: usize, which: u8) -> (r: usize)
        requires
            from <= self.text@.len(),
            which <= 2,
        ensures
            r == scan(self.text@, from as int, class(which)),
            from <= r <= self.text@.len(),
    {
        let mut i = from;
        while i < self.text.len()
            invariant
                from <= i <= self.text@.len(),
                scan(self.text@, from as int, class(which)) == scan(self.text@, i as int, class(which)),
                which <= 2,
            decreases self.text@.len() - i,
        {
            let c = self.text[i];
            let go = if which == 0 {
                c == ',' || (white_space(c) && c != '\n')
            } else if which == 1 {
                c != '\n'
            } else {
                ('0' <= c && c <= '9') || c == '.' || c == 'e' || c == 'E'
            };
            if !go {
                return i;
            }
            i = i + 1;
        }
        i
    }

    /// The position after the line that holds `from`.
    fn past_line_from(&self, from: usize) -> (r: usize)
        requires
            from <= self.text@.len(),
        ensures
            r == past_line(self.text@, from as int),
            from <= r <= self.text@.len(),
            from < self.text@.len() ==> from < r,
    {
        let e = self.skip_to(from, 1);
        if e < self.text.len() {
            e + 1
        } else {
            e
        }
    }

    /// The next token, or `None` once the input and the diagnostics are exhausted.
    pub fn next(&mut self) -> (r: Option<Token>)
        requires
            old(self).wf(),
        ensures
            final(self).wf(),
            final(self).source() == old(self).source(),
            final(self).keywords() == old(self).keywords(),
            r is Some ==> final(self).remaining() < old(self).remaining(),
            r is None ==> final(self).remaining() == 0,
            old(self).remaining() == 0 ==> r is None,
            old(self).rest() == match r {
                Some(t) => seq![tok_of(t)] + final(self).rest(),
                None => final(self).rest(),
            },
            r is None ==> final(self).rest().len() == 0,
            r matches Some(Token::Number(n)) ==> is_float_literal(n@),
            ({
                let (lx, p, err) = lex_step(old(self).source(), old(self).position(), old(self).keywords());
                &&& final(self).position() == p
                &&& lx is End ==> {
                    &&& old(self).pending_errors().len() == 0 ==> r is None
                    &&& old(self).pending_errors().len() > 0 ==> (r matches Some(Token::Errors(v))
                        && texts(v@) == old(self).pending_errors())
                    &&& final(self).pending_errors().len() == 0
                }
                &&& !(lx is End) ==> {
                    &&& (r matches Some(t) && lexeme_of(t) == lx && !(t is Errors))
                    &&& err is None ==> final(self).pending_errors() == old(self).pending_errors()
                    &&& err matches Some(e) ==> final(self).pending_errors() == old(
                        self,
                    ).pending_errors().push(e)
                }
            }),
    {
        let ghost t = self.text@;
        let ghost m = self.lookup.view();
        let ghost errs = self.pending_errors();
        let ghost pos0 = self.pos as int;
        let s = self.skip_to(self.pos, 0);
        if s >= self.text.len() {
            self.pos = s;
            proof {
                assert(skip_blanks(t, s as int) == s);
                assert(advances(t, s as int, m));
                assert(advances(t, pos0, m));
            }
            if self.errors.len() == 0 {
                assert(self.rest() =~= seq![]);
                return None;
            }
            let mut taken: Vec<String> = Vec::new();
            std::mem::swap(&mut taken, &mut self.errors);
            proof {
                assert(self.pending_errors() =~= seq![]);
                assert(self.rest() =~= seq![]);
                assert(seq![tok_of(Token::Errors(taken))] + self.rest() =~= seq![Tok::Errs(errs)]);
            }
            return Some(Token::Errors(taken));
        }
        let c = self.text[s];
        let r = if c == '\n' {
            self.pos = s + 1;
            Some(Token::Lf)
        } else if c == '#' {
            self.pos = self.past_line_from(s);
            Some(Token::Lf)
        } else if '0' <= c && c <= '9' {
            let e = self.skip_to(s, 2);
            proof {
                lemma_scan_past(t, s as int, class(2));
            }
            let lit = self.src.as_str().substring_char(s, e);
            if float_literal(&self.text, s, e) {
                self.pos = e;
                Some(Token::Number(String::from_str(lit)))
            } else {
                self.errors.push(concat3("could not parse number ", lit, ""));
                self.pos = self.past_line_from(e);
                Some(Token::Lf)
            }
        } else {
            match self.lookup.longest_match(&self.text, s) {
                Some((kw, n)) => {
                    proof {
                        assert(!no_match(self.lookup.view(), t, s as int)) by {
                            let k = t.subrange(s as int, s + n);
                            assert(self.lookup.view().contains_key(k));
                            assert(k.len() == n);
                        }
                        assert(is_longest_match(self.lookup.view(), t, s as int, (kw, n as int).0, (kw, n as int).1));
                        let p = longest(self.lookup.view(), t, s as int);
                        lemma_longest_unique(self.lookup.view(), t, s as int, kw, n as int, p.0, p.1);
                    }
                    self.pos = s + n;
                    if kw == Keyword::Then {
                        Some(Token::Lf)
                    } else {
                        Some(Token::Int(kw, n))
                    }
                },
                None => {
                    let le = self.skip_to(s, 1);
                    let rest = self.src.as_str().substring_char(s, le);
                    self.errors.push(concat3("could not parse \"", rest, "\". ignoring"));
                    self.pos = self.past_line_from(s);
                    Some(Token::Lf)
                },
            }
        };
        proof {
            let (lx, p, e) = lex_step(t, pos0, m);
            assert(advances(t, pos0, m));
            assert(self.pending_errors() =~= errs + listed(e));
            assert(tok_of(r.unwrap()) == tok_of_lexeme(lx));
            assert(self.pos == p);
            assert(self.rest() == stream(t, p, m, errs + listed(e)));
            assert(s == skip_blanks(t, pos0));
            assert(!(lx is End));
            assert(old(self).rest() == stream(t, pos0, m, errs));
            lemma_stream_step(t, pos0, m, errs);
            assert(old(self).rest() == seq![tok_of_lexeme(lx)] + stream(t, p, m, errs + listed(e)));
        }
        r
    }
}

/// Whether `t[s..e]` has the shape of a decimal float.
fn float_literal(t: &Vec<char>, s: usize, e: usize) -> (r: bool)
    requires
        s <= e <= t@.len(),
    ensures
        r == is_float_literal(t@.subrange(s as int, e as int)),
{
    let ghost lit = t@.subrange(s as int, e as int);
    let a = digits_from(t, s, e);
    if a == s {
        return false;
    }
    if a == e {
        return true;
    }
    if exponent_at(t, s, a, e) {
        return true;
    }
    if t[a] != '.' {
        return false;
    }
    let b = digits_from(t, a + 1, e);
    b == e || exponent_at(t, s, b, e)
}

/// The end of the run of digits of `t[s..e]` that starts at `from`, as a position in `t`.
fn digits_from(t: &Vec<char>, from: usize, e: usize) -> (r: usize)
    requires
        from <= e <= t@.len(),
    ensures
        from <= r <= e,
        forall|s: int|
            0 <= s <= from ==> r - s == digits_end(
                #[trigger] t@.subrange(s, e as int),
                from - s,
            ),
{
    let mut i = from;
    while i < e
        invariant
            from <= i <= e <= t@.len(),
            forall|s: int|
                0 <= s <= from ==> digits_end(#[trigger] t@.subrange(s, e as int), from - s)
                    == digits_end(t@.subrange(s, e as int), i - s),
            forall|j: int| from <= j < i ==> is_digit(t@[j]),
        decreases e - i,
    {
        let c = t[i];
        if !('0' <= c && c <= '9') {
            return i;
        }
        i = i + 1;
    }
    i
}

fn exponent_at(t: &Vec<char>, s: usize, b: usize, e: usize) -> (r: bool)
    requires
        s <= b <= e <= t@.len(),
    ensures
        r == exponent_from(t@.subrange(s as int, e as int), b - s),
{
    if b >= e || e - b < 2 {
        return false;
    }
    if t[b] != 'e' && t[b] != 'E' {
        return false;
    }
    let d = digits_from(t, b + 1, e);
    d == e
}

} // verus!
