use vstd::prelude::*;
use vstd::string::*;

use crate::builtin::standard_keywords;
use crate::keywords::{Keyword, Lookup};
use crate::lexer::{is_float_literal, listed, stream, texts, tok_of, Lexer, Tok, Token};
use crate::text::concat3;
use crate::{Amount, Command, Scale, Unit};

verus! {

/// The unit that a keyword names, if it names one.
pub open spec fn unit_of(kw: Keyword) -> Option<Unit> {
    match kw {
        Keyword::Cm => Some(Unit::Cm),
        Keyword::In => Some(Unit::In),
        Keyword::Deg => Some(Unit::Deg),
        Keyword::Rad => Some(Unit::Rad),
        _ => None,
    }
}

/// How a distance written in `unit` becomes centimetres; no unit means centimetres.
pub open spec fn distance_scale(unit: Option<Unit>) -> Scale {
    match unit {
        Some(Unit::In) => Scale::InchesToCentimeters,
        _ => Scale::One,
    }
}

/// The diagnostic for a distance written in `unit`: none unless it is an angle unit.
pub open spec fn distance_error(unit: Option<Unit>) -> Option<Seq<char>> {
    match unit {
        Some(Unit::Deg) => Some("cannot convert degrees to centimeters"@),
        Some(Unit::Rad) => Some("cannot convert radians to centimeters"@),
        _ => None,
    }
}

/// How an angle written in `unit` becomes degrees; no unit means degrees.
pub open spec fn angle_scale(unit: Option<Unit>) -> Scale {
    match unit {
        Some(Unit::Rad) => Scale::RadiansToDegrees,
        _ => Scale::One,
    }
}

/// The diagnostic for an angle written in `unit`: none unless it is a length unit.
pub open spec fn angle_error(unit: Option<Unit>) -> Option<Seq<char>> {
    match unit {
        Some(Unit::Cm) => Some("cannot convert centimeters to degrees"@),
        Some(Unit::In) => Some("cannot convert inches to degrees"@),
        _ => None,
    }
}

/// The amount that a command carries, if it carries one.
pub open spec fn amount_of(c: Command) -> Option<Amount> {
    match c {
        Command::MoveForward(a) => Some(a),
        Command::MoveBackward(a) => Some(a),
        Command::RotateRight(a) => Some(a),
        Command::RotateLeft(a) => Some(a),
        Command::FrontArmUp(a) => Some(a),
        Command::FrontArmDown(a) => Some(a),
        Command::BackArmUp(a) => Some(a),
        Command::BackArmDown(a) => Some(a),
        Command::PyDebug => None,
        Command::Nop => None,
    }
}

/// The number of every amount of the command is a well-formed float literal.
pub open spec fn well_formed(c: Command) -> bool {
    amount_of(c) matches Some(a) ==> is_float_literal(a.number@)
}

pub open spec fn message_matches(r: Option<String>, m: Option<Seq<char>>) -> bool {
    match r {
        None => m is None,
        Some(s) => m == Some(s@),
    }
}

/// A distance: `number` in `unit`, as an amount of centimetres. An angle unit is
/// reported, and the number is then kept as it is.
pub fn to_centimeters(number: String, unit: Option<Unit>) -> (r: (Amount, Option<String>))
    ensures
        r.0.number@ == number@,
        r.0.scale == distance_scale(unit),
        message_matches(r.1, distance_error(unit)),
{
    match unit {
        Some(Unit::In) => (Amount { number, scale: Scale::InchesToCentimeters }, None),
        Some(Unit::Deg) => (
            Amount { number, scale: Scale::One },
            Some(String::from_str("cannot convert degrees to centimeters")),
        ),
        Some(Unit::Rad) => (
            Amount { number, scale: Scale::One },
            Some(String::from_str("cannot convert radians to centimeters")),
        ),
        _ => (Amount { number, scale: Scale::One }, None),
    }
}

/// An angle: `number` in `unit`, as an amount of degrees. A length unit is
/// reported, and the number is then kept as it is.
pub fn to_degrees(number: String, unit: Option<Unit>) -> (r: (Amount, Option<String>))
    ensures
        r.0.number@ == number@,
        r.0.scale == angle_scale(unit),
        message_matches(r.1, angle_error(unit)),
{
    match unit {
        Some(Unit::Rad) => (Amount { number, scale: Scale::RadiansToDegrees }, None),
        Some(Unit::Cm) => (
            Amount { number, scale: Scale::One },
            Some(String::from_str("cannot convert centimeters to degrees")),
        ),
        Some(Unit::In) => (
            Amount { number, scale: Scale::One },
            Some(String::from_str("cannot convert inches to degrees")),
        ),
        _ => (Amount { number, scale: Scale::One }, None),
    }
}

/// What a statement comes to.
pub enum Outcome {
    /// No token is left.
    End,
    /// A blank or malformed statement: no command.
    Skipped,
    Debug,
    /// A command keyword, its number and the unit written after it.
    Move(Keyword, Seq<char>, Option<Unit>),
}

pub open spec fn is_distance(kw: Keyword) -> bool {
    kw == Keyword::MoveForward || kw == Keyword::MoveBackward
}

pub open spec fn takes_number(kw: Keyword) -> bool {
    is_distance(kw) || kw == Keyword::RotateLeft || kw == Keyword::RotateRight || kw
        == Keyword::ArmFrontUp || kw == Keyword::ArmFrontDown || kw == Keyword::ArmBackUp || kw
        == Keyword::ArmBackDown
}

pub open spec fn expected_message(kw: Keyword) -> Seq<char> {
    match kw {
        Keyword::MoveForward => "expected number after \"move forward\". ignoring"@,
        Keyword::MoveBackward => "expected number after \"move backwards\". ignoring"@,
        Keyword::RotateLeft => "expected number after \"rotate left\". ignoring"@,
        Keyword::RotateRight => "expected number after \"rotate right\". ignoring"@,
        Keyword::ArmFrontUp => "expected number after \"front arm up\". ignoring"@,
        Keyword::ArmFrontDown => "expected number after \"front arm down\". ignoring"@,
        Keyword::ArmBackUp => "expected number after \"back arm up\". ignoring"@,
        _ => "expected number after \"back arm down\". ignoring"@,
    }
}

pub open spec fn unexpected_unit_message(kw: Keyword) -> Seq<char> {
    match kw {
        Keyword::Cm => "unexpected \"cm\", ignoring"@,
        Keyword::In => "unexpected \"in\", ignoring"@,
        Keyword::Deg => "unexpected \"deg\", ignoring"@,
        _ => "unexpected \"rad\", ignoring"@,
    }
}

pub open spec fn unexpected_number_message(n: Seq<char>) -> Seq<char> {
    "unexpected number "@ + n + ", ignoring"@
}

/// The diagnostics of converting a number in `u` for command `kw`.
pub open spec fn conversion_messages(kw: Keyword, u: Option<Unit>) -> Seq<Seq<char>> {
    if is_distance(kw) {
        listed(distance_error(u))
    } else {
        listed(angle_error(u))
    }
}

/// The unit token that may follow a number: what it is, how many tokens it
/// takes, and the diagnostics it brings.
pub open spec fn suffix_of(s: Seq<Tok>) -> (Option<Unit>, int, Seq<Seq<char>>) {
    if s.len() == 0 {
        (None, 0, seq![])
    } else {
        match s[0] {
            Tok::Word(k) => if unit_of(k) is Some {
                (unit_of(k), 1, seq![])
            } else {
                (None, 0, seq![])
            },
            Tok::Errs(v) => (None, 1, v),
            _ => (None, 0, seq![]),
        }
    }
}

/// A number after any line breaks, with its unit, if the tokens start so.
pub open spec fn number_of(s: Seq<Tok>) -> (Option<(Seq<char>, Option<Unit>)>, int, Seq<Seq<char>>)
    decreases s.len(),
{
    if s.len() == 0 {
        (None, 0, seq![])
    } else {
        match s[0] {
            Tok::Lf => {
                let (o, k, d) = number_of(s.drop_first());
                (o, k + 1, d)
            },
            Tok::Num(n) => {
                let (u, k, d) = suffix_of(s.drop_first());
                (Some((n, u)), k + 1, d)
            },
            Tok::Word(_) => (None, 1, seq![]),
            Tok::Errs(v) => (None, 1, v),
        }
    }
}

/// How many tokens the rest of a line takes: up to and including its line
/// break, and not past a batch of diagnostics or the end.
pub open spec fn line_rest(s: Seq<Tok>) -> int
    decreases s.len(),
{
    if s.len() == 0 {
        0
    } else {
        match s[0] {
            Tok::Lf => 1,
            Tok::Errs(_) => 0,
            _ => 1 + line_rest(s.drop_first()),
        }
    }
}

/// Tokens that are neither a line break nor a batch of diagnostics leave the
/// rest of the line to what follows them.
pub proof fn lemma_line_rest_prefix(c: Seq<Tok>, ext: Seq<Tok>)
    requires
        forall|j: int| 0 <= j < c.len() ==> !(#[trigger] c[j] is Lf) && !(c[j] is Errs),
    ensures
        line_rest(c + ext) == c.len() + line_rest(ext),
    decreases c.len(),
{
    if c.len() > 0 {
        assert((c + ext).drop_first() =~= c.drop_first() + ext);
        assert((c + ext)[0] == c[0]);
        lemma_line_rest_prefix(c.drop_first(), ext);
    } else {
        assert(c + ext =~= ext);
    }
}

/// The first statement of `s`: what it comes to, how many tokens it takes, and
/// its diagnostics.
pub open spec fn statement(s: Seq<Tok>) -> (Outcome, int, Seq<Seq<char>>) {
    if s.len() == 0 {
        (Outcome::End, 0, seq![])
    } else {
        match s[0] {
            Tok::Lf => (Outcome::Skipped, 1, seq![]),
            Tok::Num(n) => (
                Outcome::Skipped,
                1 + line_rest(s.drop_first()),
                seq![unexpected_number_message(n)],
            ),
            Tok::Errs(v) => (Outcome::Skipped, 1, v),
            Tok::Word(kw) => if kw == Keyword::Then {
                (Outcome::Skipped, 1, seq![])
            } else if unit_of(kw) is Some {
                (Outcome::Skipped, 1 + line_rest(s.drop_first()), seq![unexpected_unit_message(kw)])
            } else if kw == Keyword::Debug {
                (Outcome::Debug, 1, seq![])
            } else {
                let (o, k, d) = number_of(s.drop_first());
                match o {
                    Some((n, u)) => (Outcome::Move(kw, n, u), k + 1, d + conversion_messages(kw, u)),
                    None => (Outcome::Skipped, k + 1, d.push(expected_message(kw))),
                }
            },
        }
    }
}

/// Statements of `s` up to the first that is not skipped: what that one comes
/// to, and the diagnostics of all of them.
pub open spec fn run(s: Seq<Tok>) -> (Outcome, int, Seq<Seq<char>>)
    decreases s.len(),
{
    let (o, k, d) = statement(s);
    if o is Skipped && 0 < k <= s.len() {
        let (o2, k2, d2) = run(s.subrange(k, s.len() as int));
        (o2, k + k2, d + d2)
    } else {
        (o, k, d)
    }
}

/// Every statement of `s`: what each that is not skipped comes to, and all the
/// diagnostics.
pub open spec fn program(s: Seq<Tok>) -> (Seq<Outcome>, Seq<Seq<char>>)
    decreases s.len(),
{
    let (o, k, d) = run(s);
    if o is End || k <= 0 || k > s.len() {
        (seq![], d)
    } else {
        let (os, ds) = program(s.subrange(k, s.len() as int));
        (seq![o] + os, d + ds)
    }
}

pub proof fn lemma_line_rest_bounds(s: Seq<Tok>)
    ensures
        0 <= line_rest(s) <= s.len(),
    decreases s.len(),
{
    if s.len() > 0 {
        lemma_line_rest_bounds(s.drop_first());
    }
}

pub proof fn lemma_number_bounds(s: Seq<Tok>)
    ensures
        0 <= number_of(s).1 <= s.len(),
    decreases s.len(),
{
    if s.len() > 0 {
        lemma_number_bounds(s.drop_first());
    }
}

/// A statement takes at least one token unless none is left, and no more than
/// there are; so does a run of statements that ends in a command.
pub proof fn lemma_run_bounds(s: Seq<Tok>)
    ensures
        0 <= run(s).1 <= s.len(),
        !(run(s).0 is End) ==> run(s).1 >= 1,
    decreases s.len(),
{
    if s.len() > 0 {
        lemma_line_rest_bounds(s.drop_first());
        lemma_number_bounds(s.drop_first());
        let (o, k, d) = statement(s);
        assert(1 <= k <= s.len());
        if o is Skipped {
            lemma_run_bounds(s.subrange(k, s.len() as int));
        }
    }
}

/// The command keyword of a command.
pub open spec fn keyword_of(c: Command) -> Keyword {
    match c {
        Command::MoveForward(_) => Keyword::MoveForward,
        Command::MoveBackward(_) => Keyword::MoveBackward,
        Command::RotateRight(_) => Keyword::RotateRight,
        Command::RotateLeft(_) => Keyword::RotateLeft,
        Command::FrontArmUp(_) => Keyword::ArmFrontUp,
        Command::FrontArmDown(_) => Keyword::ArmFrontDown,
        Command::BackArmUp(_) => Keyword::ArmBackUp,
        Command::BackArmDown(_) => Keyword::ArmBackDown,
        Command::PyDebug => Keyword::Debug,
        Command::Nop => Keyword::Then,
    }
}

/// `r` is what a statement that comes to `o` yields.
pub open spec fn describes(r: Option<Command>, o: Outcome) -> bool {
    match o {
        Outcome::End => r is None,
        Outcome::Skipped => false,
        Outcome::Debug => r matches Some(Command::PyDebug),
        Outcome::Move(kw, n, u) => match r {
            Some(c) => keyword_of(c) == kw && (amount_of(c) matches Some(a) && a.number@ == n
                && a.scale == if is_distance(kw) {
                distance_scale(u)
            } else {
                angle_scale(u)
            }),
            None => false,
        },
    }
}

/// The tokens of `b` after its prefix `a`.
pub open spec fn since(a: Seq<Tok>, b: Seq<Tok>) -> Seq<Tok> {
    b.subrange(a.len() as int, b.len() as int)
}

/// Turns the token stream of one source text into commands, recovering from a
/// malformed statement by going on with the next one.
pub struct Parser {
    lexer: Lexer,
    pending: Option<Token>,
    errors: Vec<String>,
    taken: Ghost<Seq<Tok>>,
    all: Ghost<Seq<Tok>>,
}

impl Parser {
    pub closed spec fn wf(&self) -> bool {
        &&& self.lexer.wf()
        &&& self.pending matches Some(Token::Number(n)) ==> is_float_literal(n@)
        &&& self.taken@ + self.pending_tokens() + self.lexer.rest() == self.all@
    }

    pub closed spec fn pending_tokens(&self) -> Seq<Tok> {
        match self.pending {
            Some(t) => seq![tok_of(t)],
            None => seq![],
        }
    }

    /// Every token of the source text, taken or not.
    pub closed spec fn all_tokens(&self) -> Seq<Tok> {
        self.all@
    }

    /// The literals that the parser's lexer recognises.
    pub closed spec fn keywords(&self) -> Map<Seq<char>, Keyword> {
        self.lexer.keywords()
    }

    /// A measure that every token taken lowers.
    pub closed spec fn remaining(&self) -> nat {
        2 * self.lexer.remaining() + if self.pending is Some {
            1nat
        } else {
            0nat
        }
    }

    /// Every token has been taken.
    pub closed spec fn exhausted(&self) -> bool {
        self.remaining() == 0
    }

    /// The diagnostics recorded so far.
    pub closed spec fn diagnostics(&self) -> Seq<String> {
        self.errors@
    }

    /// The text of each diagnostic recorded so far.
    pub open spec fn messages(&self) -> Seq<Seq<char>> {
        texts(self.diagnostics())
    }

    /// The tokens taken so far.
    pub closed spec fn taken(&self) -> Seq<Tok> {
        self.taken@
    }

    /// `ext` can be what the tokens still to come start with: it starts with the
    /// token looked at, if any, and is empty once every token has been taken.
    pub closed spec fn may_follow(&self, ext: Seq<Tok>) -> bool {
        match self.pending {
            Some(t) => ext.len() > 0 && ext[0] == tok_of(t),
            None => self.lexer.remaining() == 0 ==> ext.len() == 0,
        }
    }

    /// The tokens still to come are the rest of the source text's tokens: they
    /// may follow what has been taken.
    pub proof fn lemma_rest_follows(&self)
        requires
            self.wf(),
        ensures
            self.taken().is_prefix_of(self.all_tokens()),
            self.may_follow(since(self.taken(), self.all_tokens())),
    {
        let t = self.taken@;
        let rest = self.pending_tokens() + self.lexer.rest();
        assert(self.all@ =~= t + rest);
        assert(self.all@.subrange(0, t.len() as int) =~= t);
        assert(since(t, self.all@) =~= rest);
        if self.pending is None && self.lexer.remaining() == 0 {
            self.lexer.lemma_spent();
        }
    }

    /// A misplaced number or unit word, reported with `dg` and followed by the
    /// rest of its line, is one skipped statement. `a` is the parser before the
    /// word was taken, `b` after, `p2` after the report, `p3` after the skip.
    proof fn lemma_skipped_line(a: Parser, b: Parser, p2: Parser, p3: Parser, tk: Tok, dg: Seq<Seq<char>>)
        requires
            (tk matches Tok::Num(n) && dg == seq![unexpected_number_message(n)]) || (
            tk matches Tok::Word(kw) && kw != Keyword::Then && unit_of(kw) is Some && dg
                == seq![unexpected_unit_message(kw)]),
            b.taken() == a.taken().push(tk),
            b.errors == a.errors,
            forall|ext: Seq<Tok>| #[trigger] b.may_follow(ext) ==> a.may_follow(seq![tk] + ext),
            p2.taken() == b.taken(),
            forall|ext: Seq<Tok>| #[trigger] p2.may_follow(ext) == b.may_follow(ext),
            p2.messages() == b.messages() + dg,
            p3.errors == p2.errors,
            p2.taken().is_prefix_of(p3.taken()),
            forall|ext: Seq<Tok>| #[trigger] p3.may_follow(ext) ==> ({
                let c = since(p2.taken(), p3.taken());
                &&& p2.may_follow(c + ext)
                &&& line_rest(c + ext) == c.len()
            }),
        ensures
            p3.taken() == a.taken() + (seq![tk] + since(p2.taken(), p3.taken())),
            p3.messages() == a.messages() + dg,
            forall|ext: Seq<Tok>| #[trigger] p3.may_follow(ext) ==> ({
                let g = seq![tk] + since(p2.taken(), p3.taken());
                &&& a.may_follow(g + ext)
                &&& statement(g + ext) == (Outcome::Skipped, g.len() as int, dg)
            }),
    {
        let c = since(p2.taken(), p3.taken());
        let g = seq![tk] + c;
        assert(p3.taken() =~= p2.taken() + c);
        assert(p3.taken() =~= a.taken() + g);
        assert(p3.messages() == p2.messages());
        assert forall|ext: Seq<Tok>| #[trigger] p3.may_follow(ext) implies ({
            &&& a.may_follow(g + ext)
            &&& statement(g + ext) == (Outcome::Skipped, g.len() as int, dg)
        }) by {
            assert(p2.may_follow(c + ext));
            assert(b.may_follow(c + ext));
            assert(g + ext =~= seq![tk] + (c + ext));
            assert((g + ext)[0] == tk);
            assert((g + ext).drop_first() =~= c + ext);
        }
    }

    /// Once every token has been taken, nothing more can follow.
    pub proof fn lemma_exhausted_follow(&self)
        requires
            self.exhausted(),
        ensures
            self.may_follow(seq![]),
            forall|ext: Seq<Tok>| #[trigger] self.may_follow(ext) ==> ext.len() == 0,
    {
    }

    /// A parser over `src` with the language's keywords.
    pub fn new(src: &str) -> (r: Parser)
        ensures
            r.wf(),
            r.diagnostics().len() == 0,
            r.taken().len() == 0,
            r.keywords() == standard_keywords(),
            r.all_tokens() == stream(src@, 0, standard_keywords(), seq![]),
            src@.len() == 0 ==> r.exhausted(),
    {
        let lexer = Lexer::new(src);
        let ghost all = lexer.rest();
        let r = Parser {
            lexer,
            pending: None,
            errors: Vec::new(),
            taken: Ghost(Seq::empty()),
            all: Ghost(all),
        };
        assert(r.taken@ + r.pending_tokens() + r.lexer.rest() =~= r.all@);
        r
    }

    /// A parser over `src` with the literals of `lookup`.
    pub fn with_lookup(src: &str, lookup: Lookup) -> (r: Parser)
        requires
            lookup.wf(),
        ensures
            r.wf(),
            r.diagnostics().len() == 0,
            r.taken().len() == 0,
            r.keywords() == lookup.view(),
            r.all_tokens() == stream(src@, 0, lookup.view(), seq![]),
    {
        let lexer = Lexer::with_lookup(src, lookup);
        let ghost all = lexer.rest();
        let r = Parser {
            lexer,
            pending: None,
            errors: Vec::new(),
            taken: Ghost(Seq::empty()),
            all: Ghost(all),
        };
        assert(r.taken@ + r.pending_tokens() + r.lexer.rest() =~= r.all@);
        r
    }

    /// Whether a token is left; it is then held as the lookahead.
    fn peek(&mut self) -> (r: bool)
        requires
            old(self).wf(),
        ensures
            final(self).wf(),
            final(self).all_tokens() == old(self).all_tokens(),
            final(self).keywords() == old(self).keywords(),
            final(self).remaining() <= old(self).remaining(),
            final(self).errors == old(self).errors,
            final(self).taken() == old(self).taken(),
            r <==> final(self).pending is Some,
            !r ==> final(self).exhausted(),
            old(self).exhausted() ==> !r,
            old(self).pending is Some ==> final(self).pending == old(self).pending,
            forall|ext: Seq<Tok>| #[trigger] final(self).may_follow(ext) ==> old(self).may_follow(ext),
    {
        if self.pending.is_none() {
            self.pending = self.lexer.next();
            assert(self.taken@ + self.pending_tokens() + self.lexer.rest() =~= old(self).taken@ + old(
                self,
            ).pending_tokens() + old(self).lexer.rest());
        }
        self.pending.is_some()
    }

    /// The next token, if one is left.
    fn take(&mut self) -> (r: Option<Token>)
        requires
            old(self).wf(),
        ensures
            final(self).wf(),
            final(self).all_tokens() == old(self).all_tokens(),
            final(self).keywords() == old(self).keywords(),
            final(self).errors == old(self).errors,
            r is Some ==> final(self).remaining() < old(self).remaining(),
            r is None ==> final(self).exhausted(),
            final(self).remaining() <= old(self).remaining(),
            old(self).exhausted() ==> r is None,
            r matches Some(Token::Number(n)) ==> is_float_literal(n@),
            r is None ==> final(self).taken() == old(self).taken(),
            r is None ==> forall|ext: Seq<Tok>| #[trigger] final(self).may_follow(ext) ==> ext.len()
                == 0 && old(self).may_follow(ext),
            r matches Some(t) ==> final(self).taken() == old(self).taken().push(tok_of(t)),
            old(self).pending is Some ==> r == old(self).pending,
            r matches Some(t) ==> forall|ext: Seq<Tok>| #[trigger] final(self).may_follow(ext)
                ==> old(self).may_follow(seq![tok_of(t)] + ext),
    {
        self.peek();
        let ghost mid = *self;
        let r = self.pending.take();
        proof {
            if let Some(t) = &r {
                assert(mid.pending == Some(*t));
                self.taken@ = self.taken@.push(tok_of(*t));
                assert(self.taken@ + self.pending_tokens() + self.lexer.rest() =~= mid.taken@
                    + mid.pending_tokens() + mid.lexer.rest());
                assert forall|ext: Seq<Tok>| #[trigger] self.may_follow(ext) implies old(self).may_follow(
                    seq![tok_of(*t)] + ext,
                ) by {
                    assert((seq![tok_of(*t)] + ext)[0] == tok_of(*t));
                    assert(mid.may_follow(seq![tok_of(*t)] + ext));
                }
            }
        }
        r
    }

    fn add_message(&mut self, m: &str)
        requires
            old(self).wf(),
        ensures
            old(self).diagnostics().is_prefix_of(final(self).diagnostics()),
            final(self).wf(),
            final(self).all_tokens() == old(self).all_tokens(),
            final(self).keywords() == old(self).keywords(),
            final(self).remaining() == old(self).remaining(),
            final(self).taken() == old(self).taken(),
            forall|ext: Seq<Tok>| #[trigger] final(self).may_follow(ext) == old(self).may_follow(ext),
            final(self).messages() == old(self).messages().push(m@),
    {
        self.errors.push(String::from_str(m));
        assert(self.messages() =~= old(self).messages().push(m@));
    }

    fn add_errors(&mut self, more: Vec<String>)
        requires
            old(self).wf(),
        ensures
            old(self).diagnostics().is_prefix_of(final(self).diagnostics()),
            final(self).wf(),
            final(self).all_tokens() == old(self).all_tokens(),
            final(self).keywords() == old(self).keywords(),
            final(self).remaining() == old(self).remaining(),
            final(self).taken() == old(self).taken(),
            forall|ext: Seq<Tok>| #[trigger] final(self).may_follow(ext) == old(self).may_follow(ext),
            final(self).messages() == old(self).messages() + texts(more@),
    {
        let ghost m = more@;
        let mut more = more;
        self.errors.append(&mut more);
        assert(self.messages() =~= old(self).messages() + texts(m));
    }

    /// Takes the rest of the current line, its line break included; stops before
    /// a batch of diagnostics.
    fn skip_line(&mut self)
        requires
            old(self).wf(),
        ensures
            final(self).wf(),
            final(self).all_tokens() == old(self).all_tokens(),
            final(self).keywords() == old(self).keywords(),
            final(self).remaining() <= old(self).remaining(),
            final(self).errors == old(self).errors,
            old(self).taken().is_prefix_of(final(self).taken()),
            forall|ext: Seq<Tok>| #[trigger] final(self).may_follow(ext) ==> ({
                let c = since(old(self).taken(), final(self).taken());
                &&& old(self).may_follow(c + ext)
                &&& line_rest(c + ext) == c.len()
            }),
    {
        let ghost t0 = self.taken();
        proof {
            lemma_prefix_refl(t0);
            assert forall|ext: Seq<Tok>| #[trigger] self.may_follow(ext) implies old(self).may_follow(
                since(t0, self.taken()) + ext,
            ) by {
                assert(since(t0, self.taken()) + ext =~= ext);
            }
        }
        loop
            invariant
                self.wf(),
                self.all_tokens() == old(self).all_tokens(),
                self.keywords() == old(self).keywords(),
                self.remaining() <= old(self).remaining(),
                self.errors == old(self).errors,
                t0 == old(self).taken(),
                t0.is_prefix_of(self.taken()),
                forall|j: int|
                    t0.len() <= j < self.taken().len() ==> !(#[trigger] self.taken()[j] is Lf)
                        && !(self.taken()[j] is Errs),
                forall|ext: Seq<Tok>| #[trigger] self.may_follow(ext) ==> old(self).may_follow(
                    since(t0, self.taken()) + ext,
                ),
            decreases self.remaining(),
        {
            let ghost c = since(t0, self.taken());
            proof {
                assert forall|j: int| 0 <= j < c.len() implies !(#[trigger] c[j] is Lf) && !(
                c[j] is Errs) by {
                    assert(c[j] == self.taken()[t0.len() + j]);
                }
            }
            if !self.peek() {
                proof {
                    assert forall|ext: Seq<Tok>| #[trigger] self.may_follow(ext) implies line_rest(
                        since(t0, self.taken()) + ext,
                    ) == since(t0, self.taken()).len() by {
                        lemma_line_rest_prefix(c, ext);
                    }
                }
                return;
            }
            let stop: u8 = match &self.pending {
                Some(Token::Lf) => 1,
                Some(Token::Errors(_)) => 2,
                _ => 0,
            };
            if stop == 2 {
                proof {
                    assert forall|ext: Seq<Tok>| #[trigger] self.may_follow(ext) implies line_rest(
                        since(t0, self.taken()) + ext,
                    ) == since(t0, self.taken()).len() by {
                        lemma_line_rest_prefix(c, ext);
                    }
                }
                return;
            }
            let ghost t1 = self.taken();
            let t = self.take();
            proof {
                let tk = tok_of(t.unwrap());
                assert(self.taken() == t1.push(tk));
                assert(since(t0, self.taken()) =~= c.push(tk));
                assert forall|ext: Seq<Tok>| #[trigger] self.may_follow(ext) implies old(self).may_follow(
                    since(t0, self.taken()) + ext,
                ) by {
                    assert(since(t0, self.taken()) + ext =~= c + (seq![tk] + ext));
                }
                if stop == 1 {
                    assert forall|ext: Seq<Tok>| #[trigger] self.may_follow(ext) implies line_rest(
                        since(t0, self.taken()) + ext,
                    ) == since(t0, self.taken()).len() by {
                        assert(since(t0, self.taken()) + ext =~= c + (seq![tk] + ext));
                        lemma_line_rest_prefix(c, seq![tk] + ext);
                        assert((seq![tk] + ext)[0] == Tok::Lf);
                    }
                }
            }
            if stop == 1 {
                return;
            }
        }
    }

    /// The unit keyword that stands right after a number, taken if it is one.
    fn number_suffix(&mut self) -> (r: Option<Unit>)
        requires
            old(self).wf(),
        ensures
            old(self).diagnostics().is_prefix_of(final(self).diagnostics()),
            old(self).messages().is_prefix_of(final(self).messages()),
            final(self).wf(),
            final(self).all_tokens() == old(self).all_tokens(),
            final(self).keywords() == old(self).keywords(),
            final(self).remaining() <= old(self).remaining(),
            old(self).taken().is_prefix_of(final(self).taken()),
            forall|ext: Seq<Tok>| #[trigger] final(self).may_follow(ext) ==> ({
                let (u, k, d) = suffix_of(since(old(self).taken(), final(self).taken()) + ext);
                &&& u == r
                &&& k == final(self).taken().len() - old(self).taken().len()
                &&& final(self).messages() == old(self).messages() + d
                &&& old(self).may_follow(since(old(self).taken(), final(self).taken()) + ext)
            }),
    {
        let ghost t0 = self.taken();
        if !self.peek() {
            assert forall|ext: Seq<Tok>| #[trigger] self.may_follow(ext) implies ({
                let (u, k, d) = suffix_of(since(t0, self.taken()) + ext);
                &&& u == None::<Unit>
                &&& k == 0
                &&& self.messages() == old(self).messages() + d
                &&& old(self).may_follow(since(t0, self.taken()) + ext)
            }) by {
                assert(since(t0, self.taken()) + ext =~= ext);
                assert(self.messages() =~= old(self).messages() + seq![]);
            }
            return None;
        }
        let unit = match &self.pending {
            Some(Token::Int(Keyword::Cm, _)) => Some(Unit::Cm),
            Some(Token::Int(Keyword::In, _)) => Some(Unit::In),
            Some(Token::Int(Keyword::Deg, _)) => Some(Unit::Deg),
            Some(Token::Int(Keyword::Rad, _)) => Some(Unit::Rad),
            _ => None,
        };
        let is_errors = matches!(self.pending, Some(Token::Errors(_)));
        if unit.is_some() {
            let t = self.take();
            proof {
                let tk = tok_of(t.unwrap());
                assert(since(t0, self.taken()) =~= seq![tk]);
                assert forall|ext: Seq<Tok>| #[trigger] self.may_follow(ext) implies (seq![tk] + ext)[0]
                    == tk by {}
                assert(self.messages() =~= old(self).messages() + seq![]);
            }
        } else if is_errors {
            if let Some(Token::Errors(v)) = self.take() {
                proof {
                    assert(since(t0, self.taken()) =~= seq![Tok::Errs(texts(v@))]);
                }
                self.add_errors(v);
                proof {
                    assert forall|ext: Seq<Tok>| #[trigger] self.may_follow(ext) implies (seq![
                        Tok::Errs(texts(v@)),
                    ] + ext)[0] == Tok::Errs(texts(v@)) by {}
                }
            }
        } else {
            proof {
                assert(since(t0, self.taken()) =~= seq![]);
                assert forall|ext: Seq<Tok>| #[trigger] self.may_follow(ext) implies since(
                    t0,
                    self.taken(),
                ) + ext =~= ext by {}
                assert(self.messages() =~= old(self).messages() + seq![]);
            }
        }
        unit
    }

    /// A number, after any line breaks, with the unit that follows it, if any.
    /// `None` where another token, or nothing, comes first.
    fn number(&mut self) -> (r: Option<(String, Option<Unit>)>)
        requires
            old(self).wf(),
        ensures
            old(self).diagnostics().is_prefix_of(final(self).diagnostics()),
            old(self).messages().is_prefix_of(final(self).messages()),
            final(self).wf(),
            final(self).all_tokens() == old(self).all_tokens(),
            final(self).keywords() == old(self).keywords(),
            final(self).remaining() <= old(self).remaining(),
            r matches Some((n, _)) ==> is_float_literal(n@),
            old(self).taken().is_prefix_of(final(self).taken()),
            forall|ext: Seq<Tok>| #[trigger] final(self).may_follow(ext) ==> ({
                let (o, k, d) = number_of(since(old(self).taken(), final(self).taken()) + ext);
                &&& k == final(self).taken().len() - old(self).taken().len()
                &&& final(self).messages() == old(self).messages() + d
                &&& old(self).may_follow(since(old(self).taken(), final(self).taken()) + ext)
                &&& match r {
                    None => o is None,
                    Some((n, u)) => o == Some((n@, u)),
                }
            }),
    {
        let ghost t0 = self.taken();
        proof {
            lemma_prefix_refl(self.diagnostics());
            lemma_prefix_refl(self.messages());
            lemma_prefix_refl(t0);
        }
        loop
            invariant
                self.wf(),
                self.all_tokens() == old(self).all_tokens(),
                self.keywords() == old(self).keywords(),
                self.remaining() <= old(self).remaining(),
                t0 == old(self).taken(),
                t0.is_prefix_of(self.taken()),
                self.messages() == old(self).messages(),
                self.diagnostics() == old(self).diagnostics(),
                forall|j: int| t0.len() <= j < self.taken().len() ==> self.taken()[j] == Tok::Lf,
                forall|ext: Seq<Tok>| #[trigger] self.may_follow(ext) ==> old(self).may_follow(
                    since(t0, self.taken()) + ext,
                ),
            decreases self.remaining(),
        {
            let ghost t1 = self.taken();
            let ghost lfs = since(t0, t1);
            match self.take() {
                None => {
                    proof {
                        assert forall|ext: Seq<Tok>| #[trigger] self.may_follow(ext) implies ({
                            let (o, k, d) = number_of(since(t0, self.taken()) + ext);
                            &&& k == self.taken().len() - t0.len()
                            &&& self.messages() == old(self).messages() + d
                            &&& old(self).may_follow(since(t0, self.taken()) + ext)
                            &&& o is None
                        }) by {
                            assert(ext.len() == 0);
                            assert(since(t0, self.taken()) + ext =~= lfs);
                            lemma_lfs_number(lfs, seq![]);
                            assert(lfs + seq![] =~= lfs);
                            assert(self.messages() =~= old(self).messages() + seq![]);
                        }
                    }
                    return None;
                },
                Some(Token::Lf) => {
                    proof {
                        assert forall|ext: Seq<Tok>| #[trigger] self.may_follow(ext) implies old(
                            self,
                        ).may_follow(since(t0, self.taken()) + ext) by {
                            assert(since(t0, self.taken()) + ext =~= lfs + (seq![Tok::Lf] + ext));
                        }
                    }
                },
                Some(Token::Number(n)) => {
                    let ghost t2 = self.taken();
                    let ghost m1 = self.messages();
                    let unit = self.number_suffix();
                    proof {
                        assert forall|ext: Seq<Tok>| #[trigger] self.may_follow(ext) implies ({
                            let (o, k, d) = number_of(since(t0, self.taken()) + ext);
                            &&& k == self.taken().len() - t0.len()
                            &&& self.messages() == old(self).messages() + d
                            &&& old(self).may_follow(since(t0, self.taken()) + ext)
                            &&& o == Some((n@, unit))
                        }) by {
                            let rest = since(t2, self.taken()) + ext;
                            assert(t1 =~= t0 + lfs);
                            assert(t2 =~= t0 + lfs + seq![Tok::Num(n@)]);
                            assert(self.taken() =~= t2 + since(t2, self.taken()));
                            assert(since(t0, self.taken()) =~= lfs + seq![Tok::Num(n@)] + since(t2, self.taken()));
                            assert(since(t0, self.taken()) + ext =~= lfs + (seq![Tok::Num(n@)] + rest));
                            lemma_lfs_number(lfs, seq![Tok::Num(n@)] + rest);
                            assert((seq![Tok::Num(n@)] + rest).drop_first() =~= rest);
                        }
                    }
                    return Some((n, unit));
                },
                Some(Token::Int(k, l)) => {
                    proof {
                        assert forall|ext: Seq<Tok>| #[trigger] self.may_follow(ext) implies ({
                            let (o, kk, d) = number_of(since(t0, self.taken()) + ext);
                            &&& kk == self.taken().len() - t0.len()
                            &&& self.messages() == old(self).messages() + d
                            &&& old(self).may_follow(since(t0, self.taken()) + ext)
                            &&& o is None
                        }) by {
                            assert(since(t0, self.taken()) + ext =~= lfs + (seq![Tok::Word(k)] + ext));
                            lemma_lfs_number(lfs, seq![Tok::Word(k)] + ext);
                            assert(self.messages() =~= old(self).messages() + seq![]);
                        }
                    }
                    return None;
                },
                Some(Token::Errors(v)) => {
                    let ghost tv = texts(v@);
                    self.add_errors(v);
                    proof {
                        assert forall|ext: Seq<Tok>| #[trigger] self.may_follow(ext) implies ({
                            let (o, k, d) = number_of(since(t0, self.taken()) + ext);
                            &&& k == self.taken().len() - t0.len()
                            &&& self.messages() == old(self).messages() + d
                            &&& old(self).may_follow(since(t0, self.taken()) + ext)
                            &&& o is None
                        }) by {
                            assert(since(t0, self.taken()) + ext =~= lfs + (seq![Tok::Errs(tv)] + ext));
                            lemma_lfs_number(lfs, seq![Tok::Errs(tv)] + ext);
                        }
                    }
                    return None;
                },
            }
        }
    }

    /// The next command, skipping (and reporting) malformed statements; `None`
    /// once the tokens are exhausted.
    pub fn command(&mut self) -> (r: Option<Command>)
        requires
            old(self).wf(),
        ensures
            final(self).wf(),
            final(self).all_tokens() == old(self).all_tokens(),
            final(self).keywords() == old(self).keywords(),
            final(self).remaining() <= old(self).remaining(),
            r is Some ==> final(self).remaining() < old(self).remaining(),
            r is None ==> final(self).exhausted(),
            r is None ==> final(self).taken() == final(self).all_tokens(),
            r is Some ==> old(self).taken().len() < final(self).taken().len(),
            r matches Some(c) ==> well_formed(c),
            old(self).exhausted() ==> r is None,
            old(self).exhausted() ==> final(self).diagnostics() == old(self).diagnostics(),
            old(self).diagnostics().is_prefix_of(final(self).diagnostics()),
            ({
                let (o, k, d) = run(since(old(self).taken(), old(self).all_tokens()));
                &&& describes(r, o)
                &&& k == final(self).taken().len() - old(self).taken().len()
                &&& final(self).messages() == old(self).messages() + d
            }),
            old(self).taken().is_prefix_of(final(self).taken()),
            forall|ext: Seq<Tok>| #[trigger] final(self).may_follow(ext) ==> ({
                let (o, k, d) = run(since(old(self).taken(), final(self).taken()) + ext);
                &&& describes(r, o)
                &&& k == final(self).taken().len() - old(self).taken().len()
                &&& final(self).messages() == old(self).messages() + d
                &&& old(self).may_follow(since(old(self).taken(), final(self).taken()) + ext)
            }),
    {
        let r = self.next_command();
        proof {
            self.lemma_rest_follows();
            let ext = since(self.taken(), self.all_tokens());
            assert(since(old(self).taken(), self.taken()) + ext =~= since(
                old(self).taken(),
                old(self).all_tokens(),
            ));
        }
        r
    }

    #[verifier::rlimit(100)]
    #[verifier::spinoff_prover]
    fn next_command(&mut self) -> (r: Option<Command>)
        requires
            old(self).wf(),
        ensures
            final(self).wf(),
            final(self).all_tokens() == old(self).all_tokens(),
            final(self).keywords() == old(self).keywords(),
            final(self).remaining() <= old(self).remaining(),
            r is Some ==> final(self).remaining() < old(self).remaining(),
            r is None ==> final(self).exhausted(),
            r is None ==> final(self).taken() == final(self).all_tokens(),
            r is Some ==> old(self).taken().len() < final(self).taken().len(),
            r matches Some(c) ==> well_formed(c),
            old(self).exhausted() ==> r is None,
            old(self).exhausted() ==> final(self).diagnostics() == old(self).diagnostics(),
            old(self).diagnostics().is_prefix_of(final(self).diagnostics()),
            old(self).taken().is_prefix_of(final(self).taken()),
            forall|ext: Seq<Tok>| #[trigger] final(self).may_follow(ext) ==> ({
                let (o, k, d) = run(since(old(self).taken(), final(self).taken()) + ext);
                &&& describes(r, o)
                &&& k == final(self).taken().len() - old(self).taken().len()
                &&& final(self).messages() == old(self).messages() + d
                &&& old(self).may_follow(since(old(self).taken(), final(self).taken()) + ext)
            }),
    {
        let ghost t0 = self.taken();
        let ghost m0 = self.messages();
        let ghost start_exhausted = self.exhausted();
        let ghost mut acc: Seq<Seq<char>> = seq![];
        proof {
            assert(since(t0, t0) =~= seq![]);
            assert forall|ext: Seq<Tok>| #[trigger] self.may_follow(ext) implies run(
                since(t0, self.taken()) + ext,
            ) == (run(ext).0, since(t0, self.taken()).len() + run(ext).1, acc + run(ext).2)
                && old(self).may_follow(since(t0, self.taken()) + ext) by {
                assert(since(t0, self.taken()) + ext =~= ext);
                assert(acc + run(ext).2 =~= run(ext).2);
            }
            assert(m0 + acc =~= m0);
        }
        loop
            invariant
                self.wf(),
                self.all_tokens() == old(self).all_tokens(),
                self.keywords() == old(self).keywords(),
                self.remaining() <= old(self).remaining(),
                t0 == old(self).taken(),
                m0 == old(self).messages(),
                t0.is_prefix_of(self.taken()),
                old(self).diagnostics().is_prefix_of(self.diagnostics()),
                self.messages() == m0 + acc,
                start_exhausted == old(self).exhausted(),
                start_exhausted ==> self.exhausted() && self.diagnostics() == old(self).diagnostics(),
                forall|ext: Seq<Tok>| #[trigger] self.may_follow(ext) ==> run(
                    since(t0, self.taken()) + ext,
                ) == (run(ext).0, since(t0, self.taken()).len() + run(ext).1, acc + run(ext).2)
                    && old(self).may_follow(since(t0, self.taken()) + ext),
            decreases self.remaining(),
        {
            let ghost a = *self;
            let ghost t1 = self.taken();
            let ghost g: Seq<Tok>;
            let ghost dg: Seq<Seq<char>>;
            let tok = self.take();
            proof {
                lemma_prefix_push(old(self).diagnostics(), a.diagnostics(), self.diagnostics());
            }
            match tok {
                None => {
                    proof {
                        self.lexer.lemma_spent();
                        assert(self.taken@ =~= self.taken@ + self.pending_tokens() + self.lexer.rest());
                        assert forall|ext: Seq<Tok>| #[trigger] self.may_follow(ext) implies ({
                            let (o, k, d) = run(since(t0, self.taken()) + ext);
                            &&& describes(None, o)
                            &&& k == self.taken().len() - t0.len()
                            &&& self.messages() == m0 + d
                            &&& old(self).may_follow(since(t0, self.taken()) + ext)
                        }) by {
                            assert(ext.len() == 0);
                            assert(a.may_follow(ext));
                            assert(run(ext).2 =~= seq![]);
                            assert(acc + run(ext).2 =~= acc);
                        }
                    }
                    return None;
                },
                Some(Token::Lf) => {
                    proof {
                        g = seq![Tok::Lf];
                        dg = seq![];
                        assert(self.taken() == t1.push(Tok::Lf));
                        assert(self.messages() =~= a.messages() + dg);
                        assert forall|ext: Seq<Tok>| #[trigger] self.may_follow(ext) implies a.may_follow(g + ext)
                            && statement(g + ext) == (Outcome::Skipped, g.len() as int, dg) by {
                            assert((g + ext)[0] == Tok::Lf);
                        }
                    }
                },
                Some(Token::Number(n)) => {
                    let ghost b = *self;
                    self.add_message(concat3("unexpected number ", n.as_str(), ", ignoring").as_str());
                    let ghost p2 = *self;
                    self.skip_line();
                    proof {
                        let c = since(p2.taken(), self.taken());
                        let tk = Tok::Num(n@);
                        g = seq![tk] + c;
                        dg = seq![unexpected_number_message(n@)];
                        assert(p2.messages() =~= b.messages() + dg);
                        Self::lemma_skipped_line(a, b, p2, *self, tk, dg);
                    }
                },
                Some(Token::Errors(v)) => {
                    let ghost tv = texts(v@);
                    self.add_errors(v);
                    proof {
                        g = seq![Tok::Errs(tv)];
                        dg = tv;
                        assert(self.taken() == t1.push(Tok::Errs(tv)));
                        assert(self.messages() =~= a.messages() + dg);
                        assert forall|ext: Seq<Tok>| #[trigger] self.may_follow(ext) implies a.may_follow(g + ext)
                            && statement(g + ext) == (Outcome::Skipped, g.len() as int, dg) by {
                            assert((g + ext)[0] == Tok::Errs(tv));
                        }
                    }
                },
                Some(Token::Int(kw, _)) => {
                    if kw == Keyword::Then {
                        proof {
                        g = seq![Tok::Word(kw)];
                        dg = seq![];
                        assert(self.taken() == t1.push(Tok::Word(kw)));
                        assert(self.messages() =~= a.messages() + dg);
                        assert forall|ext: Seq<Tok>| #[trigger] self.may_follow(ext) implies a.may_follow(g + ext)
                            && statement(g + ext) == (Outcome::Skipped, g.len() as int, dg) by {
                            assert((g + ext)[0] == Tok::Word(kw));
                        }
                    }
                    } else if kw == Keyword::Cm || kw == Keyword::In || kw == Keyword::Deg || kw
                        == Keyword::Rad {
                        let ghost b = *self;
                        self.add_message(unexpected_unit_text(kw));
                        let ghost p2 = *self;
                        self.skip_line();
                        proof {
                            let c = since(p2.taken(), self.taken());
                            let tk = Tok::Word(kw);
                            g = seq![tk] + c;
                            dg = seq![unexpected_unit_message(kw)];
                            assert(p2.messages() =~= b.messages() + dg);
                        Self::lemma_skipped_line(a, b, p2, *self, tk, dg);
                        }
                    } else if kw == Keyword::Debug {
                        proof {
                            assert forall|ext: Seq<Tok>| #[trigger] self.may_follow(ext) implies ({
                                let (o, k, d) = run(since(t0, self.taken()) + ext);
                                &&& describes(Some(Command::PyDebug), o)
                                &&& k == self.taken().len() - t0.len()
                                &&& self.messages() == m0 + d
                                &&& old(self).may_follow(since(t0, self.taken()) + ext)
                            }) by {
                                let e = seq![Tok::Word(kw)] + ext;
                                assert(a.may_follow(e));
                                assert(self.taken() == t1.push(Tok::Word(kw)));
                                assert(t1 =~= t0 + since(t0, t1));
                                assert(since(t0, self.taken()) + ext =~= since(t0, t1) + e);
                                assert(e[0] == Tok::Word(kw));
                                assert(run(e).2 =~= seq![]);
                                assert(acc + run(e).2 =~= acc);
                            }
                        }
                        return Some(Command::PyDebug);
                    } else {
                        let ghost b = *self;
                        let ghost t2 = self.taken();
                        let ghost m2 = self.messages();
                        match self.number() {
                            Some((n, u)) => {
                                let ghost m3 = self.messages();
                                let (amount, error) = if is_distance_kw(kw) {
                                    to_centimeters(n, u)
                                } else {
                                    to_degrees(n, u)
                                };
                                if let Some(e) = error {
                                    self.add_message(e.as_str());
                                }
                                let c = make_command(kw, amount);
                                proof {
                                    lemma_prefix_push(old(self).diagnostics(), a.diagnostics(), self.diagnostics());
                                    assert(self.messages() == m3 + conversion_messages(kw, u));
                                    assert forall|ext: Seq<Tok>| #[trigger] self.may_follow(ext) implies ({
                                        let (o, k, d) = run(since(t0, self.taken()) + ext);
                                        &&& describes(Some(c), o)
                                        &&& k == self.taken().len() - t0.len()
                                        &&& self.messages() == m0 + d
                                        &&& old(self).may_follow(since(t0, self.taken()) + ext)
                                    }) by {
                                        let cn = since(t2, self.taken());
                                        let e = seq![Tok::Word(kw)] + (cn + ext);
                                        assert(b.may_follow(cn + ext));
                                        assert(t2 == t1.push(Tok::Word(kw)));
                                        assert(self.taken() =~= t2 + cn);
                                        assert(t1 =~= t0 + since(t0, t1));
                                        assert(a.may_follow(e));
                                        assert(since(t0, self.taken()) + ext =~= since(t0, t1) + e);
                                        assert(e[0] == Tok::Word(kw));
                                        assert(e.drop_first() =~= cn + ext);
                                        let (o3, k3, d3) = number_of(cn + ext);
                                        assert(m3 == m2 + d3);
                                        assert(run(e) == (Outcome::Move(kw, n@, u), k3 + 1, d3 + conversion_messages(kw, u)));
                                        assert(self.messages() =~= m0 + (acc + (d3 + conversion_messages(kw, u))));
                                    }
                                }
                                return Some(c);
                            },
                            None => {
                                let ghost m3 = self.messages();
                                self.add_message(expected_text(kw));
                                proof {
                                    let cn = since(t2, self.taken());
                                    let d3 = m3.subrange(m2.len() as int, m3.len() as int);
                                    assert(m3 =~= m2 + d3);
                                    g = seq![Tok::Word(kw)] + cn;
                                    dg = d3.push(expected_message(kw));
                                    assert(t2 == t1.push(Tok::Word(kw)));
                                    assert(self.taken() =~= t2 + cn);
                                    assert(self.taken() =~= t1 + g);
                                    assert(self.messages() =~= a.messages() + dg);
                                    assert forall|ext: Seq<Tok>| #[trigger] self.may_follow(ext) implies a.may_follow(g + ext)
                                        && statement(g + ext) == (Outcome::Skipped, g.len() as int, dg) by {
                                        assert(b.may_follow(cn + ext));
                                        assert(g + ext =~= seq![Tok::Word(kw)] + (cn + ext));
                                        assert((g + ext)[0] == Tok::Word(kw));
                                        assert((g + ext).drop_first() =~= cn + ext);
                                        let (o3, k3, dd) = number_of(cn + ext);
                                        assert(m3 == m2 + dd);
                                        assert(dd =~= d3);
                                    }
                                }
                            },
                        }
                    }
                },
            }
            proof {
                lemma_prefix_push(old(self).diagnostics(), a.diagnostics(), self.diagnostics());
                assert forall|ext: Seq<Tok>| #[trigger] self.may_follow(ext) implies run(
                    since(t0, self.taken()) + ext,
                ) == (run(ext).0, since(t0, self.taken()).len() + run(ext).1, (acc + dg) + run(ext).2)
                    && old(self).may_follow(since(t0, self.taken()) + ext) by {
                    assert(a.may_follow(g + ext));
                    lemma_run_skip(g, ext, dg);
                    assert(since(t0, self.taken()) + ext =~= since(t0, t1) + (g + ext));
                    assert(since(t0, self.taken()) =~= since(t0, t1) + g);
                    assert(acc + (dg + run(ext).2) =~= (acc + dg) + run(ext).2);
                }
                acc = acc + dg;
                assert(self.messages() =~= m0 + acc);
            }
        }
    }

    /// Every diagnostic, in the order recorded; called once the commands are drained.
    pub fn finish(self) -> (r: Vec<String>)
        ensures
            r@ == self.diagnostics(),
    {
        self.errors
    }
}

fn is_distance_kw(kw: Keyword) -> (r: bool)
    ensures
        r == is_distance(kw),
{
    kw == Keyword::MoveForward || kw == Keyword::MoveBackward
}

fn unexpected_unit_text(kw: Keyword) -> (r: &'static str)
    ensures
        r@ == unexpected_unit_message(kw),
{
    match kw {
        Keyword::Cm => "unexpected \"cm\", ignoring",
        Keyword::In => "unexpected \"in\", ignoring",
        Keyword::Deg => "unexpected \"deg\", ignoring",
        _ => "unexpected \"rad\", ignoring",
    }
}

fn expected_text(kw: Keyword) -> (r: &'static str)
    ensures
        r@ == expected_message(kw),
{
    match kw {
        Keyword::MoveForward => "expected number after \"move forward\". ignoring",
        Keyword::MoveBackward => "expected number after \"move backwards\". ignoring",
        Keyword::RotateLeft => "expected number after \"rotate left\". ignoring",
        Keyword::RotateRight => "expected number after \"rotate right\". ignoring",
        Keyword::ArmFrontUp => "expected number after \"front arm up\". ignoring",
        Keyword::ArmFrontDown => "expected number after \"front arm down\". ignoring",
        Keyword::ArmBackUp => "expected number after \"back arm up\". ignoring",
        _ => "expected number after \"back arm down\". ignoring",
    }
}

/// The command that `kw` names, carrying `amount`.
fn make_command(kw: Keyword, amount: Amount) -> (c: Command)
    requires
        takes_number(kw),
    ensures
        keyword_of(c) == kw,
        amount_of(c) == Some(amount),
{
    match kw {
        Keyword::MoveForward => Command::MoveForward(amount),
        Keyword::MoveBackward => Command::MoveBackward(amount),
        Keyword::RotateLeft => Command::RotateLeft(amount),
        Keyword::RotateRight => Command::RotateRight(amount),
        Keyword::ArmFrontUp => Command::FrontArmUp(amount),
        Keyword::ArmFrontDown => Command::FrontArmDown(amount),
        Keyword::ArmBackUp => Command::BackArmUp(amount),
        _ => Command::BackArmDown(amount),
    }
}

/// A magnitude command, a number and no unit after it come to that command with
/// the number as written: whatever yields it carries the number unconverted.
pub proof fn lemma_no_unit_unconverted(kw: Keyword, n: Seq<char>, rest: Seq<Tok>, c: Command)
    requires
        takes_number(kw),
        rest.len() > 0 ==> !(rest[0] is Errs),
        rest.len() > 0 ==> (rest[0] matches Tok::Word(k) ==> unit_of(k) is None),
        describes(Some(c), run(seq![Tok::Word(kw), Tok::Num(n)] + rest).0),
    ensures
        run(seq![Tok::Word(kw), Tok::Num(n)] + rest).0 == Outcome::Move(kw, n, None),
        amount_of(c) matches Some(a) && a.number@ == n && a.scale == Scale::One,
{
    let s = seq![Tok::Word(kw), Tok::Num(n)] + rest;
    assert(s.drop_first() =~= seq![Tok::Num(n)] + rest);
    assert((seq![Tok::Num(n)] + rest).drop_first() =~= rest);
}

/// Inches after a distance, and radians after an angle, are converted: the
/// amount carries the factor 2.54, or 180/π, for the number as written.
pub proof fn lemma_unit_converted(kw: Keyword, n: Seq<char>, unit: Keyword, rest: Seq<Tok>, c: Command)
    requires
        takes_number(kw),
        (is_distance(kw) && unit == Keyword::In) || (!is_distance(kw) && unit == Keyword::Rad),
        describes(Some(c), run(seq![Tok::Word(kw), Tok::Num(n), Tok::Word(unit)] + rest).0),
    ensures
        amount_of(c) matches Some(a) && a.number@ == n && a.scale == if is_distance(kw) {
            Scale::InchesToCentimeters
        } else {
            Scale::RadiansToDegrees
        },
        run(seq![Tok::Word(kw), Tok::Num(n), Tok::Word(unit)] + rest).2.len() == 0,
{
    let s = seq![Tok::Word(kw), Tok::Num(n), Tok::Word(unit)] + rest;
    assert(s.drop_first() =~= seq![Tok::Num(n), Tok::Word(unit)] + rest);
    assert((seq![Tok::Num(n), Tok::Word(unit)] + rest).drop_first() =~= seq![Tok::Word(unit)] + rest);
}

/// A statement that is skipped leaves the rest to the statements after it.
pub proof fn lemma_run_skip(g: Seq<Tok>, ext: Seq<Tok>, dg: Seq<Seq<char>>)
    requires
        g.len() > 0,
        statement(g + ext) == (Outcome::Skipped, g.len() as int, dg),
    ensures
        run(g + ext) == (run(ext).0, g.len() + run(ext).1, dg + run(ext).2),
{
    assert((g + ext).subrange(g.len() as int, (g + ext).len() as int) =~= ext);
}

pub proof fn lemma_prefix_refl<T>(x: Seq<T>)
    ensures
        x.is_prefix_of(x),
{
    assert(x.subrange(0, x.len() as int) =~= x);
}

pub proof fn lemma_prefix_push<T>(x: Seq<T>, y: Seq<T>, z: Seq<T>)
    requires
        x.is_prefix_of(y),
        y.is_prefix_of(z),
    ensures
        x.is_prefix_of(z),
{
    assert forall|i: int| 0 <= i < x.len() implies x[i] == z[i] by {
        assert(x[i] == y[i]);
    }
    assert(z.subrange(0, x.len() as int) =~= x);
}

/// Line breaks before the rest do not change which number is found; they only
/// lengthen what is taken.
pub proof fn lemma_lfs_number(lfs: Seq<Tok>, rest: Seq<Tok>)
    requires
        forall|j: int| 0 <= j < lfs.len() ==> lfs[j] == Tok::Lf,
    ensures
        ({
            let (o1, k1, d1) = number_of(lfs + rest);
            let (o2, k2, d2) = number_of(rest);
            o1 == o2 && k1 == k2 + lfs.len() && d1 == d2
        }),
    decreases lfs.len(),
{
    if lfs.len() > 0 {
        assert((lfs + rest).drop_first() =~= lfs.drop_first() + rest);
        lemma_lfs_number(lfs.drop_first(), rest);
    } else {
        assert(lfs + rest =~= rest);
    }
}

} // verus!
