use vstd::prelude::*;

pub mod builtin;
pub mod keywords;
pub mod lexer;
pub mod parser;
pub mod table;
pub mod text;

use crate::builtin::standard_keywords;
use crate::keywords::Lookup;
use crate::keywords::no_match;
use crate::lexer::{
    lemma_unknown_text_skips_line, line_end, past_line, skip_blanks, stream, text_message, texts, Tok,
};
use crate::text::is_digit;
use crate::parser::{describes, program, run, since, well_formed, Outcome, Parser};

verus! {

/// A unit suffix written after a number.
#[derive(Debug, Clone, Copy, PartialEq, Eq, Structural)]
pub enum Unit {
    Cm,
    In,
    Deg,
    Rad,
}

/// The factor that turns a number as written into the command's unit.
#[derive(Debug, Clone, Copy, PartialEq, Eq, Structural)]
pub enum Scale {
    /// Already in centimetres or degrees (or left as written).
    One,
    /// Inches: times 2.54.
    InchesToCentimeters,
    /// Radians: times 180/π.
    RadiansToDegrees,
}

/// A magnitude: a numeric literal as written, and the factor to apply to it.
#[derive(Debug, Clone)]
pub struct Amount {
    pub number: String,
    pub scale: Scale,
}

/// A device command. Distances are in centimetres, angles in degrees.
#[derive(Debug, Clone)]
pub enum Command {
    MoveForward(Amount),
    MoveBackward(Amount),
    RotateRight(Amount),
    RotateLeft(Amount),
    FrontArmUp(Amount),
    FrontArmDown(Amount),
    BackArmUp(Amount),
    BackArmDown(Amount),
    PyDebug,
    Nop,
}

/// `cmds` and `diags` are what the statements of `toks` come to: one command for
/// each statement that is not skipped, in order, and every diagnostic, in order.
pub open spec fn parsed_as(toks: Seq<Tok>, cmds: Seq<Command>, diags: Seq<String>) -> bool {
    let (os, ds) = program(toks);
    &&& os.len() == cmds.len()
    &&& forall|i: int| 0 <= i < os.len() ==> describes(Some(#[trigger] cmds[i]), os[i])
    &&& texts(diags) == ds
}

/// `os` starts with one outcome for each of `cmds`, which it describes, and goes
/// on with `tail`.
pub open spec fn begins_with(os: Seq<Outcome>, cmds: Seq<Command>, tail: Seq<Outcome>) -> bool {
    &&& os.len() == cmds.len() + tail.len()
    &&& forall|i: int| 0 <= i < cmds.len() ==> describes(Some(#[trigger] cmds[i]), os[i])
    &&& os.subrange(cmds.len() as int, os.len() as int) == tail
}

/// A line break before the statements changes neither the commands nor the
/// diagnostics.
pub proof fn lemma_program_skips_lf(s: Seq<Tok>)
    ensures
        program(seq![Tok::Lf] + s) == program(s),
{
    let t = seq![Tok::Lf] + s;
    crate::parser::lemma_run_bounds(s);
    assert(t[0] == Tok::Lf);
    assert(t.subrange(1, t.len() as int) =~= s);
    let (o, k, d) = run(s);
    assert(run(t) == (o, k + 1, seq![] + d));
    assert(seq![] + d =~= d);
    if !(o is End || k <= 0 || k > s.len()) {
        assert(t.subrange(k + 1, t.len() as int) =~= s.subrange(k, s.len() as int));
    }
}

/// A first line of text that no literal matches yields no command and exactly
/// one diagnostic, which quotes it: the document parses as the lines after it,
/// with that diagnostic recorded first.
pub proof fn lemma_garbage_first_line(code: Seq<char>)
    requires
        skip_blanks(code, 0) < code.len(),
        !is_digit(code[skip_blanks(code, 0)]),
        code[skip_blanks(code, 0)] != '#',
        code[skip_blanks(code, 0)] != '\n',
        no_match(standard_keywords(), code, skip_blanks(code, 0)),
    ensures
        ({
            let s = skip_blanks(code, 0);
            program(stream(code, 0, standard_keywords(), seq![])) == program(
                stream(
                    code,
                    past_line(code, s),
                    standard_keywords(),
                    seq![text_message(code.subrange(s, line_end(code, s)))],
                ),
            )
        }),
{
    let s = skip_blanks(code, 0);
    lemma_unknown_text_skips_line(code, 0, standard_keywords(), seq![]);
    let msg = text_message(code.subrange(s, line_end(code, s)));
    assert(seq![].push(msg) =~= seq![msg]);
    lemma_program_skips_lf(stream(code, past_line(code, s), standard_keywords(), seq![msg]));
}

/// Takes every command from a fresh parser.
#[verifier::rlimit(100)]
#[verifier::spinoff_prover]
fn drain(fresh: Parser) -> (r: (Vec<Command>, Vec<String>))
    requires
        fresh.wf(),
        fresh.taken().len() == 0,
        fresh.diagnostics().len() == 0,
    ensures
        parsed_as(fresh.all_tokens(), r.0@, r.1@),
        forall|i: int| 0 <= i < r.0@.len() ==> well_formed(#[trigger] r.0@[i]),
        fresh.exhausted() ==> r.0@.len() == 0 && r.1@.len() == 0,
{
    let mut parser = fresh;
    let ghost all = parser.all_tokens();
    let ghost start_exhausted = parser.exhausted();
    let mut commands: Vec<Command> = Vec::new();
    proof {
        assert forall|ext: Seq<Tok>| #[trigger] parser.may_follow(ext) implies begins_with(
            program(parser.taken() + ext).0,
            commands@,
            program(ext).0,
        ) && program(parser.taken() + ext).1 == parser.messages() + program(ext).1 by {
            assert(parser.taken() + ext =~= ext);
            assert(program(ext).0.subrange(0, program(ext).0.len() as int) =~= program(ext).0);
            assert(parser.messages() =~= seq![]);
            assert(parser.messages() + program(ext).1 =~= program(ext).1);
        }
    }
    loop
        invariant
            parser.wf(),
            parser.all_tokens() == all,
            all == fresh.all_tokens(),
            start_exhausted == fresh.exhausted(),
            forall|i: int| 0 <= i < commands@.len() ==> well_formed(#[trigger] commands@[i]),
            forall|ext: Seq<Tok>| #[trigger] parser.may_follow(ext) ==> begins_with(
                program(parser.taken() + ext).0,
                commands@,
                program(ext).0,
            ) && program(parser.taken() + ext).1 == parser.messages() + program(ext).1,
            start_exhausted ==> parser.exhausted() && commands@.len() == 0
                && parser.diagnostics().len() == 0,
        decreases parser.remaining(),
    {
        let ghost before = parser;
        let ghost cmds0 = commands@;
        match parser.command() {
            Some(c) => {
                commands.push(c);
                proof {
                    let g = since(before.taken(), parser.taken());
                    assert forall|ext: Seq<Tok>| #[trigger] parser.may_follow(ext) implies begins_with(
                        program(parser.taken() + ext).0,
                        commands@,
                        program(ext).0,
                    ) && program(parser.taken() + ext).1 == parser.messages() + program(ext).1 by {
                        let (o, k, d) = run(g + ext);
                        let e = g + ext;
                        assert(before.may_follow(e));
                        assert(e.subrange(k, e.len() as int) =~= ext);
                        assert(parser.taken() + ext =~= before.taken() + e);
                        let pe = program(e);
                        assert(pe.0 == seq![o] + program(ext).0);
                        assert(pe.1 == d + program(ext).1);
                        let p = program(parser.taken() + ext);
                        assert(begins_with(p.0, cmds0, pe.0));
                        assert(p.0[cmds0.len() as int] == pe.0[0]);
                        let q = p.0.subrange(cmds0.len() as int, p.0.len() as int);
                        assert(q == pe.0);
                        assert(p.0.subrange(commands@.len() as int, p.0.len() as int) =~= q.subrange(1, q.len() as int));
                        assert(q.subrange(1, q.len() as int) =~= program(ext).0);
                        assert forall|i: int| 0 <= i < commands@.len() implies describes(
                            Some(#[trigger] commands@[i]),
                            p.0[i],
                        ) by {
                            if i == cmds0.len() {
                                assert(commands@[i] == c);
                            } else {
                                assert(commands@[i] == cmds0[i]);
                            }
                        }
                        assert(before.messages() + (d + program(ext).1) =~= parser.messages() + program(ext).1);
                    }
                }
            },
            None => {
                proof {
                    let g = since(before.taken(), parser.taken());
                    parser.lemma_exhausted_follow();
                    let (o, k, d) = run(g + seq![]);
                    assert(g + seq![] =~= g);
                    assert(before.may_follow(g));
                    assert(parser.taken() =~= before.taken() + g);
                    assert(program(g).0 =~= seq![]);
                    let p = program(parser.taken());
                    assert(p.1 == before.messages() + d);
                    assert(begins_with(p.0, commands@, seq![]));
                    assert(parser.taken() == all);
                    assert(start_exhausted ==> before.exhausted());
                }
                let diags = parser.finish();
                proof {
                    assert(texts(diags@) == parser.messages());
                    let p = program(all);
                    assert(p.0.len() == commands@.len());
                    assert(texts(diags@) == p.1);
                    assert(parsed_as(all, commands@, diags@));
                }
                return (commands, diags);
            },
        }
    }
}

/// The commands of `code`, in order, and the diagnostics of the statements that
/// were skipped, with the literals of `lookup`.
pub fn parse_with(code: &str, lookup: Lookup) -> (r: (Vec<Command>, Vec<String>))
    requires
        lookup.wf(),
    ensures
        parsed_as(stream(code@, 0, lookup.view(), seq![]), r.0@, r.1@),
        forall|i: int| 0 <= i < r.0@.len() ==> well_formed(#[trigger] r.0@[i]),
{
    drain(Parser::with_lookup(code, lookup))
}

/// The commands of `code`, in order, and the diagnostics of the statements that
/// were skipped.
pub fn parse(code: String) -> (r: (Vec<Command>, Vec<String>))
    ensures
        parsed_as(stream(code@, 0, standard_keywords(), seq![]), r.0@, r.1@),
        forall|i: int| 0 <= i < r.0@.len() ==> well_formed(#[trigger] r.0@[i]),
        code@.len() == 0 ==> r.0@.len() == 0 && r.1@.len() == 0,
{
    let parser = Parser::new(code.as_str());
    drain(parser)
}

} // verus!
