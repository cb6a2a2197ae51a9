//! The command line, and the way from a source text to a unit.
use vstd::prelude::*;

use crate::ast::ProgramView;
use crate::codegen::{compile, Compiled};
use crate::grammar::parse_spec;
use crate::lexer::{law_lex_ends_once, lex, lex_spec, tokens_view, width, MAX_SOURCE};
use crate::lower::{bodies_sound, compiled, lower_steps, GenView};
use crate::parser::parse;
use crate::rules::{check_spec, CheckedView};
use crate::text::{names_view, owned, str_eq};
use crate::typeck::check;

verus! {

/// What the command line asks for.
pub enum Command {
    /// Compile a source file, to the given output if there is one.
    Build { src: String, out: Option<String> },
    /// Compile a source file and run it with the arguments behind it.
    Run { src: String },
    /// Say how it is used.
    Usage,
}

#[verifier::ext_equal]
pub enum CommandView {
    Build { src: Seq<char>, out: Option<Seq<char>> },
    Run { src: Seq<char> },
    Usage,
}

pub open spec fn opt_text(s: Option<String>) -> Option<Seq<char>> {
    match s {
        Some(t) => Some(t@),
        None => None,
    }
}

impl Command {
    pub open spec fn view(&self) -> CommandView {
        match self {
            Command::Build { src, out } => CommandView::Build { src: src@, out: opt_text(*out) },
            Command::Run { src } => CommandView::Run { src: src@ },
            Command::Usage => CommandView::Usage,
        }
    }
}

/// The source file and the output that the arguments from `i` on name; none
/// if there are too many or too few.
pub open spec fn build_args(
    rest: Seq<Seq<char>>,
    i: nat,
    src: Option<Seq<char>>,
    out: Option<Seq<char>>,
) -> Option<(Seq<char>, Option<Seq<char>>)>
    decreases rest.len() - i,
{
    if i >= rest.len() {
        match src {
            Some(s) => Some((s, out)),
            None => None,
        }
    } else if rest[i as int] == "-o"@ {
        if i + 1 >= rest.len() {
            None
        } else {
            build_args(rest, i + 2, src, Some(rest[i as int + 1]))
        }
    } else if src is None {
        build_args(rest, i + 1, Some(rest[i as int]), out)
    } else {
        None
    }
}

pub fn parse_build_args(rest: &Vec<String>, from: usize) -> (r: Option<(String, Option<String>)>)
    ensures
        (match r {
            Some((src, out)) => Some((src@, opt_text(out))),
            None => None,
        }) == build_args(names_view(rest@), from as nat, None, None),
{
    let ghost all = names_view(rest@);
    let mut src: Option<String> = None;
    let mut out: Option<String> = None;
    let mut i: usize = from;
    while i < rest.len()
        invariant
            all == names_view(rest@),
            build_args(all, from as nat, None, None) == build_args(
                all,
                i as nat,
                opt_text(src),
                opt_text(out),
            ),
        decreases rest.len() - i,
    {
        assert(all[i as int] == rest@[i as int]@);
        if str_eq(rest[i].as_str(), "-o") {
            if i + 1 >= rest.len() {
                return None;
            }
            assert(all[i as int + 1] == rest@[i as int + 1]@);
            out = Some(owned(rest[i + 1].as_str()));
            i = i + 2;
        } else if src.is_none() {
            src = Some(owned(rest[i].as_str()));
            i = i + 1;
        } else {
            return None;
        }
    }
    match src {
        Some(s) => Some((s, out)),
        None => None,
    }
}

pub open spec fn command_of(args: Seq<Seq<char>>) -> CommandView {
    if args.len() == 0 {
        CommandView::Usage
    } else if args[0] == "build"@ {
        match build_args(args, 1, None, None) {
            Some((src, out)) => CommandView::Build { src, out },
            None => CommandView::Usage,
        }
    } else if args[0] == "run"@ && args.len() > 1 {
        CommandView::Run { src: args[1] }
    } else {
        CommandView::Usage
    }
}

/// What the arguments behind the program's name ask for.
pub fn parse_args(args: &Vec<String>) -> (r: Command)
    ensures
        r@ == command_of(names_view(args@)),
{
    if args.len() == 0 {
        return Command::Usage;
    }
    assert(names_view(args@)[0] == args@[0]@);
    if str_eq(args[0].as_str(), "build") {
        return match parse_build_args(args, 1) {
            Some((src, out)) => Command::Build { src, out },
            None => Command::Usage,
        };
    }
    if str_eq(args[0].as_str(), "run") && args.len() > 1 {
        assert(names_view(args@)[1] == args@[1]@);
        return Command::Run { src: owned(args[1].as_str()) };
    }
    Command::Usage
}

/// The output file: the one that was asked for, or the source file's stem.
pub fn output_name(out: Option<String>, stem: Option<String>) -> (r: String)
    ensures
        r@ == match out {
            Some(o) => o@,
            None => match stem {
                Some(s) => s@,
                None => "a.out"@,
            },
        },
{
    match out {
        Some(o) => o,
        None => match stem {
            Some(s) => s,
            None => owned("a.out"),
        },
    }
}

// -- From source text to unit -----------------------------------------------

/// The checked program of a source text, or the first message of the lexer,
/// the parser or the checker.
pub open spec fn checked_text(src: Seq<char>) -> Result<(ProgramView, CheckedView), Seq<char>> {
    match lex_spec(src) {
        Err(m) => Err(m),
        Ok(tokens) => match parse_spec(tokens) {
            Err(m) => Err(m),
            Ok(program) => check_spec(program),
        },
    }
}

/// The unit of a source text and its `main`, or the first message of the lexer,
/// the parser, the checker or the code generator.
pub open spec fn built(src: Seq<char>) -> Result<(GenView, usize), Seq<char>> {
    match checked_text(src) {
        Err(m) => Err(m),
        Ok((program, checked)) => compiled(program, checked),
    }
}

/// Compile a source text.
pub fn build(source: &str) -> (r: Result<Compiled, String>)
    requires
        width(source@) <= MAX_SOURCE,
    ensures
        match r {
            Ok(c) => built(source@) == Ok::<(GenView, usize), Seq<char>>((c.unit@, c.main))
                && bodies_sound(c.unit@),
            Err(m) => built(source@) == Err::<(GenView, usize), Seq<char>>(m@),
        },
        checked_text(source@) matches Ok((p, c)) ==> exists|n: nat| #[trigger]
            lower_steps(p, c, n) is Some,
{
    let tokens = match lex(source) {
        Ok(ts) => ts,
        Err(m) => return Err(m),
    };
    proof {
        law_lex_ends_once(source@);
        assert(tokens_view(tokens@).last() == tokens@.last()@);
    }
    let mut program = match parse(tokens) {
        Ok(p) => p,
        Err(m) => return Err(m),
    };
    match check(&mut program) {
        Ok(checked) => compile(&program, &checked),
        Err(m) => Err(m),
    }
}

// -- What the arguments ask for ---------------------------------------------

/// Outputs as they are written: each behind an `-o`.
pub open spec fn named(outs: Seq<Seq<char>>) -> Seq<Seq<char>> {
    Seq::new(
        2 * outs.len(),
        |i: int|
            if i % 2 == 0 {
                "-o"@
            } else {
                outs[i / 2]
            },
    )
}

/// The output that counts: the one named last.
pub open spec fn last_named(outs: Seq<Seq<char>>) -> Option<Seq<char>> {
    if outs.len() == 0 {
        None
    } else {
        Some(outs.last())
    }
}

/// Outputs named from argument `i` on are passed over, and the last one counts.
proof fn lemma_outputs_named(
    rest: Seq<Seq<char>>,
    i: nat,
    src: Option<Seq<char>>,
    out: Option<Seq<char>>,
    outs: Seq<Seq<char>>,
)
    requires
        i + 2 * outs.len() <= rest.len(),
        rest.subrange(i as int, i as int + 2 * outs.len()) == named(outs),
    ensures
        build_args(rest, i, src, out) == build_args(
            rest,
            i + 2 * outs.len(),
            src,
            if outs.len() == 0 {
                out
            } else {
                Some(outs.last())
            },
        ),
    decreases outs.len(),
{
    if outs.len() > 0 {
        let part = rest.subrange(i as int, i as int + 2 * outs.len());
        assert(part[0] == rest[i as int] && part[1] == rest[i as int + 1]);
        assert(named(outs)[0] == "-o"@ && named(outs)[1] == outs[0]);
        let less = outs.subrange(1, outs.len() as int);
        assert forall|k: int| 0 <= k < 2 * less.len() implies rest[i + 2 + k] == named(less)[k] by {
            assert(part[k + 2] == rest[i + 2 + k]);
            assert((k + 2) % 2 == k % 2 && (k + 2) / 2 == k / 2 + 1);
            assert(named(outs)[k + 2] == named(less)[k]);
        }
        assert(rest.subrange(i as int + 2, i as int + 2 + 2 * less.len()) =~= named(less));
        lemma_outputs_named(rest, i + 2, src, Some(outs[0]), less);
        if less.len() > 0 {
            assert(less.last() == outs.last());
        }
    }
}

proof fn lemma_parts(word: Seq<char>, b: Seq<Seq<char>>, src: Seq<char>, a: Seq<Seq<char>>)
    ensures
        ({
            let args = seq![word] + b + seq![src] + a;
            &&& args.len() == 2 + b.len() + a.len()
            &&& args[0] == word
            &&& args.subrange(1, 1 + b.len() as int) == b
            &&& args[1 + b.len() as int] == src
            &&& args.subrange(2 + b.len() as int, 2 + b.len() as int + a.len()) == a
        }),
{
    let args = seq![word] + b + seq![src] + a;
    assert(args.subrange(1, 1 + b.len() as int) =~= b);
    assert(args.subrange(2 + b.len() as int, 2 + b.len() as int + a.len()) =~= a);
}

/// One source file, with any number of outputs named before and behind it, asks
/// for the build of that file to the output named last.
pub proof fn law_build_is_asked(
    before: Seq<Seq<char>>,
    src: Seq<char>,
    after: Seq<Seq<char>>,
)
    requires
        src != "-o"@,
    ensures
        command_of(seq!["build"@] + named(before) + seq![src] + named(after)) == (
        CommandView::Build { src, out: last_named(before + after) }),
{
    let args = seq!["build"@] + named(before) + seq![src] + named(after);
    let n = 2 * before.len();
    lemma_parts("build"@, named(before), src, named(after));
    lemma_outputs_named(args, 1, None, None, before);
    let out = last_named(before);
    lemma_outputs_named(args, 2 + n, Some(src), out, after);
    let out2 = last_named(before + after);
    assert(build_args(args, args.len(), Some(src), out2) == Some((src, out2)));
    if after.len() > 0 {
        assert((before + after).last() == after.last());
    } else {
        assert(before + after =~= before);
    }
}

/// A source file and an output may be named in either order; without an output
/// none is named.
pub proof fn law_build_to_output(src: Seq<char>, out: Seq<char>)
    requires
        src != "-o"@,
    ensures
        command_of(seq!["build"@, src, "-o"@, out]) == (CommandView::Build { src, out: Some(out) }),
        command_of(seq!["build"@, "-o"@, out, src]) == (CommandView::Build { src, out: Some(out) }),
        command_of(seq!["build"@, src]) == (CommandView::Build { src, out: None }),
{
    let none = Seq::<Seq<char>>::empty();
    law_build_is_asked(none, src, seq![out]);
    assert(seq!["build"@] + named(none) + seq![src] + named(seq![out]) =~= seq![
        "build"@,
        src,
        "-o"@,
        out,
    ]);
    law_build_is_asked(seq![out], src, none);
    assert(seq!["build"@] + named(seq![out]) + seq![src] + named(none) =~= seq![
        "build"@,
        "-o"@,
        out,
        src,
    ]);
    law_build_is_asked(none, src, none);
    assert(seq!["build"@] + named(none) + seq![src] + named(none) =~= seq!["build"@, src]);
}

/// Do the arguments ask for the build of one source file, with outputs named
/// before and behind it?
pub open spec fn asks_build(
    args: Seq<Seq<char>>,
    before: Seq<Seq<char>>,
    src: Seq<char>,
    after: Seq<Seq<char>>,
) -> bool {
    src != "-o"@ && args == seq!["build"@] + named(before) + seq![src] + named(after)
}

/// What has been read of the arguments so far, as outputs and a source file.
spec fn read_so_far(
    rest: Seq<Seq<char>>,
    i: nat,
    src: Option<Seq<char>>,
    before: Seq<Seq<char>>,
    after: Seq<Seq<char>>,
) -> bool {
    i <= rest.len() && match src {
        None => after.len() == 0 && rest.take(i as int) == seq!["build"@] + named(before),
        Some(s) => s != "-o"@ && rest.take(i as int) == seq!["build"@] + named(before) + seq![s]
            + named(after),
    }
}

proof fn lemma_named_push(outs: Seq<Seq<char>>, out: Seq<char>)
    ensures
        named(outs.push(out)) == named(outs) + seq!["-o"@, out],
{
    let n = 2 * outs.len() as int;
    assert(n % 2 == 0 && n / 2 == outs.len() && (n + 1) % 2 == 1 && (n + 1) / 2 == outs.len());
    assert(named(outs.push(out)) =~= named(outs) + seq!["-o"@, out]);
}

proof fn lemma_build_read(
    rest: Seq<Seq<char>>,
    i: nat,
    src: Option<Seq<char>>,
    out: Option<Seq<char>>,
    before: Seq<Seq<char>>,
    after: Seq<Seq<char>>,
)
    requires
        read_so_far(rest, i, src, before, after),
        build_args(rest, i, src, out) is Some,
    ensures
        exists|b: Seq<Seq<char>>, s: Seq<char>, a: Seq<Seq<char>>| asks_build(rest, b, s, a),
    decreases rest.len() - i,
{
    if i >= rest.len() {
        assert(rest.take(i as int) =~= rest);
        assert(asks_build(rest, before, src->0, after));
    } else if rest[i as int] == "-o"@ {
        let o = rest[i as int + 1];
        assert(rest.take(i as int + 2) =~= rest.take(i as int) + seq!["-o"@, o]);
        if src is None {
            lemma_named_push(before, o);
            assert(rest.take(i as int + 2) =~= seq!["build"@] + named(before.push(o)));
            lemma_build_read(rest, i + 2, src, Some(o), before.push(o), after);
        } else {
            lemma_named_push(after, o);
            assert(rest.take(i as int + 2) =~= seq!["build"@] + named(before) + seq![src->0] + named(
                after.push(o),
            ));
            lemma_build_read(rest, i + 2, src, Some(o), before, after.push(o));
        }
    } else {
        let s = rest[i as int];
        assert(rest.take(i as int + 1) =~= rest.take(i as int).push(s));
        assert(rest.take(i as int + 1) =~= seq!["build"@] + named(before) + seq![s] + named(after));
        lemma_build_read(rest, i + 1, Some(s), out, before, after);
    }
}

/// Nothing else asks for a build: without a source file, with a second one, or
/// with an `-o` that nothing follows, the answer is how the command is used.
pub proof fn law_only_builds_are_built(args: Seq<Seq<char>>)
    ensures
        command_of(args) is Build == exists|b: Seq<Seq<char>>, s: Seq<char>, a: Seq<Seq<char>>|
            asks_build(args, b, s, a),
        args.len() > 0 && args[0] == "build"@ ==> command_of(args) is Build || command_of(
            args,
        ) is Usage,
{
    if command_of(args) is Build {
        let none = Seq::<Seq<char>>::empty();
        assert(args.take(1) =~= seq!["build"@] + named(none));
        lemma_build_read(args, 1, None, None, none, none);
    } else if exists|b: Seq<Seq<char>>, s: Seq<char>, a: Seq<Seq<char>>| asks_build(args, b, s, a) {
        let (b, s, a) = choose|b: Seq<Seq<char>>, s: Seq<char>, a: Seq<Seq<char>>|
            asks_build(args, b, s, a);
        law_build_is_asked(b, s, a);
    }
}

/// `run` with a source file asks for its run, whatever follows; without one, and
/// with any other word or none, the answer is how the command is used.
pub proof fn law_run_is_asked(src: Seq<char>, more: Seq<Seq<char>>, args: Seq<Seq<char>>)
    ensures
        command_of(seq!["run"@, src] + more) == (CommandView::Run { src }),
        command_of(seq!["run"@]) is Usage,
        args.len() == 0 || args[0] != "build"@ && args[0] != "run"@ ==> command_of(args) is Usage,
{
    reveal_strlit("build");
    reveal_strlit("run");
    assert("build"@.len() != "run"@.len());
}

} // verus!
