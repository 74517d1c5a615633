use vstd::prelude::*;
use vstd::string::*;

use vstd::utf8::is_ascii_chars;

use crate::environment::{fresh_scope, heap_in_order, Environment, Heap, ScopeV};
use crate::interpreter::{interpret_from, lines_model, Fault, FaultV, Halt, Interpreter, RuntimeError, State, FUEL};
use crate::numbers::{answered_by, lemma_extends_refl, Answer, Numerics};
use crate::parser::{p_program, Failure, ParseFailure, Parser};
use crate::scanner::{after_scan_errors, law_tokens_end_with_eof, literals_parsed_by, scan_from, shapes, ScanError, Scanner};
use crate::stmt::stmts_model;
use crate::text::{decimal, push_decimal};
use crate::token::{Token, TokenType};

verus! {

/// One line that the interpreter writes, to standard output or to standard
/// error.
#[derive(Debug, PartialEq)]
pub enum Output {
    Stdout(String),
    Stderr(String),
}

/// The model of an [`Output`].
pub enum OutputView {
    Stdout(Seq<char>),
    Stderr(Seq<char>),
}

impl View for Output {
    type V = OutputView;

    open spec fn view(&self) -> OutputView {
        match self {
            Output::Stdout(s) => OutputView::Stdout(s@),
            Output::Stderr(s) => OutputView::Stderr(s@),
        }
    }
}

/// The state of a Lox session: whether an error has been reported, the
/// lines written so far that the embedding program has not yet taken, and
/// the environments, with the global one, that each run continues in.
pub struct Lox {
    had_error: bool,
    had_runtime_error: bool,
    output: Vec<Output>,
    heap: Heap,
    globals: usize,
}

/// The model of a [`Lox`] session.
pub struct LoxView {
    pub had_error: bool,
    pub had_runtime_error: bool,
    pub output: Seq<OutputView>,
    pub heap: Seq<ScopeV>,
    pub globals: nat,
}

impl View for Lox {
    type V = LoxView;

    closed spec fn view(&self) -> LoxView {
        LoxView {
            had_error: self.had_error,
            had_runtime_error: self.had_runtime_error,
            output: self.output@.map_values(|o: Output| o@),
            heap: self.heap@,
            globals: self.globals as nat,
        }
    }
}

/// The line that reports an error found at `line` before the program runs:
/// `[line N] Error<location>: <message>`.
pub open spec fn report_text(line: nat, location: Seq<char>, message: Seq<char>) -> Seq<char> {
    "[line "@ + decimal(line) + "] Error"@ + location + ": "@ + message
}

/// The session after an error found at `line` before the program runs has
/// been reported.
pub open spec fn after_report(v: LoxView, line: nat, location: Seq<char>, message: Seq<char>) -> LoxView {
    LoxView {
        had_error: true,
        output: v.output.push(OutputView::Stdout(report_text(line, location, message))),
        ..v
    }
}

/// The line that reports a runtime error: `<message> \n[line N]`.
pub open spec fn runtime_text(message: Seq<char>, line: nat) -> Seq<char> {
    message + " \n[line "@ + decimal(line) + "]"@
}

/// The session after a syntax error at `token` has been reported.
pub open spec fn after_parser_error(v: LoxView, token: Token, message: Seq<char>) -> LoxView {
    if token.token_type == TokenType::Eof {
        after_report(v, token.line as nat, " at end"@, message)
    } else {
        after_report(v, token.line as nat, " at '"@ + token.lexeme@ + "'"@, message)
    }
}

/// The session after a runtime error at `token` has been reported.
pub open spec fn after_runtime_error(v: LoxView, token: Token, message: Seq<char>) -> LoxView {
    LoxView {
        had_runtime_error: true,
        output: v.output.push(OutputView::Stderr(runtime_text(message, token.line as nat))),
        ..v
    }
}

pub open spec fn stdout_lines(lines: Seq<Seq<char>>) -> Seq<OutputView> {
    lines.map_values(|l: Seq<char>| OutputView::Stdout(l))
}

/// The session after the tokens `tokens` have been parsed and, where they
/// form a program, run in the session's global environment with the number
/// backend's answers `log`; and where the program halted, why. `None` where
/// `log` does not answer the questions the program asks.
pub open spec fn run_result(v: LoxView, tokens: Seq<Token>, log: Seq<Answer>) -> Option<(LoxView, Option<Halt>)> {
    match p_program(tokens, 0, Seq::empty()) {
        Err((_, Failure::Error(token, message))) => Some((after_parser_error(v, token, message), None)),
        Err((_, Failure::Unreachable)) => Some((v, Some(Halt::Unreachable))),
        Ok((_, sts)) => {
            let (s, _, r) = interpret_from(FUEL as nat, State { heap: v.heap, out: Seq::empty() }, log, 0, v.globals, sts);
            let printed = LoxView { output: v.output + stdout_lines(s.out), heap: s.heap, ..v };
            match r {
                Ok(()) => Some((printed, None)),
                Err(FaultV::Error(token, message)) => Some((after_runtime_error(printed, token, message), None)),
                Err(FaultV::Halt(h)) => Some((printed, Some(h))),
                Err(FaultV::Mismatch) => None,
            }
        },
    }
}

/// Source text that does not parse runs nothing: its first syntax error is
/// reported on one line, no runtime error is, and the environments are left
/// as they were.
pub proof fn law_syntax_error_runs_nothing(v: LoxView, tokens: Seq<Token>, log: Seq<Answer>)
    requires
        p_program(tokens, 0, Seq::empty()) matches Err((_, Failure::Error(_, _))),
    ensures
        run_result(v, tokens, log) matches Some((w, halt)) && halt is None && w.had_error && w.had_runtime_error
            == v.had_runtime_error && w.output.len() == v.output.len() + 1 && w.output.take(v.output.len() as int) == v.output
            && w.heap == v.heap && w.globals == v.globals,
{
    if let Some((w, _)) = run_result(v, tokens, log) {
        assert(w.output.take(v.output.len() as int) =~= v.output);
    }
}

/// Running source text never takes back a reported error, and only adds
/// lines after those already written.
pub proof fn law_run_only_adds(v: LoxView, tokens: Seq<Token>, log: Seq<Answer>)
    ensures
        run_result(v, tokens, log) matches Some((w, _)) ==> (v.had_error ==> w.had_error) && (v.had_runtime_error
            ==> w.had_runtime_error) && v.output.len() <= w.output.len() && w.output.take(v.output.len() as int) == v.output,
{
    if let Some((w, _)) = run_result(v, tokens, log) {
        assert(w.output.take(v.output.len() as int) =~= v.output);
    }
}

/// Reporting the scanner's errors sets the error flag exactly where there
/// is one, and leaves the runtime flag and the environments as they were.
pub proof fn law_scan_errors_flag(v: LoxView, errors: Seq<ScanError>)
    ensures
        after_scan_errors(v, errors).had_error == (v.had_error || errors.len() > 0),
        after_scan_errors(v, errors).had_runtime_error == v.had_runtime_error,
        after_scan_errors(v, errors).heap == v.heap,
        after_scan_errors(v, errors).globals == v.globals,
    decreases errors.len(),
{
    if errors.len() > 0 {
        law_scan_errors_flag(after_report(v, errors[0].0, Seq::empty(), errors[0].1), errors.drop_first());
    }
}

/// After a run of source text `text` whose tokens are `tokens`, the error
/// flag is set exactly where it was set before, the scanner reported an
/// error, or the tokens do not parse; the runtime flag exactly where it was
/// set before or the program failed with an error. No flag is cleared.
pub proof fn law_run_flags(v: LoxView, text: Seq<char>, tokens: Seq<Token>, log: Seq<Answer>)
    ensures
        run_result(after_scan_errors(v, scan_from(text, 0, 0).1), tokens, log) matches Some((w, _)) ==> {
            &&& w.had_error == (v.had_error || scan_from(text, 0, 0).1.len() > 0 || p_program(tokens, 0, Seq::empty()) matches Err(
                (_, Failure::Error(_, _)),
            ))
            &&& w.had_runtime_error == (v.had_runtime_error || (p_program(tokens, 0, Seq::empty()) matches Ok((_, sts))
                && interpret_from(FUEL as nat, State { heap: v.heap, out: Seq::empty() }, log, 0, v.globals, sts).2 matches Err(
                FaultV::Error(_, _),
            )))
        },
{
    law_scan_errors_flag(v, scan_from(text, 0, 0).1);
}

impl Lox {
    /// A new session, with an empty global environment.
    pub fn new() -> (lox: Self)
        ensures
            lox@ == (LoxView {
                had_error: false,
                had_runtime_error: false,
                output: Seq::empty(),
                heap: seq![fresh_scope(None)],
                globals: 0,
            }),
    {
        let mut heap = Heap::new();
        let globals = Environment::new_top_level(&mut heap);
        let lox = Lox { had_error: false, had_runtime_error: false, output: Vec::new(), heap, globals };
        assert(lox@.output =~= Seq::<OutputView>::empty());
        assert(lox@.heap =~= seq![fresh_scope(None)]);
        lox
    }

    /// Whether a scanner or parser error has been reported.
    pub fn had_error(&self) -> (r: bool)
        ensures
            r == self@.had_error,
    {
        self.had_error
    }

    /// Whether a runtime error has been reported.
    pub fn had_runtime_error(&self) -> (r: bool)
        ensures
            r == self@.had_runtime_error,
    {
        self.had_runtime_error
    }

    /// The lines written so far, which are handed over and cleared.
    pub fn take_output(&mut self) -> (lines: Vec<Output>)
        ensures
            lines@.map_values(|o: Output| o@) == old(self)@.output,
            final(self)@ == (LoxView { output: Seq::empty(), ..old(self)@ }),
    {
        let mut lines: Vec<Output> = Vec::new();
        std::mem::swap(&mut lines, &mut self.output);
        assert(self@.output =~= Seq::<OutputView>::empty());
        lines
    }

    /// Forgets a reported scanner or parser error, so that a session at the
    /// prompt goes on.
    pub fn clear_error(&mut self)
        ensures
            final(self)@ == (LoxView { had_error: false, ..old(self)@ }),
    {
        self.had_error = false;
    }

    /// Reports an error that the scanner found at `line`.
    pub fn scanner_error(&mut self, line: usize, message: String)
        ensures
            final(self)@ == after_report(old(self)@, line as nat, Seq::empty(), message@),
    {
        self.report(line, String::new(), message);
    }

    fn report(&mut self, line: usize, location: String, message: String)
        ensures
            final(self)@ == after_report(old(self)@, line as nat, location@, message@),
    {
        let mut text = String::new();
        text.append("[line ");
        push_decimal(&mut text, line);
        text.append("] Error");
        text.append(location.as_str());
        text.append(": ");
        text.append(message.as_str());
        assert(text@ =~= report_text(line as nat, location@, message@));
        self.output.push(Output::Stdout(text));
        self.had_error = true;
        assert(self@.output =~= old(self)@.output.push(OutputView::Stdout(report_text(line as nat, location@, message@))));
    }

    /// Runs one piece of source text: scans it, parses it and, where it
    /// parses, runs it in the session's global environment, so that what one
    /// run defines the next one sees; reports every error. Gives the reason
    /// where the program halted.
    #[verifier::rlimit(100)]
    #[verifier::spinoff_prover]
    pub fn run<N: Numerics>(&mut self, line: String, numbers: &N) -> (halt: Option<Halt>)
        requires
            is_ascii_chars(line@),
            line@.len() <= usize::MAX,
        ensures
            final(self)@.globals == old(self)@.globals,
            old(self)@.heap.len() <= final(self)@.heap.len(),
            heap_in_order(old(self)@.heap) ==> heap_in_order(final(self)@.heap),
            old(self)@.globals >= old(self)@.heap.len() ==> final(self)@ == old(self)@ && halt == Some(Halt::Unreachable),
            old(self)@.globals < old(self)@.heap.len() ==> exists|tokens: Seq<Token>, log: Seq<Answer>|
                shapes(tokens) == scan_from(line@, 0, 0).0 && literals_parsed_by(numbers, tokens) && answered_by(numbers, log) && #[trigger] run_result(
                    after_scan_errors(old(self)@, scan_from(line@, 0, 0).1),
                    tokens,
                    log,
                ) == Some((final(self)@, halt)),
    {
        if self.globals >= self.heap.len() {
            return Some(Halt::Unreachable);
        }
        let ghost text = line@;
        let mut scanner = Scanner::new(line);
        let tokens = scanner.scan_tokens(self, numbers);
        proof {
            law_scan_errors_flag(old(self)@, scan_from(text, 0, 0).1);
        }
        let ghost v1 = self@;
        let ghost tk = tokens@;
        proof {
            law_tokens_end_with_eof(text, 0, 0);
            assert(shapes(tk)[tk.len() - 1] == tk[tk.len() - 1].shape());
            assert(tk[tk.len() - 1].token_type == TokenType::Eof);
        }
        let mut parser = Parser::new(tokens);
        match parser.parse_checked() {
            Err(ParseFailure::Error(e)) => {
                let ghost et = e.token;
                let ghost em = e.message@;
                self.parser_error(e.token, e.message);
                assert(run_result(v1, tk, Seq::empty()) == Some((self@, None::<Halt>)));
                None
            },
            Err(ParseFailure::Unreachable) => {
                assert(run_result(v1, tk, Seq::empty()) == Some((self@, Some(Halt::Unreachable))));
                Some(Halt::Unreachable)
            },
            Ok(statements) => {
                let ghost h0 = self.heap@;
                let mut heap = Heap::new();
                std::mem::swap(&mut heap, &mut self.heap);
                let mut it = Interpreter::from_heap(numbers, heap);
                let r = it.interpret_in(self.globals, &statements);
                let ghost log = it.log();
                let ghost s = it.state();
                proof {
                    lemma_extends_refl(log);
                    assert(interpret_from(FUEL as nat, State { heap: h0, out: Seq::empty() }, log, 0, self.globals as nat, stmts_model(statements@))
                        == (s, log.len(), crate::interpreter::program_outcome(r)));
                    if heap_in_order(h0) {
                        crate::interpreter::law_interpret_keeps_names_in_order(
                            FUEL as nat,
                            State { heap: h0, out: Seq::empty() },
                            log,
                            0,
                            self.globals as nat,
                            stmts_model(statements@),
                        );
                    }
                }
                let (heap, lines) = it.into_parts();
                self.heap = heap;
                self.push_stdout(lines);
                let halt = match r {
                    Ok(()) => None,
                    Err(Fault::Error(e)) => {
                        self.interpreter_error(e);
                        None
                    },
                    Err(Fault::Halt(h)) => Some(h),
                };
                assert(run_result(v1, tk, log) == Some((self@, halt)));
                halt
            },
        }
    }

    fn push_stdout(&mut self, lines: Vec<String>)
        ensures
            final(self)@ == (LoxView { output: old(self)@.output + stdout_lines(lines_model(lines@)), ..old(self)@ }),
    {
        let mut i: usize = 0;
        while i < lines.len()
            invariant
                i <= lines@.len(),
                self@ == (LoxView { output: old(self)@.output + stdout_lines(lines_model(lines@.take(i as int))), ..old(self)@ }),
            decreases lines@.len() - i,
        {
            let ghost before = self@.output;
            self.output.push(Output::Stdout(lines[i].clone()));
            assert(self@.output =~= before.push(OutputView::Stdout(lines@[i as int]@)));
            assert(lines_model(lines@.take(i + 1)) =~= lines_model(lines@.take(i as int)).push(lines@[i as int]@));
            assert(stdout_lines(lines_model(lines@.take(i + 1))) =~= stdout_lines(lines_model(lines@.take(i as int))).push(
                OutputView::Stdout(lines@[i as int]@),
            ));
            assert(self@.output =~= old(self)@.output + stdout_lines(lines_model(lines@.take(i + 1))));
            i = i + 1;
        }
        assert(lines@.take(lines@.len() as int) =~= lines@);
    }

    /// Reports a syntax error at `token`.
    fn parser_error(&mut self, token: Token, message: String)
        ensures
            final(self)@ == after_parser_error(old(self)@, token, message@),
    {
        if token.token_type == TokenType::Eof {
            self.report(token.line, String::from_str(" at end"), message);
        } else {
            let mut location = String::from_str(" at '");
            location.append(token.lexeme.as_str());
            location.append("'");
            self.report(token.line, location, message);
        }
    }

    /// Reports a runtime error.
    fn interpreter_error(&mut self, error: RuntimeError)
        ensures
            final(self)@ == after_runtime_error(old(self)@, error.token, error.message@),
    {
        let mut text = error.message.clone();
        text.append(" \n[line ");
        push_decimal(&mut text, error.token.line);
        text.append("]");
        assert(text@ =~= runtime_text(error.message@, error.token.line as nat));
        self.output.push(Output::Stderr(text));
        self.had_runtime_error = true;
        assert(self@.output =~= old(self)@.output.push(OutputView::Stderr(runtime_text(error.message@, error.token.line as nat))));
    }
}

} // verus!
