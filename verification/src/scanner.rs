use vstd::prelude::*;
use vstd::string::*;
use vstd::utf8::is_ascii_chars;

use crate::lox::{after_report, Lox, LoxView};
use crate::numbers::{gives_parse, parse_with, Numerics};
use crate::render::token_type_name;
use crate::token::{Literal, LiteralShape, Token, TokenShape, TokenType};

verus! {

broadcast use vstd::string::group_string_axioms;

// ---------------------------------------------------------------------------
// The lexical grammar
// ---------------------------------------------------------------------------

pub open spec fn spec_is_alpha(c: char) -> bool {
    ('a' <= c && c <= 'z') || ('A' <= c && c <= 'Z') || c == '_'
}

pub open spec fn spec_is_digit(c: char) -> bool {
    '0' <= c && c <= '9'
}

pub open spec fn spec_is_alpha_numeric(c: char) -> bool {
    spec_is_alpha(c) || spec_is_digit(c)
}

/// The reserved word that `s` spells, if any.
pub open spec fn spec_keyword(s: Seq<char>) -> Option<TokenType> {
    if s == "and"@ {
        Some(TokenType::And)
    } else if s == "class"@ {
        Some(TokenType::Class)
    } else if s == "else"@ {
        Some(TokenType::Else)
    } else if s == "false"@ {
        Some(TokenType::False)
    } else if s == "for"@ {
        Some(TokenType::For)
    } else if s == "fun"@ {
        Some(TokenType::Fun)
    } else if s == "if"@ {
        Some(TokenType::If)
    } else if s == "nil"@ {
        Some(TokenType::Nil)
    } else if s == "or"@ {
        Some(TokenType::Or)
    } else if s == "print"@ {
        Some(TokenType::Print)
    } else if s == "return"@ {
        Some(TokenType::Return)
    } else if s == "super"@ {
        Some(TokenType::Super)
    } else if s == "this"@ {
        Some(TokenType::This)
    } else if s == "true"@ {
        Some(TokenType::True)
    } else if s == "var"@ {
        Some(TokenType::Var)
    } else if s == "while"@ {
        Some(TokenType::While)
    } else {
        None
    }
}

/// `c` in lower case, where it is an ASCII capital letter.
pub open spec fn lower_char(c: char) -> char {
    if 'A' <= c && c <= 'Z' {
        ((c as u32 + 32) as u8) as char
    } else {
        c
    }
}

/// `s` with its ASCII capital letters in lower case.
pub open spec fn lowercase(s: Seq<char>) -> Seq<char> {
    s.map_values(|c: char| lower_char(c))
}

/// Each reserved word scans to the token type that it names: the word is
/// the type's name in lower case (`false` gives `False`, `while` gives
/// `While`). So no two reserved words give the same token type.
pub proof fn law_keyword_names_its_type(s: Seq<char>)
    ensures
        spec_keyword(s) matches Some(ty) ==> s == lowercase(token_type_name(ty)),
{
    reveal_strlit("and");
    reveal_strlit("And");
    assert(lowercase("And"@) =~= "and"@);
    reveal_strlit("class");
    reveal_strlit("Class");
    assert(lowercase("Class"@) =~= "class"@);
    reveal_strlit("else");
    reveal_strlit("Else");
    assert(lowercase("Else"@) =~= "else"@);
    reveal_strlit("false");
    reveal_strlit("False");
    assert(lowercase("False"@) =~= "false"@);
    reveal_strlit("for");
    reveal_strlit("For");
    assert(lowercase("For"@) =~= "for"@);
    reveal_strlit("fun");
    reveal_strlit("Fun");
    assert(lowercase("Fun"@) =~= "fun"@);
    reveal_strlit("if");
    reveal_strlit("If");
    assert(lowercase("If"@) =~= "if"@);
    reveal_strlit("nil");
    reveal_strlit("Nil");
    assert(lowercase("Nil"@) =~= "nil"@);
    reveal_strlit("or");
    reveal_strlit("Or");
    assert(lowercase("Or"@) =~= "or"@);
    reveal_strlit("print");
    reveal_strlit("Print");
    assert(lowercase("Print"@) =~= "print"@);
    reveal_strlit("return");
    reveal_strlit("Return");
    assert(lowercase("Return"@) =~= "return"@);
    reveal_strlit("super");
    reveal_strlit("Super");
    assert(lowercase("Super"@) =~= "super"@);
    reveal_strlit("this");
    reveal_strlit("This");
    assert(lowercase("This"@) =~= "this"@);
    reveal_strlit("true");
    reveal_strlit("True");
    assert(lowercase("True"@) =~= "true"@);
    reveal_strlit("var");
    reveal_strlit("Var");
    assert(lowercase("Var"@) =~= "var"@);
    reveal_strlit("while");
    reveal_strlit("While");
    assert(lowercase("While"@) =~= "while"@);
}

/// Two words that scan to the same reserved token type are the same word.
pub proof fn law_keywords_are_distinct(a: Seq<char>, b: Seq<char>)
    requires
        spec_keyword(a) is Some,
        spec_keyword(a) == spec_keyword(b),
    ensures
        a == b,
{
    law_keyword_names_its_type(a);
    law_keyword_names_its_type(b);
}

/// The end of the run of digits that starts at `i`.
pub open spec fn digits_end(s: Seq<char>, i: nat) -> nat
    decreases s.len() - i,
{
    if i < s.len() && spec_is_digit(s[i as int]) {
        digits_end(s, i + 1)
    } else {
        i
    }
}

/// The end of the run of letters, digits and underscores that starts at `i`.
pub open spec fn word_end(s: Seq<char>, i: nat) -> nat
    decreases s.len() - i,
{
    if i < s.len() && spec_is_alpha_numeric(s[i as int]) {
        word_end(s, i + 1)
    } else {
        i
    }
}

/// The first newline at or after `i` (or the end of the source).
pub open spec fn line_end(s: Seq<char>, i: nat) -> nat
    decreases s.len() - i,
{
    if i < s.len() && s[i as int] != '\n' {
        line_end(s, i + 1)
    } else {
        i
    }
}

/// The first double quote at or after `i` (or the end of the source).
pub open spec fn quote_end(s: Seq<char>, i: nat) -> nat
    decreases s.len() - i,
{
    if i < s.len() && s[i as int] != '"' {
        quote_end(s, i + 1)
    } else {
        i
    }
}

/// The number of newlines in `s[i..j]`.
pub open spec fn newlines(s: Seq<char>, i: nat, j: nat) -> nat
    decreases j,
{
    if i < j && j <= s.len() {
        newlines(s, i, (j - 1) as nat) + (if s[j - 1] == '\n' { 1nat } else { 0nat })
    } else {
        0
    }
}

/// The end of the numeric literal whose first digit is at `start`: its digits,
/// and a `.` with the digits after it when a digit follows the `.`.
pub open spec fn number_end(s: Seq<char>, start: nat) -> nat {
    let j = digits_end(s, start + 1);
    if j + 1 < s.len() && s[j as int] == '.' && spec_is_digit(s[(j + 1) as int]) {
        digits_end(s, j + 1)
    } else {
        j
    }
}

/// What the scanner does with the lexeme that starts at `start`: where the
/// next lexeme starts, the line there, and the token or error it produces.
pub struct ScanStep {
    pub next: nat,
    pub line: nat,
    pub token: Option<TokenShape>,
    pub error: Option<Seq<char>>,
}

pub open spec fn simple_token(s: Seq<char>, start: nat, end: nat, line: nat, t: TokenType) -> ScanStep {
    ScanStep {
        next: end,
        line,
        token: Some(TokenShape { token_type: t, lexeme: s.subrange(start as int, end as int), literal: LiteralShape::Nil, line }),
        error: None,
    }
}

pub open spec fn skip(end: nat, line: nat) -> ScanStep {
    ScanStep { next: end, line, token: None, error: None }
}

/// A one-character token `one`, or the two-character token `two` when the
/// next character is `=`.
pub open spec fn with_equal(s: Seq<char>, start: nat, line: nat, one: TokenType, two: TokenType) -> ScanStep {
    if start + 1 < s.len() && s[(start + 1) as int] == '=' {
        simple_token(s, start, start + 2, line, two)
    } else {
        simple_token(s, start, start + 1, line, one)
    }
}

pub open spec fn string_step(s: Seq<char>, start: nat, line: nat) -> ScanStep {
    let q = quote_end(s, start + 1);
    let line2 = line + newlines(s, start + 1, q);
    if q >= s.len() {
        ScanStep { next: q, line: line2, token: None, error: Some("Unterminated string."@) }
    } else {
        ScanStep {
            next: q + 1,
            line: line2,
            token: Some(TokenShape {
                token_type: TokenType::Str,
                lexeme: s.subrange(start as int, (q + 1) as int),
                literal: LiteralShape::String(s.subrange((start + 1) as int, q as int)),
                line: line2,
            }),
            error: None,
        }
    }
}

pub open spec fn number_step(s: Seq<char>, start: nat, line: nat) -> ScanStep {
    let end = number_end(s, start);
    ScanStep {
        next: end,
        line,
        token: Some(TokenShape {
            token_type: TokenType::Number,
            lexeme: s.subrange(start as int, end as int),
            literal: LiteralShape::Number,
            line,
        }),
        error: None,
    }
}

pub open spec fn word_step(s: Seq<char>, start: nat, line: nat) -> ScanStep {
    let end = word_end(s, start + 1);
    let text = s.subrange(start as int, end as int);
    let t = match spec_keyword(text) {
        Some(k) => k,
        None => TokenType::Identifier,
    };
    simple_token(s, start, end, line, t)
}

/// The lexical grammar: what the scanner does at `start` (which is inside the
/// source).
pub open spec fn scan_step(s: Seq<char>, start: nat, line: nat) -> ScanStep {
    let c = s[start as int];
    let i = start + 1;
    if c == '(' {
        simple_token(s, start, i, line, TokenType::LeftParen)
    } else if c == ')' {
        simple_token(s, start, i, line, TokenType::RightParen)
    } else if c == '{' {
        simple_token(s, start, i, line, TokenType::LeftBrace)
    } else if c == '}' {
        simple_token(s, start, i, line, TokenType::RightBrace)
    } else if c == ',' {
        simple_token(s, start, i, line, TokenType::Comma)
    } else if c == '.' {
        simple_token(s, start, i, line, TokenType::Dot)
    } else if c == '-' {
        simple_token(s, start, i, line, TokenType::Minus)
    } else if c == '+' {
        simple_token(s, start, i, line, TokenType::Plus)
    } else if c == ';' {
        simple_token(s, start, i, line, TokenType::Semicolon)
    } else if c == '*' {
        simple_token(s, start, i, line, TokenType::Star)
    } else if c == '!' {
        with_equal(s, start, line, TokenType::Bang, TokenType::BangEqual)
    } else if c == '=' {
        with_equal(s, start, line, TokenType::Equal, TokenType::EqualEqual)
    } else if c == '<' {
        with_equal(s, start, line, TokenType::Less, TokenType::LessEqual)
    } else if c == '>' {
        with_equal(s, start, line, TokenType::Greater, TokenType::GreaterEqual)
    } else if c == '/' {
        if i < s.len() && s[i as int] == '/' {
            skip(line_end(s, i + 1), line)
        } else {
            simple_token(s, start, i, line, TokenType::Slash)
        }
    } else if c == ' ' || c == '\r' || c == '\t' {
        skip(i, line)
    } else if c == '\n' {
        skip(i, line + 1)
    } else if c == '"' {
        string_step(s, start, line)
    } else if spec_is_digit(c) {
        number_step(s, start, line)
    } else if spec_is_alpha(c) {
        word_step(s, start, line)
    } else {
        ScanStep { next: i, line, token: None, error: Some("Unexpected character."@) }
    }
}

pub open spec fn eof_shape(line: nat) -> TokenShape {
    TokenShape { token_type: TokenType::Eof, lexeme: Seq::empty(), literal: LiteralShape::Nil, line }
}

pub open spec fn opt_seq<A>(o: Option<A>) -> Seq<A> {
    match o {
        Some(a) => seq![a],
        None => Seq::empty(),
    }
}

/// An error the scanner reports: its line and message.
pub type ScanError = (nat, Seq<char>);

pub open spec fn opt_error(o: Option<Seq<char>>, line: nat) -> Seq<ScanError> {
    match o {
        Some(m) => seq![(line, m)],
        None => Seq::empty(),
    }
}

/// The tokens (ending with an end-of-file token) and errors that scanning
/// `s` from `pos`, at line `line`, produces.
pub open spec fn scan_from(s: Seq<char>, pos: nat, line: nat) -> (Seq<TokenShape>, Seq<ScanError>)
    decreases s.len() - pos,
{
    if pos >= s.len() {
        (seq![eof_shape(line)], Seq::empty())
    } else {
        let st = scan_step(s, pos, line);
        proof {
            lemma_scan_step_advances(s, pos, line);
        }
        let rest = scan_from(s, st.next, st.line);
        (opt_seq(st.token) + rest.0, opt_error(st.error, st.line) + rest.1)
    }
}

pub proof fn law_tokens_end_with_eof(s: Seq<char>, pos: nat, line: nat)
    ensures
        scan_from(s, pos, line).0.len() > 0,
        scan_from(s, pos, line).0.last().token_type == TokenType::Eof,
    decreases s.len() - pos,
{
    if pos < s.len() {
        let st = scan_step(s, pos, line);
        lemma_scan_step_advances(s, pos, line);
        law_tokens_end_with_eof(s, st.next, st.line);
        let rest = scan_from(s, st.next, st.line).0;
        assert((opt_seq(st.token) + rest).last() == rest.last());
    }
}

proof fn lemma_newlines_split(s: Seq<char>, i: nat, j: nat, k: nat)
    requires
        i <= j <= k <= s.len(),
    ensures
        newlines(s, i, k) == newlines(s, i, j) + newlines(s, j, k),
    decreases k,
{
    if j < k {
        lemma_newlines_split(s, i, j, (k - 1) as nat);
    }
}

proof fn lemma_no_newlines(s: Seq<char>, i: nat, j: nat)
    requires
        i <= j <= s.len(),
        forall|k: int| i <= k < j ==> s[k] != '\n',
    ensures
        newlines(s, i, j) == 0,
    decreases j,
{
    if i < j {
        lemma_no_newlines(s, i, (j - 1) as nat);
    }
}

proof fn lemma_digits_run(s: Seq<char>, i: nat)
    ensures
        forall|k: int| i <= k < digits_end(s, i) ==> spec_is_digit(#[trigger] s[k]),
    decreases s.len() - i,
{
    if i < s.len() && spec_is_digit(s[i as int]) {
        lemma_digits_run(s, i + 1);
    }
}

proof fn lemma_word_run(s: Seq<char>, i: nat)
    ensures
        forall|k: int| i <= k < word_end(s, i) ==> spec_is_alpha_numeric(#[trigger] s[k]),
    decreases s.len() - i,
{
    if i < s.len() && spec_is_alpha_numeric(s[i as int]) {
        lemma_word_run(s, i + 1);
    }
}

proof fn lemma_line_run(s: Seq<char>, i: nat)
    ensures
        forall|k: int| i <= k < line_end(s, i) ==> #[trigger] s[k] != '\n',
    decreases s.len() - i,
{
    if i < s.len() && s[i as int] != '\n' {
        lemma_line_run(s, i + 1);
    }
}

/// One step of the scanner counts the newlines it reads, and a token it
/// makes carries the line where the token ends and is never the end of
/// the file.
proof fn lemma_step_lines(s: Seq<char>, start: nat, line: nat)
    requires
        start < s.len(),
    ensures
        scan_step(s, start, line).line == line + newlines(s, start, scan_step(s, start, line).next),
        scan_step(s, start, line).token matches Some(t) ==> t.line == scan_step(s, start, line).line && t.token_type != TokenType::Eof,
{
    let st = scan_step(s, start, line);
    let c = s[start as int];
    lemma_scan_step_advances(s, start, line);
    if c == '"' {
        let q = quote_end(s, start + 1);
        lemma_quote_end(s, start + 1);
        lemma_newlines_split(s, start, start + 1, q);
        assert(newlines(s, start, start) == 0);
        assert(newlines(s, start, start + 1) == 0);
        if q < s.len() {
            lemma_newlines_split(s, start, q, q + 1);
            lemma_newlines_split(s, start + 1, q, q + 1);
            assert(newlines(s, q, q) == 0);
            assert(newlines(s, q, q + 1) == 0);
        }
    } else if c == '\n' {
        assert(newlines(s, start, start) == 0);
        assert(newlines(s, start, start + 1) == 1);
    } else {
        lemma_digits_end(s, start + 1);
        lemma_digits_run(s, start + 1);
        let j = digits_end(s, start + 1);
        lemma_digits_end(s, j + 1);
        lemma_digits_run(s, j + 1);
        lemma_word_end(s, start + 1);
        lemma_word_run(s, start + 1);
        lemma_line_end(s, start + 2);
        lemma_line_run(s, start + 2);
        assert forall|k: int| start <= k < st.next implies s[k] != '\n' by {
            if k > start && spec_is_digit(c) && k < j {
                assert(spec_is_digit(s[k]));
            }
            if k > j && spec_is_digit(c) {
                assert(spec_is_digit(s[k]));
            }
            if k > start && spec_is_alpha(c) {
                assert(spec_is_alpha_numeric(s[k]));
            }
        }
        lemma_no_newlines(s, start, st.next);
        if let Some(t) = st.token {
            if spec_is_alpha(c) && !spec_is_digit(c) && c != '"' {
                let text = s.subrange(start as int, word_end(s, start + 1) as int);
                assert(spec_keyword(text) != Some(TokenType::Eof));
            }
        }
    }
}

/// What scanning gives: every token but the last is not the end of the
/// file, the lines of the tokens never go down and start at the line the
/// scan starts at, and the end-of-file token carries that line plus the
/// number of newlines read.
pub proof fn law_token_lines(s: Seq<char>, pos: nat, line: nat)
    requires
        pos <= s.len(),
    ensures
        ({
            let toks = scan_from(s, pos, line).0;
            &&& toks.len() > 0
            &&& toks.last() == eof_shape(line + newlines(s, pos, s.len()))
            &&& forall|i: int| 0 <= i < toks.len() - 1 ==> #[trigger] toks[i].token_type != TokenType::Eof
            &&& line <= toks[0].line
            &&& forall|i: int| 0 <= i < toks.len() - 1 ==> #[trigger] toks[i].line <= toks[i + 1].line
        }),
    decreases s.len() - pos,
{
    if pos < s.len() {
        let st = scan_step(s, pos, line);
        lemma_scan_step_advances(s, pos, line);
        lemma_step_lines(s, pos, line);
        law_token_lines(s, st.next, st.line);
        lemma_newlines_split(s, pos, st.next, s.len());
        let rest = scan_from(s, st.next, st.line).0;
        let toks = opt_seq(st.token) + rest;
        assert(toks.last() == rest.last());
        if let Some(t) = st.token {
            assert forall|i: int| 0 <= i < toks.len() - 1 implies #[trigger] toks[i].token_type != TokenType::Eof by {
                if i > 0 {
                    assert(toks[i] == rest[i - 1]);
                }
            }
            assert forall|i: int| 0 <= i < toks.len() - 1 implies #[trigger] toks[i].line <= toks[i + 1].line by {
                if i > 0 {
                    assert(toks[i] == rest[i - 1]);
                    assert(toks[i + 1] == rest[i]);
                } else {
                    assert(toks[1] == rest[0]);
                }
            }
        } else {
            assert(toks =~= rest);
        }
    } else {
        assert(newlines(s, pos, s.len()) == 0);
    }
}

/// `!`, `=`, `<` and `>` make a two-character token with a `=` that follows
/// them, and a one-character token otherwise.
pub proof fn law_operator_with_equal(s: Seq<char>, start: nat, line: nat)
    requires
        start < s.len(),
        s[start as int] == '!' || s[start as int] == '=' || s[start as int] == '<' || s[start as int] == '>',
    ensures
        ({
            let c = s[start as int];
            let st = scan_step(s, start, line);
            let two = start + 1 < s.len() && s[(start + 1) as int] == '=';
            &&& st.error is None
            &&& st.line == line
            &&& st.next == if two { start + 2 } else { start + 1 }
            &&& st.token is Some
            &&& st.token->0.lexeme == if two { seq![c, '='] } else { seq![c] }
            &&& st.token->0.literal == LiteralShape::Nil
            &&& st.token->0.line == line
            &&& c == '!' ==> st.token->0.token_type == if two { TokenType::BangEqual } else { TokenType::Bang }
            &&& c == '=' ==> st.token->0.token_type == if two { TokenType::EqualEqual } else { TokenType::Equal }
            &&& c == '<' ==> st.token->0.token_type == if two { TokenType::LessEqual } else { TokenType::Less }
            &&& c == '>' ==> st.token->0.token_type == if two { TokenType::GreaterEqual } else { TokenType::Greater }
        }),
{
    let c = s[start as int];
    if start + 1 < s.len() && s[(start + 1) as int] == '=' {
        assert(s.subrange(start as int, (start + 2) as int) =~= seq![c, '=']);
    } else {
        assert(s.subrange(start as int, (start + 1) as int) =~= seq![c]);
    }
}

/// A character that starts no lexeme is reported as unexpected, on the
/// current line, and skipped: no token is made.
pub proof fn law_unexpected_character(s: Seq<char>, start: nat, line: nat)
    requires
        start < s.len(),
        ({
            let c = s[start as int];
            &&& c != '(' && c != ')' && c != '{' && c != '}' && c != ',' && c != '.' && c != '-' && c != '+' && c != ';' && c != '*'
            &&& c != '!' && c != '=' && c != '<' && c != '>' && c != '/' && c != '"'
            &&& c != ' ' && c != '\r' && c != '\t' && c != '\n'
            &&& !spec_is_digit(c) && !spec_is_alpha(c)
        }),
    ensures
        scan_step(s, start, line) == (ScanStep { next: start + 1, line, token: None, error: Some("Unexpected character."@) }),
{
}

/// The session after the scanner's errors have been reported in order.
pub open spec fn after_scan_errors(v: LoxView, errors: Seq<ScanError>) -> LoxView
    decreases errors.len(),
{
    if errors.len() == 0 {
        v
    } else {
        after_scan_errors(after_report(v, errors[0].0, Seq::empty(), errors[0].1), errors.drop_first())
    }
}

pub proof fn lemma_after_scan_error(v: LoxView, error: Option<Seq<char>>, line: nat)
    ensures
        after_scan_errors(v, opt_error(error, line)) == match error {
            Some(m) => after_report(v, line, Seq::empty(), m),
            None => v,
        },
{
    let errs = opt_error(error, line);
    if errs.len() > 0 {
        assert(errs.drop_first() =~= Seq::<ScanError>::empty());
        assert(after_scan_errors(after_report(v, line, Seq::empty(), error->0), Seq::<ScanError>::empty())
            == after_report(v, line, Seq::empty(), error->0));
    }
}

pub proof fn lemma_after_scan_errors_prefix(v: LoxView, a: Seq<ScanError>, b: Seq<ScanError>)
    ensures
        after_scan_errors(v, a + b) == after_scan_errors(after_scan_errors(v, a), b),
    decreases a.len(),
{
    if a.len() > 0 {
        assert((a + b).drop_first() =~= a.drop_first() + b);
        lemma_after_scan_errors_prefix(after_report(v, a[0].0, Seq::empty(), a[0].1), a.drop_first(), b);
    } else {
        assert(a + b =~= b);
    }
}

pub proof fn lemma_digits_end(s: Seq<char>, i: nat)
    ensures
        i <= digits_end(s, i),
        i <= s.len() ==> digits_end(s, i) <= s.len(),
    decreases s.len() - i,
{
    if i < s.len() && spec_is_digit(s[i as int]) {
        lemma_digits_end(s, i + 1);
    }
}

pub proof fn lemma_word_end(s: Seq<char>, i: nat)
    ensures
        i <= word_end(s, i),
        i <= s.len() ==> word_end(s, i) <= s.len(),
    decreases s.len() - i,
{
    if i < s.len() && spec_is_alpha_numeric(s[i as int]) {
        lemma_word_end(s, i + 1);
    }
}

pub proof fn lemma_line_end(s: Seq<char>, i: nat)
    ensures
        i <= line_end(s, i),
        i <= s.len() ==> line_end(s, i) <= s.len(),
    decreases s.len() - i,
{
    if i < s.len() && s[i as int] != '\n' {
        lemma_line_end(s, i + 1);
    }
}

pub proof fn lemma_quote_end(s: Seq<char>, i: nat)
    ensures
        i <= quote_end(s, i),
        i <= s.len() ==> quote_end(s, i) <= s.len(),
        quote_end(s, i) < s.len() ==> s[quote_end(s, i) as int] == '"',
    decreases s.len() - i,
{
    if i < s.len() && s[i as int] != '"' {
        lemma_quote_end(s, i + 1);
    }
}

pub proof fn lemma_scan_step_advances(s: Seq<char>, pos: nat, line: nat)
    requires
        pos < s.len(),
    ensures
        pos < scan_step(s, pos, line).next <= s.len(),
{
    lemma_digits_end(s, pos + 1);
    let j = digits_end(s, pos + 1);
    lemma_digits_end(s, j + 1);
    lemma_word_end(s, pos + 1);
    lemma_line_end(s, pos + 2);
    lemma_quote_end(s, pos + 1);
}

// ---------------------------------------------------------------------------
// Character classes and reserved words
// ---------------------------------------------------------------------------

pub fn is_alpha(c: char) -> (r: bool)
    ensures
        r == spec_is_alpha(c),
{
    (c >= 'a' && c <= 'z') || (c >= 'A' && c <= 'Z') || c == '_'
}

pub fn is_digit(c: char) -> (r: bool)
    ensures
        r == spec_is_digit(c),
{
    c >= '0' && c <= '9'
}

pub fn is_alpha_numeric(c: char) -> (r: bool)
    ensures
        r == spec_is_alpha_numeric(c),
{
    is_alpha(c) || is_digit(c)
}

/// Whether `a` and `b` hold the same characters.
fn same_text(a: &str, b: &str) -> (r: bool)
    ensures
        r == (a@ == b@),
{
    let n = a.unicode_len();
    if n != b.unicode_len() {
        return false;
    }
    let mut i: usize = 0;
    while i < n
        invariant
            n == a@.len(),
            n == b@.len(),
            i <= n,
            forall|k: int| 0 <= k < i ==> a@[k] == b@[k],
        decreases n - i,
    {
        if a.get_char(i) != b.get_char(i) {
            return false;
        }
        i = i + 1;
    }
    assert(a@ =~= b@);
    true
}

/// The reserved word that `s` spells, if any.
pub fn keyword(s: &str) -> (r: Option<TokenType>)
    ensures
        r == spec_keyword(s@),
{
    if same_text(s, "and") {
        Some(TokenType::And)
    } else if same_text(s, "class") {
        Some(TokenType::Class)
    } else if same_text(s, "else") {
        Some(TokenType::Else)
    } else if same_text(s, "false") {
        Some(TokenType::False)
    } else if same_text(s, "for") {
        Some(TokenType::For)
    } else if same_text(s, "fun") {
        Some(TokenType::Fun)
    } else if same_text(s, "if") {
        Some(TokenType::If)
    } else if same_text(s, "nil") {
        Some(TokenType::Nil)
    } else if same_text(s, "or") {
        Some(TokenType::Or)
    } else if same_text(s, "print") {
        Some(TokenType::Print)
    } else if same_text(s, "return") {
        Some(TokenType::Return)
    } else if same_text(s, "super") {
        Some(TokenType::Super)
    } else if same_text(s, "this") {
        Some(TokenType::This)
    } else if same_text(s, "true") {
        Some(TokenType::True)
    } else if same_text(s, "var") {
        Some(TokenType::Var)
    } else if same_text(s, "while") {
        Some(TokenType::While)
    } else {
        None
    }
}

// ---------------------------------------------------------------------------
// The scanner
// ---------------------------------------------------------------------------

pub struct Scanner {
    pub source: String,
    tokens: Vec<Token>,
    start: usize,
    current: usize,
    line: usize,
    parsed: Ghost<Seq<(Seq<char>, u64)>>,
}

/// Every number token holds a value that the number backend gave for its
/// lexeme.
pub open spec fn numbers_parsed(tokens: Seq<Token>, parsed: Seq<(Seq<char>, u64)>) -> bool {
    forall|i: int| #![trigger tokens[i]] 0 <= i < tokens.len() ==> (tokens[i].literal matches Literal::Number(x) ==> parsed.contains((tokens[i].lexeme@, x)))
}

/// Every lexeme in `parsed` was handed to the number backend `n`, which gave
/// the number beside it.
pub open spec fn parsed_by<N: Numerics>(n: &N, parsed: Seq<(Seq<char>, u64)>) -> bool {
    forall|i: int| 0 <= i < parsed.len() ==> gives_parse(n, #[trigger] parsed[i].0, parsed[i].1)
}

/// Every number token holds the number that the backend `n` gave for its
/// lexeme.
pub open spec fn literals_parsed_by<N: Numerics>(n: &N, tokens: Seq<Token>) -> bool {
    forall|i: int| #![trigger tokens[i]] 0 <= i < tokens.len() ==> (tokens[i].literal matches Literal::Number(x) ==> gives_parse(n, tokens[i].lexeme@, x))
}

pub open spec fn shapes(tokens: Seq<Token>) -> Seq<TokenShape> {
    tokens.map_values(|t: Token| t.shape())
}

impl Scanner {
    /// The scanner's position lies within its source, and its line count
    /// is at most the number of characters read.
    pub closed spec fn wf(&self) -> bool {
        &&& self.start <= self.current <= self.source@.len()
        &&& self.line <= self.current
        &&& numbers_parsed(self.tokens@, self.parsed@)
    }

    /// The lexemes handed to the number backend so far, each with the
    /// number it gave.
    pub closed spec fn parsed(&self) -> Seq<(Seq<char>, u64)> {
        self.parsed@
    }

    /// The source text being scanned.
    pub closed spec fn text(&self) -> Seq<char> {
        self.source@
    }

    /// The tokens produced so far.
    pub closed spec fn produced(&self) -> Seq<TokenShape> {
        shapes(self.tokens@)
    }

    /// The index of the next character to scan.
    pub closed spec fn position(&self) -> nat {
        self.current as nat
    }

    /// The line of the next character to scan (counting from 0).
    pub closed spec fn current_line(&self) -> nat {
        self.line as nat
    }

    pub fn new(source: String) -> (s: Self)
        ensures
            s.wf(),
            s.text() == source@,
            s.produced() == Seq::<TokenShape>::empty(),
            s.position() == 0,
            s.current_line() == 0,
            s.parsed() == Seq::<(Seq<char>, u64)>::empty(),
    {
        let s = Self { source, tokens: Vec::new(), start: 0, current: 0, line: 0, parsed: Ghost(Seq::empty()) };
        assert(shapes(s.tokens@) =~= Seq::<TokenShape>::empty());
        s
    }

    /// Scans the whole source (from where the scanner stands) and returns
    /// every token produced, ending with an end-of-file token; errors are
    /// reported to `lox`.
    pub fn scan_tokens<N: Numerics>(&mut self, lox: &mut Lox, numbers: &N) -> (tokens: Vec<Token>)
        requires
            old(self).wf(),
            is_ascii_chars(old(self).text()),
            old(self).text().len() <= usize::MAX,
        ensures
            parsed_by(numbers, old(self).parsed()) ==> parsed_by(numbers, final(self).parsed()),
            parsed_by(numbers, old(self).parsed()) ==> literals_parsed_by(numbers, tokens@),
            final(self).wf(),
            final(self).text() == old(self).text(),
            shapes(tokens@) == old(self).produced() + scan_from(
                old(self).text(),
                old(self).position(),
                old(self).current_line(),
            ).0,
            final(self).produced() == shapes(tokens@),
            numbers_parsed(tokens@, final(self).parsed()),
            final(lox)@ == after_scan_errors(
                old(lox)@,
                scan_from(old(self).text(), old(self).position(), old(self).current_line()).1,
            ),
    {
        let ghost s = self.source@;
        let ghost total = scan_from(s, self.current as nat, self.line as nat);
        let ghost old_tokens = shapes(self.tokens@);
        let ghost old_lox = lox@;
        while !self.is_at_end()
            invariant
                self.wf(),
                self.source@ == s,
                self.source == old(self).source,
                is_ascii_chars(s),
                s.len() <= usize::MAX,
                shapes(self.tokens@) + scan_from(s, self.current as nat, self.line as nat).0
                    == old_tokens + total.0,
                after_scan_errors(lox@, scan_from(s, self.current as nat, self.line as nat).1)
                    == after_scan_errors(old_lox, total.1),
                parsed_by(numbers, old(self).parsed@) ==> parsed_by(numbers, self.parsed@),
            decreases s.len() - self.current,
        {
            self.start = self.current;
            let ghost before = shapes(self.tokens@);
            let ghost lox_before = lox@;
            let ghost st = scan_step(s, self.current as nat, self.line as nat);
            let ghost rest = scan_from(s, st.next, st.line);
            proof {
                lemma_scan_step_advances(s, self.current as nat, self.line as nat);
            }
            self.scan_token(lox, numbers);
            proof {
                assert(shapes(self.tokens@) + rest.0 =~= before + (opt_seq(st.token) + rest.0));
                lemma_after_scan_errors_prefix(lox_before, opt_error(st.error, st.line), rest.1);
            }
        }
        let eof = Token { token_type: TokenType::Eof, lexeme: String::new(), literal: Literal::Nil, line: self.line };
        let ghost before = shapes(self.tokens@);
        let ghost before_tokens = self.tokens@;
        self.tokens.push(eof);
        proof {
            assert(shapes(self.tokens@) =~= before + seq![eof_shape(self.line as nat)]);
            assert(eof.shape() == eof_shape(self.line as nat));
            assert(after_scan_errors(lox@, Seq::empty()) == lox@);
            assert forall|i: int| #![trigger self.tokens@[i]] 0 <= i < self.tokens@.len() implies (self.tokens@[i].literal matches Literal::Number(x) ==> self.parsed@.contains((self.tokens@[i].lexeme@, x))) by {
                if i < before_tokens.len() {
                    assert(self.tokens@[i] == before_tokens[i]);
                }
            }
        }
        let out = self.tokens.clone();
        assert(out@ =~= self.tokens@);
        proof {
            if parsed_by(numbers, old(self).parsed@) {
                assert forall|i: int| #![trigger out@[i]] 0 <= i < out@.len() implies (out@[i].literal matches Literal::Number(x) ==> gives_parse(
                    numbers,
                    out@[i].lexeme@,
                    x,
                )) by {
                    if let Literal::Number(x) = out@[i].literal {
                        assert(self.tokens@[i] == out@[i]);
                        let k = choose|k: int| 0 <= k < self.parsed@.len() && self.parsed@[k] == (out@[i].lexeme@, x);
                        assert(gives_parse(numbers, self.parsed@[k].0, self.parsed@[k].1));
                    }
                }
            }
        }
        out
    }

    /// Scans the lexeme that starts at the current position.
    fn scan_token<N: Numerics>(&mut self, lox: &mut Lox, numbers: &N)
        requires
            old(self).wf(),
            is_ascii_chars(old(self).source@),
            old(self).source@.len() <= usize::MAX,
            old(self).start == old(self).current,
            old(self).current < old(self).source@.len(),
        ensures
            parsed_by(numbers, old(self).parsed@) ==> parsed_by(numbers, final(self).parsed@),
            final(self).wf(),
            final(self).source == old(self).source,
            ({
                let st = scan_step(old(self).source@, old(self).current as nat, old(self).line as nat);
                &&& final(self).current == st.next
                &&& final(self).line == st.line
                &&& shapes(final(self).tokens@) == shapes(old(self).tokens@) + opt_seq(st.token)
                &&& final(lox)@ == after_scan_errors(old(lox)@, opt_error(st.error, st.line))
            }),
    {
        let ghost s = self.source@;
        let ghost start = self.current as nat;
        let ghost old_tokens = shapes(self.tokens@);
        proof {
            lemma_scan_step_advances(s, start, self.line as nat);
            reveal_strlit("Unexpected character.");
        }
        let c = self.advance();
        match c {
            '(' => self.add_token(TokenType::LeftParen),
            ')' => self.add_token(TokenType::RightParen),
            '{' => self.add_token(TokenType::LeftBrace),
            '}' => self.add_token(TokenType::RightBrace),
            ',' => self.add_token(TokenType::Comma),
            '.' => self.add_token(TokenType::Dot),
            '-' => self.add_token(TokenType::Minus),
            '+' => self.add_token(TokenType::Plus),
            ';' => self.add_token(TokenType::Semicolon),
            '*' => self.add_token(TokenType::Star),
            '!' => {
                let token_type = if self.char_match('=') { TokenType::BangEqual } else { TokenType::Bang };
                self.add_token(token_type);
            },
            '=' => {
                let token_type = if self.char_match('=') { TokenType::EqualEqual } else { TokenType::Equal };
                self.add_token(token_type);
            },
            '<' => {
                let token_type = if self.char_match('=') { TokenType::LessEqual } else { TokenType::Less };
                self.add_token(token_type);
            },
            '>' => {
                let token_type = if self.char_match('=') { TokenType::GreaterEqual } else { TokenType::Greater };
                self.add_token(token_type);
            },
            '/' => {
                if self.char_match('/') {
                    while self.peek() != '\n' && !self.is_at_end()
                        invariant
                            self.parsed == old(self).parsed,
                            self.wf(),
                            self.source@ == s,
                            self.source == old(self).source,
                self.source == old(self).source,
                            is_ascii_chars(s),
                            s.len() <= usize::MAX,
                            start + 2 <= self.current,
                            self.line == old(self).line,
                            self.tokens == old(self).tokens,
                            line_end(s, self.current as nat) == line_end(s, start + 2),
                        decreases s.len() - self.current,
                    {
                        self.advance();
                    }
                } else {
                    self.add_token(TokenType::Slash);
                }
            },
            ' ' | '\r' | '\t' => {},
            '\n' => {
                self.line = self.line + 1;
            },
            '"' => self.string(lox),
            _ => {
                if is_digit(c) {
                    self.number(numbers);
                } else if is_alpha(c) {
                    self.identifier();
                } else {
                    lox.scanner_error(self.line, String::from_str("Unexpected character."));
                }
            },
        }
        proof {
            let st = scan_step(s, start, old(self).line as nat);
            if st.token is None {
                assert(shapes(self.tokens@) =~= old_tokens + opt_seq(st.token));
            }
            lemma_after_scan_error(old(lox)@, st.error, st.line);
        }
    }

    /// Scans a string literal whose opening quote has been read.
    fn string(&mut self, lox: &mut Lox)
        requires
            old(self).wf(),
            is_ascii_chars(old(self).source@),
            old(self).source@.len() <= usize::MAX,
            old(self).current == old(self).start + 1,
            old(self).source@[old(self).start as int] == '"',
        ensures
            final(self).parsed == old(self).parsed,
            final(self).wf(),
            final(self).source == old(self).source,
            final(self).start == old(self).start,
            ({
                let st = string_step(old(self).source@, old(self).start as nat, old(self).line as nat);
                &&& final(self).current == st.next
                &&& final(self).line == st.line
                &&& shapes(final(self).tokens@) == shapes(old(self).tokens@) + opt_seq(st.token)
                &&& final(lox)@ == after_scan_errors(old(lox)@, opt_error(st.error, st.line))
            }),
    {
        let ghost s = self.source@;
        let ghost start = self.start as nat;
        let ghost line0 = self.line as nat;
        let ghost q = quote_end(s, start + 1);
        proof {
            lemma_quote_end(s, start + 1);
            reveal_strlit("Unterminated string.");
        }
        while self.peek() != '"' && !self.is_at_end()
            invariant
                self.parsed == old(self).parsed,
                self.wf(),
                self.source@ == s,
                self.source == old(self).source,
                is_ascii_chars(s),
                s.len() <= usize::MAX,
                self.start == start,
                start + 1 <= self.current <= q,
                quote_end(s, self.current as nat) == q,
                self.line == line0 + newlines(s, start + 1, self.current as nat),
                self.tokens == old(self).tokens,
                *lox == *old(lox),
            decreases s.len() - self.current,
        {
            proof {
                lemma_quote_end(s, (self.current + 1) as nat);
            }
            let c = self.advance();
            if c == '\n' {
                self.line = self.line + 1;
            }
        }
        if self.is_at_end() {
            lox.scanner_error(self.line, String::from_str("Unterminated string."));
            proof {
                lemma_after_scan_error(old(lox)@, string_step(s, start, line0).error, self.line as nat);
                assert(shapes(self.tokens@) =~= shapes(old(self).tokens@) + Seq::<TokenShape>::empty());
            }
            return;
        }
        // The closing quote.
        self.advance();
        let value = self.source.as_str().substring_ascii(self.start + 1, self.current - 1);
        let ghost before = shapes(self.tokens@);
        self.add_token_with_literal(TokenType::Str, Literal::String(String::from_str(value)));
        proof {
            assert(shapes(self.tokens@) =~= before + opt_seq(string_step(s, start, line0).token));
            lemma_after_scan_error(old(lox)@, string_step(s, start, line0).error, self.line as nat);
        }
    }

    /// Scans a number literal whose first digit has been read.
    fn number<N: Numerics>(&mut self, numbers: &N)
        requires
            old(self).wf(),
            is_ascii_chars(old(self).source@),
            old(self).source@.len() <= usize::MAX,
            old(self).current == old(self).start + 1,
        ensures
            parsed_by(numbers, old(self).parsed@) ==> parsed_by(numbers, final(self).parsed@),
            final(self).wf(),
            final(self).source == old(self).source,
            final(self).start == old(self).start,
            final(self).line == old(self).line,
            ({
                let st = number_step(old(self).source@, old(self).start as nat, old(self).line as nat);
                &&& final(self).current == st.next
                &&& shapes(final(self).tokens@) == shapes(old(self).tokens@) + opt_seq(st.token)
            }),
    {
        let ghost s = self.source@;
        let ghost start = self.start as nat;
        let ghost j = digits_end(s, start + 1);
        proof {
            lemma_digits_end(s, start + 1);
        }
        while is_digit(self.peek())
            invariant
                self.parsed == old(self).parsed,
                self.wf(),
                self.source@ == s,
                self.source == old(self).source,
                is_ascii_chars(s),
                s.len() <= usize::MAX,
                self.start == start,
                self.line == old(self).line,
                self.tokens == old(self).tokens,
                start + 1 <= self.current <= j,
                digits_end(s, self.current as nat) == j,
            decreases s.len() - self.current,
        {
            proof {
                lemma_digits_end(s, (self.current + 1) as nat);
            }
            self.advance();
        }
        // Look for a fractional part.
        if self.peek() == '.' && is_digit(self.peek_next()) {
            // Consume the "."
            self.advance();
            let ghost k = digits_end(s, j + 1);
            proof {
                lemma_digits_end(s, j + 1);
            }
            while is_digit(self.peek())
                invariant
                    self.parsed == old(self).parsed,
                    self.wf(),
                    self.source@ == s,
                self.source == old(self).source,
                    is_ascii_chars(s),
                    s.len() <= usize::MAX,
                    self.start == start,
                    self.line == old(self).line,
                    self.tokens == old(self).tokens,
                    j + 1 <= self.current <= k,
                    digits_end(s, self.current as nat) == k,
                decreases s.len() - self.current,
            {
                proof {
                    lemma_digits_end(s, (self.current + 1) as nat);
                }
                self.advance();
            }
        }
        let text = self.source.as_str().substring_ascii(self.start, self.current);
        let value = parse_with(numbers, text);
        let ghost answers = self.parsed@;
        self.parsed = Ghost(self.parsed@.push((text@, value)));
        proof {
            if parsed_by(numbers, answers) {
                assert forall|i: int| 0 <= i < self.parsed@.len() implies gives_parse(numbers, #[trigger] self.parsed@[i].0, self.parsed@[i].1) by {
                    if i < answers.len() {
                        assert(self.parsed@[i] == answers[i]);
                    }
                }
            }
            assert forall|i: int| #![trigger self.tokens@[i]] 0 <= i < self.tokens@.len() implies (self.tokens@[i].literal matches Literal::Number(x) ==> self.parsed@.contains((self.tokens@[i].lexeme@, x))) by {
                if let Literal::Number(x) = self.tokens@[i].literal {
                    let k = choose|k: int| 0 <= k < answers.len() && answers[k] == (self.tokens@[i].lexeme@, x);
                    assert(self.parsed@[k] == answers[k]);
                }
            }
            assert(self.parsed@[answers.len() as int] == (text@, value));
        }
        let ghost before = shapes(self.tokens@);
        self.add_token_with_literal(TokenType::Number, Literal::Number(value));
        proof {
            assert(shapes(self.tokens@) =~= before + opt_seq(number_step(s, start, old(self).line as nat).token));
        }
    }

    /// Scans an identifier or reserved word whose first letter has been read.
    fn identifier(&mut self)
        requires
            old(self).wf(),
            is_ascii_chars(old(self).source@),
            old(self).source@.len() <= usize::MAX,
            old(self).current == old(self).start + 1,
        ensures
            final(self).parsed == old(self).parsed,
            final(self).wf(),
            final(self).source == old(self).source,
            final(self).start == old(self).start,
            final(self).line == old(self).line,
            ({
                let st = word_step(old(self).source@, old(self).start as nat, old(self).line as nat);
                &&& final(self).current == st.next
                &&& shapes(final(self).tokens@) == shapes(old(self).tokens@) + opt_seq(st.token)
            }),
    {
        let ghost s = self.source@;
        let ghost start = self.start as nat;
        let ghost j = word_end(s, start + 1);
        proof {
            lemma_word_end(s, start + 1);
        }
        while is_alpha_numeric(self.peek())
            invariant
                self.parsed == old(self).parsed,
                self.wf(),
                self.source@ == s,
                self.source == old(self).source,
                is_ascii_chars(s),
                s.len() <= usize::MAX,
                self.start == start,
                self.line == old(self).line,
                self.tokens == old(self).tokens,
                start + 1 <= self.current <= j,
                word_end(s, self.current as nat) == j,
            decreases s.len() - self.current,
        {
            proof {
                lemma_word_end(s, (self.current + 1) as nat);
            }
            self.advance();
        }
        let text = self.source.as_str().substring_ascii(self.start, self.current);
        let ghost before = shapes(self.tokens@);
        if let Some(token_type) = keyword(text) {
            self.add_token(token_type);
        } else {
            self.add_token(TokenType::Identifier);
        }
        proof {
            assert(shapes(self.tokens@) =~= before + opt_seq(word_step(s, start, old(self).line as nat).token));
        }
    }

    fn is_at_end(&self) -> (r: bool)
        requires
            self.wf(),
            is_ascii_chars(self.source@),
            self.source@.len() <= usize::MAX,
        ensures
            r == (self.current >= self.source@.len()),
    {
        self.current >= self.source_len()
    }

    fn source_len(&self) -> (n: usize)
        requires
            is_ascii_chars(self.source@),
            self.source@.len() <= usize::MAX,
        ensures
            n == self.source@.len(),
    {
        let text = self.source.as_str();
        proof {
            assert(vstd::string::is_ascii(text));
            vstd::string::is_ascii_spec_bytes(text);
        }
        text.len()
    }

    fn char_at(&self, i: usize) -> (c: char)
        requires
            is_ascii_chars(self.source@),
            i < self.source@.len(),
        ensures
            c == self.source@[i as int],
    {
        let b = self.source.as_str().get_ascii(i);
        b as char
    }

    fn advance(&mut self) -> (c: char)
        requires
            old(self).wf(),
            is_ascii_chars(old(self).source@),
            old(self).source@.len() <= usize::MAX,
            old(self).current < old(self).source@.len(),
        ensures
            final(self).parsed == old(self).parsed,
            c == old(self).source@[old(self).current as int],
            *final(self) == (Scanner { current: (old(self).current + 1) as usize, ..*old(self) }),
    {
        let c = self.char_at(self.current);
        self.current = self.current + 1;
        c
    }

    fn peek(&self) -> (c: char)
        requires
            self.wf(),
            is_ascii_chars(self.source@),
            self.source@.len() <= usize::MAX,
        ensures
            c == (if self.current < self.source@.len() { self.source@[self.current as int] } else { '\0' }),
    {
        if self.is_at_end() {
            '\0'
        } else {
            self.char_at(self.current)
        }
    }

    fn peek_next(&self) -> (c: char)
        requires
            self.wf(),
            is_ascii_chars(self.source@),
            self.source@.len() <= usize::MAX,
        ensures
            c == (if self.current + 1 < self.source@.len() { self.source@[self.current + 1] } else { '\0' }),
    {
        if self.source_len() - self.current <= 1 {
            '\0'
        } else {
            self.char_at(self.current + 1)
        }
    }

    fn char_match(&mut self, expected: char) -> (r: bool)
        requires
            old(self).wf(),
            is_ascii_chars(old(self).source@),
            old(self).source@.len() <= usize::MAX,
        ensures
            final(self).parsed == old(self).parsed,
            r == (old(self).current < old(self).source@.len() && old(self).source@[old(self).current as int] == expected),
            *final(self) == (Scanner { current: (old(self).current + if r { 1usize } else { 0usize }) as usize, ..*old(self) }),
    {
        if self.is_at_end() {
            return false;
        }
        if self.char_at(self.current) != expected {
            return false;
        }
        self.current = self.current + 1;
        true
    }

    fn add_token(&mut self, token_type: TokenType)
        requires
            old(self).wf(),
            is_ascii_chars(old(self).source@),
        ensures
            final(self).parsed == old(self).parsed,
            final(self).wf(),
            final(self).source == old(self).source,
            final(self).start == old(self).start,
            final(self).current == old(self).current,
            final(self).line == old(self).line,
            shapes(final(self).tokens@) == shapes(old(self).tokens@).push(TokenShape {
                token_type,
                lexeme: old(self).source@.subrange(old(self).start as int, old(self).current as int),
                literal: LiteralShape::Nil,
                line: old(self).line as nat,
            }),
    {
        self.add_token_with_literal(token_type, Literal::Nil);
    }

    fn add_token_with_literal(&mut self, token_type: TokenType, literal: Literal)
        requires
            old(self).wf(),
            is_ascii_chars(old(self).source@),
            literal matches Literal::Number(x) ==> old(self).parsed@.contains(
                (old(self).source@.subrange(old(self).start as int, old(self).current as int), x),
            ),
        ensures
            final(self).parsed == old(self).parsed,
            final(self).wf(),
            final(self).source == old(self).source,
            final(self).start == old(self).start,
            final(self).current == old(self).current,
            final(self).line == old(self).line,
            shapes(final(self).tokens@) == shapes(old(self).tokens@).push(TokenShape {
                token_type,
                lexeme: old(self).source@.subrange(old(self).start as int, old(self).current as int),
                literal: literal.shape(),
                line: old(self).line as nat,
            }),
    {
        let text = self.source.as_str().substring_ascii(self.start, self.current);
        let token = Token { token_type, lexeme: String::from_str(text), literal, line: self.line };
        self.tokens.push(token);
        assert(shapes(self.tokens@) =~= shapes(old(self).tokens@).push(token.shape()));
        assert forall|i: int| #![trigger self.tokens@[i]] 0 <= i < self.tokens@.len() implies (self.tokens@[i].literal matches Literal::Number(x) ==> self.parsed@.contains((self.tokens@[i].lexeme@, x))) by {
            if i < old(self).tokens@.len() {
                assert(self.tokens@[i] == old(self).tokens@[i]);
            }
        }
    }
}

} // verus!
