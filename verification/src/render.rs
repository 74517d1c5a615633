use vstd::prelude::*;
use vstd::string::*;

use crate::environment::{Heap, ScopeV};
use crate::numbers::{answered_by, lemma_answered_by_push, text_of, Answer, Numerics};
use crate::expr::{exprs_model, lemma_exprs_model_push, Expr, ExprV};
use crate::stmt::{lemma_stmts_model_push, stmts_model, Stmt, StmtV};
use crate::text::{decimal, push_decimal};
use crate::token::{Literal, Token, TokenType};
use crate::value::{Value, ValueV};

verus! {

broadcast use vstd::seq::group_seq_axioms;

/// A piece of rendered text: literal text, or a number whose text the
/// number backend supplies.
#[derive(Debug, PartialEq)]
pub enum Piece {
    Text(String),
    Number(u64),
}

/// The model of a [`Piece`].
pub enum PieceV {
    Text(Seq<char>),
    Number(u64),
}

impl Piece {
    pub open spec fn model(&self) -> PieceV {
        match self {
            Piece::Text(s) => PieceV::Text(s@),
            Piece::Number(n) => PieceV::Number(*n),
        }
    }
}

/// Text being rendered, as a sequence of pieces.
pub struct Doc {
    pieces: Vec<Piece>,
}

impl View for Doc {
    type V = Seq<PieceV>;

    closed spec fn view(&self) -> Seq<PieceV> {
        self.pieces@.map_values(|p: Piece| p.model())
    }
}

/// One piece of literal text.
pub open spec fn t(s: Seq<char>) -> Seq<PieceV> {
    seq![PieceV::Text(s)]
}

impl Doc {
    pub fn new() -> (d: Doc)
        ensures
            d@ == Seq::<PieceV>::empty(),
    {
        let d = Doc { pieces: Vec::new() };
        assert(d@ =~= Seq::<PieceV>::empty());
        d
    }

    /// Appends literal text.
    pub fn text(&mut self, s: &str)
        ensures
            final(self)@ == old(self)@ + t(s@),
    {
        self.pieces.push(Piece::Text(String::from_str(s)));
        assert(final(self)@ =~= old(self)@ + t(s@));
    }

    /// Appends literal text.
    pub fn string(&mut self, s: String)
        ensures
            final(self)@ == old(self)@ + t(s@),
    {
        let ghost v = s@;
        self.pieces.push(Piece::Text(s));
        assert(final(self)@ =~= old(self)@ + t(v));
    }

    /// Appends a number.
    pub fn number(&mut self, n: u64)
        ensures
            final(self)@ == old(self)@ + seq![PieceV::Number(n)],
    {
        self.pieces.push(Piece::Number(n));
        assert(final(self)@ =~= old(self)@ + seq![PieceV::Number(n)]);
    }

    /// The number of pieces.
    pub fn len(&self) -> (n: usize)
        ensures
            n == self@.len(),
    {
        self.pieces.len()
    }

    /// The `i`-th piece.
    pub fn piece(&self, i: usize) -> (p: &Piece)
        requires
            i < self@.len(),
        ensures
            p.model() == self@[i as int],
    {
        &self.pieces[i]
    }
}

// ---------------------------------------------------------------------------
// Text of strings and numbers
// ---------------------------------------------------------------------------

/// The lowercase hexadecimal digits of `n`, without leading zeros.
pub open spec fn hex(n: nat) -> Seq<char>
    decreases n,
{
    if n < 16 {
        seq![hex_digit(n)]
    } else {
        hex(n / 16).push(hex_digit(n % 16))
    }
}

pub open spec fn hex_digit(d: nat) -> char {
    if d < 10 {
        ((48 + d) as u8) as char
    } else {
        ((87 + d) as u8) as char
    }
}

/// What `char::escape_debug` gives for `c`.
pub uninterp spec fn debug_escape(c: char) -> Seq<char>;

/// `char::escape_debug`, collected into a `String`: for a character outside
/// ASCII this is how `Debug` writes it inside a quoted string (`\u{..}` for
/// a character that is not printable or that extends a grapheme, else the
/// character itself). Claimed: the text equals `debug_escape(c)`, a function
/// of `c` alone.
#[verifier::external_body]
fn escape_debug_text(c: char) -> (s: String)
    ensures
        s@ == debug_escape(c),
{
    c.escape_debug().to_string()
}

/// How `Debug` writes one character inside a quoted string: the escapes
/// `\t`, `\r`, `\n`, `\\`, `\"`, `\0`, and `\u{..}` for the other ASCII
/// control characters; other ASCII characters as they are; a character
/// outside ASCII as `char::escape_debug` writes it.
pub open spec fn escape_char(c: char) -> Seq<char> {
    if c == '\t' {
        "\\t"@
    } else if c == '\r' {
        "\\r"@
    } else if c == '\n' {
        "\\n"@
    } else if c == '\\' {
        "\\\\"@
    } else if c == '"' {
        "\\\""@
    } else if c == '\0' {
        "\\0"@
    } else if (c as u32) < 0x20 || (c as u32) == 0x7f {
        "\\u{"@ + hex(c as nat) + "}"@
    } else if (c as u32) < 0x80 {
        seq![c]
    } else {
        debug_escape(c)
    }
}

pub open spec fn escape_chars(s: Seq<char>) -> Seq<char>
    decreases s.len(),
{
    if s.len() == 0 {
        Seq::empty()
    } else {
        escape_chars(s.drop_last()) + escape_char(s.last())
    }
}

/// A string as `Debug` writes it: quoted, with escapes.
pub open spec fn quoted(s: Seq<char>) -> Seq<char> {
    "\""@ + escape_chars(s) + "\""@
}

fn push_hex(s: &mut String, n: u32)
    ensures
        final(s)@ == old(s)@ + hex(n as nat),
    decreases n,
{
    if n >= 16 {
        push_hex(s, n / 16);
    }
    let d: u32 = n % 16;
    let c: char = if d < 10 {
        ((48 + d) as u8) as char
    } else {
        ((87 + d) as u8) as char
    };
    s.push(c);
    assert(final(s)@ =~= old(s)@ + hex(n as nat)) by {
        if n >= 16 {
            assert(hex(n as nat) == hex((n / 16) as nat).push(hex_digit((n % 16) as nat)));
        }
    }
}

fn push_escaped_char(s: &mut String, c: char)
    ensures
        final(s)@ == old(s)@ + escape_char(c),
{
    if c == '\t' {
        s.append("\\t");
    } else if c == '\r' {
        s.append("\\r");
    } else if c == '\n' {
        s.append("\\n");
    } else if c == '\\' {
        s.append("\\\\");
    } else if c == '"' {
        s.append("\\\"");
    } else if c == '\0' {
        s.append("\\0");
    } else if (c as u32) < 0x20 || (c as u32) == 0x7f {
        s.append("\\u{");
        push_hex(s, c as u32);
        s.append("}");
        assert(final(s)@ =~= old(s)@ + escape_char(c));
    } else if (c as u32) < 0x80 {
        s.push(c);
        assert(final(s)@ =~= old(s)@ + escape_char(c));
    } else {
        let e = escape_debug_text(c);
        s.append(e.as_str());
    }
}

/// `s` as `Debug` writes a string.
pub fn quote(s: &str) -> (r: String)
    ensures
        r@ == quoted(s@),
{
    let mut r = String::from_str("\"");
    let n = s.unicode_len();
    let mut i: usize = 0;
    while i < n
        invariant
            n == s@.len(),
            i <= n,
            r@ == "\""@ + escape_chars(s@.take(i as int)),
        decreases n - i,
    {
        let c = s.get_char(i);
        push_escaped_char(&mut r, c);
        assert(s@.take(i + 1).drop_last() =~= s@.take(i as int));
        i = i + 1;
    }
    r.append("\"");
    assert(s@.take(n as int) =~= s@);
    r
}

// ---------------------------------------------------------------------------
// Debug text of tokens and syntax trees
// ---------------------------------------------------------------------------

pub open spec fn token_type_name(ty: TokenType) -> Seq<char> {
    match ty {
        TokenType::LeftParen => "LeftParen"@,
        TokenType::RightParen => "RightParen"@,
        TokenType::LeftBrace => "LeftBrace"@,
        TokenType::RightBrace => "RightBrace"@,
        TokenType::Comma => "Comma"@,
        TokenType::Dot => "Dot"@,
        TokenType::Minus => "Minus"@,
        TokenType::Plus => "Plus"@,
        TokenType::Semicolon => "Semicolon"@,
        TokenType::Slash => "Slash"@,
        TokenType::Star => "Star"@,
        TokenType::Bang => "Bang"@,
        TokenType::BangEqual => "BangEqual"@,
        TokenType::Equal => "Equal"@,
        TokenType::EqualEqual => "EqualEqual"@,
        TokenType::Greater => "Greater"@,
        TokenType::GreaterEqual => "GreaterEqual"@,
        TokenType::Less => "Less"@,
        TokenType::LessEqual => "LessEqual"@,
        TokenType::Identifier => "Identifier"@,
        TokenType::Str => "Str"@,
        TokenType::Number => "Number"@,
        TokenType::And => "And"@,
        TokenType::Class => "Class"@,
        TokenType::Else => "Else"@,
        TokenType::False => "False"@,
        TokenType::Fun => "Fun"@,
        TokenType::For => "For"@,
        TokenType::If => "If"@,
        TokenType::Nil => "Nil"@,
        TokenType::Or => "Or"@,
        TokenType::Print => "Print"@,
        TokenType::Return => "Return"@,
        TokenType::Super => "Super"@,
        TokenType::This => "This"@,
        TokenType::True => "True"@,
        TokenType::Var => "Var"@,
        TokenType::While => "While"@,
        TokenType::Eof => "Eof"@,
    }
}

/// The name of a token type, as `Debug` writes it.
pub fn token_type_text(ty: TokenType) -> (r: &'static str)
    ensures
        r@ == token_type_name(ty),
{
    match ty {
        TokenType::LeftParen => "LeftParen",
        TokenType::RightParen => "RightParen",
        TokenType::LeftBrace => "LeftBrace",
        TokenType::RightBrace => "RightBrace",
        TokenType::Comma => "Comma",
        TokenType::Dot => "Dot",
        TokenType::Minus => "Minus",
        TokenType::Plus => "Plus",
        TokenType::Semicolon => "Semicolon",
        TokenType::Slash => "Slash",
        TokenType::Star => "Star",
        TokenType::Bang => "Bang",
        TokenType::BangEqual => "BangEqual",
        TokenType::Equal => "Equal",
        TokenType::EqualEqual => "EqualEqual",
        TokenType::Greater => "Greater",
        TokenType::GreaterEqual => "GreaterEqual",
        TokenType::Less => "Less",
        TokenType::LessEqual => "LessEqual",
        TokenType::Identifier => "Identifier",
        TokenType::Str => "Str",
        TokenType::Number => "Number",
        TokenType::And => "And",
        TokenType::Class => "Class",
        TokenType::Else => "Else",
        TokenType::False => "False",
        TokenType::Fun => "Fun",
        TokenType::For => "For",
        TokenType::If => "If",
        TokenType::Nil => "Nil",
        TokenType::Or => "Or",
        TokenType::Print => "Print",
        TokenType::Return => "Return",
        TokenType::Super => "Super",
        TokenType::This => "This",
        TokenType::True => "True",
        TokenType::Var => "Var",
        TokenType::While => "While",
        TokenType::Eof => "Eof",
    }
}

/// A literal as `Debug` writes it (the absent literal is written `None`).
pub open spec fn literal_doc(l: Literal) -> Seq<PieceV> {
    match l {
        Literal::String(s) => t("String("@) + t(quoted(s@)) + t(")"@),
        Literal::Number(n) => t("Number("@) + seq![PieceV::Number(n)] + t(")"@),
        Literal::Boolean(b) => if b {
            t("Boolean(true)"@)
        } else {
            t("Boolean(false)"@)
        },
        Literal::Nil => t("None"@),
    }
}

/// A token as `Debug` writes it.
pub open spec fn token_doc(tok: Token) -> Seq<PieceV> {
    t("Token { token_type: "@) + t(token_type_name(tok.token_type)) + t(", lexeme: "@) + t(quoted(tok.lexeme@))
        + t(", literal: "@) + literal_doc(tok.literal) + t(", line: "@) + t(decimal(tok.line as nat)) + t(" }"@)
}

/// The items of a list, separated by `, `.
pub open spec fn tokens_inner(s: Seq<Token>) -> Seq<PieceV>
    decreases s.len(),
{
    if s.len() == 0 {
        Seq::empty()
    } else if s.len() == 1 {
        token_doc(s[0])
    } else {
        tokens_inner(s.drop_last()) + t(", "@) + token_doc(s.last())
    }
}

pub open spec fn tokens_doc(s: Seq<Token>) -> Seq<PieceV> {
    t("["@) + tokens_inner(s) + t("]"@)
}

pub open spec fn expr_doc(e: ExprV) -> Seq<PieceV>
    decreases e,
{
    match e {
        ExprV::Literal(l) => t("Literal { value: "@) + literal_doc(l) + t(" }"@),
        ExprV::Unary(op, right) => t("Unary { operator: "@) + token_doc(op) + t(", right: "@) + expr_doc(*right) + t(" }"@),
        ExprV::Binary(left, op, right) => t("Binary { left: "@) + expr_doc(*left) + t(", operator: "@) + token_doc(op)
            + t(", right: "@) + expr_doc(*right) + t(" }"@),
        ExprV::Grouping(inner) => t("Grouping { expression: "@) + expr_doc(*inner) + t(" }"@),
        ExprV::Variable(name) => t("Variable { name: "@) + token_doc(name) + t(" }"@),
        ExprV::Assign(name, value) => t("Assign { name: "@) + token_doc(name) + t(", value: "@) + expr_doc(*value) + t(" }"@),
        ExprV::Fun(params, body) => t("Fun { params: "@) + tokens_doc(params) + t(", body: "@) + t("["@) + stmts_inner(body)
            + t("]"@) + t(" }"@),
        ExprV::Call(fun, paren, args) => t("Call { fun: "@) + expr_doc(*fun) + t(", paren: "@) + token_doc(paren)
            + t(", arguments: "@) + t("["@) + exprs_inner(args) + t("]"@) + t(" }"@),
    }
}

pub open spec fn exprs_inner(s: Seq<ExprV>) -> Seq<PieceV>
    decreases s,
{
    if s.len() == 0 {
        Seq::empty()
    } else if s.len() == 1 {
        expr_doc(s[0])
    } else {
        exprs_inner(s.drop_last()) + t(", "@) + expr_doc(s.last())
    }
}

pub open spec fn stmt_doc(st: StmtV) -> Seq<PieceV>
    decreases st,
{
    match st {
        StmtV::Expression(e) => t("Expression { expression: "@) + expr_doc(e) + t(" }"@),
        StmtV::If(kw, cond, consq, altern) => t("If { keyword: "@) + token_doc(kw) + t(", condition: "@) + expr_doc(cond)
            + t(", consq: "@) + stmt_doc(*consq) + t(", altern: "@) + match altern {
            Some(a) => t("Some("@) + stmt_doc(*a) + t(")"@),
            None => t("None"@),
        } + t(" }"@),
        StmtV::Print(e) => t("Print { expression: "@) + expr_doc(e) + t(" }"@),
        StmtV::Var(name, init) => t("Var { name: "@) + token_doc(name) + t(", initializer: "@) + expr_doc(init) + t(" }"@),
        StmtV::Block(sts) => t("Block { statements: "@) + t("["@) + stmts_inner(sts) + t("]"@) + t(" }"@),
        StmtV::While(cond, body) => t("While { condition: "@) + expr_doc(cond) + t(", body: "@) + stmt_doc(*body) + t(" }"@),
        StmtV::Fun(name, params, body) => t("Fun { name: "@) + token_doc(name) + t(", params: "@) + tokens_doc(params)
            + t(", body: "@) + t("["@) + stmts_inner(body) + t("]"@) + t(" }"@),
        StmtV::Return(kw, value) => t("Return { keyword: "@) + token_doc(kw) + t(", value: "@) + match value {
            Some(e) => t("Some("@) + expr_doc(e) + t(")"@),
            None => t("None"@),
        } + t(" }"@),
    }
}

pub open spec fn stmts_inner(s: Seq<StmtV>) -> Seq<PieceV>
    decreases s,
{
    if s.len() == 0 {
        Seq::empty()
    } else if s.len() == 1 {
        stmt_doc(s[0])
    } else {
        stmts_inner(s.drop_last()) + t(", "@) + stmt_doc(s.last())
    }
}

pub open spec fn stmts_doc(s: Seq<StmtV>) -> Seq<PieceV> {
    t("["@) + stmts_inner(s) + t("]"@)
}

/// Writes a literal as `Debug` writes it.
pub fn write_literal(d: &mut Doc, l: &Literal)
    ensures
        final(d)@ == old(d)@ + literal_doc(*l),
{
    match l {
        Literal::String(s) => {
            d.text("String(");
            d.string(quote(s.as_str()));
            d.text(")");
        },
        Literal::Number(n) => {
            d.text("Number(");
            d.number(*n);
            d.text(")");
        },
        Literal::Boolean(b) => {
            if *b {
                d.text("Boolean(true)");
            } else {
                d.text("Boolean(false)");
            }
        },
        Literal::Nil => {
            d.text("None");
        },
    }
    assert(final(d)@ =~= old(d)@ + literal_doc(*l));
}

/// Writes a token as `Debug` writes it.
pub fn write_token(d: &mut Doc, tok: &Token)
    ensures
        final(d)@ == old(d)@ + token_doc(*tok),
{
    d.text("Token { token_type: ");
    d.text(token_type_text(tok.token_type));
    d.text(", lexeme: ");
    d.string(quote(tok.lexeme.as_str()));
    d.text(", literal: ");
    write_literal(d, &tok.literal);
    d.text(", line: ");
    let mut line = String::new();
    push_decimal(&mut line, tok.line);
    assert(line@ =~= decimal(tok.line as nat));
    d.string(line);
    d.text(" }");
    assert(final(d)@ =~= old(d)@ + token_doc(*tok));
}

/// Writes a list of tokens as `Debug` writes it.
pub fn write_tokens(d: &mut Doc, v: &Vec<Token>)
    ensures
        final(d)@ == old(d)@ + tokens_doc(v@),
{
    d.text("[");
    let ghost start = d@;
    let mut i: usize = 0;
    while i < v.len()
        invariant
            i <= v.len(),
            d@ == start + tokens_inner(v@.take(i as int)),
        decreases v.len() - i,
    {
        if i > 0 {
            d.text(", ");
        }
        write_token(d, &v[i]);
        assert(v@.take(i + 1).drop_last() =~= v@.take(i as int));
        assert(d@ =~= start + tokens_inner(v@.take(i + 1)));
        i = i + 1;
    }
    d.text("]");
    assert(v@.take(v.len() as int) =~= v@);
    assert(final(d)@ =~= old(d)@ + tokens_doc(v@));
}

/// Writes an expression as `Debug` writes it.
#[verifier::spinoff_prover]
#[verifier::rlimit(100)]
pub fn write_expr(d: &mut Doc, e: &Expr)
    ensures
        final(d)@ == old(d)@ + expr_doc(e.model()),
    decreases e,
{
    match e {
        Expr::Literal { value } => {
            d.text("Literal { value: ");
            write_literal(d, value);
            d.text(" }");
        },
        Expr::Unary { operator, right } => {
            d.text("Unary { operator: ");
            write_token(d, operator);
            d.text(", right: ");
            write_expr(d, right);
            d.text(" }");
        },
        Expr::Binary { left, operator, right } => {
            d.text("Binary { left: ");
            write_expr(d, left);
            d.text(", operator: ");
            write_token(d, operator);
            d.text(", right: ");
            write_expr(d, right);
            d.text(" }");
        },
        Expr::Grouping { expression } => {
            d.text("Grouping { expression: ");
            write_expr(d, expression);
            d.text(" }");
        },
        Expr::Variable { name } => {
            d.text("Variable { name: ");
            write_token(d, name);
            d.text(" }");
        },
        Expr::Assign { name, value } => {
            d.text("Assign { name: ");
            write_token(d, name);
            d.text(", value: ");
            write_expr(d, value);
            d.text(" }");
        },
        Expr::Fun { params, body } => {
            d.text("Fun { params: ");
            write_tokens(d, params);
            d.text(", body: ");
            d.text("[");
            write_stmts_inner(d, body);
            d.text("]");
            d.text(" }");
        },
        Expr::Call { fun, paren, arguments } => {
            d.text("Call { fun: ");
            write_expr(d, fun);
            d.text(", paren: ");
            write_token(d, paren);
            d.text(", arguments: ");
            d.text("[");
            write_exprs_inner(d, arguments);
            d.text("]");
            d.text(" }");
        },
    }
    assert(final(d)@ =~= old(d)@ + expr_doc(e.model()));
}

/// Writes the items of a list of expressions, separated by `, `.
pub fn write_exprs_inner(d: &mut Doc, v: &Vec<Expr>)
    ensures
        final(d)@ == old(d)@ + exprs_inner(exprs_model(v@)),
    decreases v,
{
    let ghost start = d@;
    let mut i: usize = 0;
    while i < v.len()
        invariant
            i <= v.len(),
            d@ == start + exprs_inner(exprs_model(v@.take(i as int))),
        decreases v.len() - i,
    {
        proof {
            vstd::std_specs::vec::axiom_vec_index_decreases(*v, i as int);
        }
        if i > 0 {
            d.text(", ");
        }
        write_expr(d, &v[i]);
        proof {
            assert(v@.take(i as int).push(v@[i as int]) =~= v@.take(i + 1));
            lemma_exprs_model_push(v@.take(i as int), v@[i as int]);
            let m = exprs_model(v@.take(i + 1));
            assert(m.drop_last() =~= exprs_model(v@.take(i as int)));
            crate::expr::lemma_exprs_model_len(v@.take(i as int));
        }
        assert(d@ =~= start + exprs_inner(exprs_model(v@.take(i + 1))));
        i = i + 1;
    }
    assert(v@.take(v.len() as int) =~= v@);
}

/// Writes a statement as `Debug` writes it.
#[verifier::spinoff_prover]
#[verifier::rlimit(100)]
pub fn write_stmt(d: &mut Doc, s: &Stmt)
    ensures
        final(d)@ == old(d)@ + stmt_doc(s.model()),
    decreases s,
{
    match s {
        Stmt::Expression { expression } => {
            d.text("Expression { expression: ");
            write_expr(d, expression);
            d.text(" }");
            assert(final(d)@ =~= old(d)@ + stmt_doc(s.model()));
        },
        Stmt::If { keyword, condition, consq, altern } => {
            d.text("If { keyword: ");
            write_token(d, keyword);
            d.text(", condition: ");
            write_expr(d, condition);
            d.text(", consq: ");
            write_stmt(d, consq);
            d.text(", altern: ");
            match altern {
                Some(a) => {
                    d.text("Some(");
                    write_stmt(d, a);
                    d.text(")");
                },
                None => {
                    d.text("None");
                },
            }
            d.text(" }");
            assert(final(d)@ =~= old(d)@ + stmt_doc(s.model()));
        },
        Stmt::Print { expression } => {
            d.text("Print { expression: ");
            write_expr(d, expression);
            d.text(" }");
            assert(final(d)@ =~= old(d)@ + stmt_doc(s.model()));
        },
        Stmt::Var { name, initializer } => {
            d.text("Var { name: ");
            write_token(d, name);
            d.text(", initializer: ");
            write_expr(d, initializer);
            d.text(" }");
            assert(final(d)@ =~= old(d)@ + stmt_doc(s.model()));
        },
        Stmt::Block { statements } => {
            d.text("Block { statements: ");
            d.text("[");
            write_stmts_inner(d, statements);
            d.text("]");
            d.text(" }");
            assert(final(d)@ =~= old(d)@ + stmt_doc(s.model()));
        },
        Stmt::While { condition, body } => {
            d.text("While { condition: ");
            write_expr(d, condition);
            d.text(", body: ");
            write_stmt(d, body);
            d.text(" }");
            assert(final(d)@ =~= old(d)@ + stmt_doc(s.model()));
        },
        Stmt::Fun { name, params, body } => {
            d.text("Fun { name: ");
            write_token(d, name);
            d.text(", params: ");
            write_tokens(d, params);
            d.text(", body: ");
            d.text("[");
            write_stmts_inner(d, body);
            d.text("]");
            d.text(" }");
            assert(final(d)@ =~= old(d)@ + stmt_doc(s.model()));
        },
        Stmt::Return { keyword, value } => {
            d.text("Return { keyword: ");
            write_token(d, keyword);
            d.text(", value: ");
            match value {
                Some(e) => {
                    d.text("Some(");
                    write_expr(d, e);
                    d.text(")");
                },
                None => {
                    d.text("None");
                },
            }
            d.text(" }");
            assert(final(d)@ =~= old(d)@ + stmt_doc(s.model()));
        },
    }
}

/// Writes the items of a list of statements, separated by `, `.
pub fn write_stmts_inner(d: &mut Doc, v: &Vec<Stmt>)
    ensures
        final(d)@ == old(d)@ + stmts_inner(stmts_model(v@)),
    decreases v,
{
    let ghost start = d@;
    let mut i: usize = 0;
    while i < v.len()
        invariant
            i <= v.len(),
            d@ == start + stmts_inner(stmts_model(v@.take(i as int))),
        decreases v.len() - i,
    {
        proof {
            vstd::std_specs::vec::axiom_vec_index_decreases(*v, i as int);
        }
        if i > 0 {
            d.text(", ");
        }
        write_stmt(d, &v[i]);
        proof {
            assert(v@.take(i as int).push(v@[i as int]) =~= v@.take(i + 1));
            lemma_stmts_model_push(v@.take(i as int), v@[i as int]);
            let m = stmts_model(v@.take(i + 1));
            assert(m.drop_last() =~= stmts_model(v@.take(i as int)));
            crate::stmt::lemma_stmts_model_len(v@.take(i as int));
        }
        assert(d@ =~= start + stmts_inner(stmts_model(v@.take(i + 1))));
        i = i + 1;
    }
    assert(v@.take(v.len() as int) =~= v@);
}

// ---------------------------------------------------------------------------
// Text of values, which may reach into environments
// ---------------------------------------------------------------------------

/// An environment as `Debug` writes its shared cell, `RefCell { value: .. }`.
/// `None` where the text would never end: the environment is already being
/// written further out (`seen`), so that writing it would recurse forever.
pub open spec fn cell_doc(h: Seq<ScopeV>, e: nat, seen: Seq<nat>, depth: nat) -> Option<Seq<PieceV>>
    decreases depth, 0nat, 0nat,
{
    if e >= h.len() {
        None
    } else if h[e as int].borrowed {
        Some(t("RefCell { value: <borrowed> }"@))
    } else if seen.contains(e) || depth == 0 {
        None
    } else {
        match env_doc(h, e, seen.push(e), (depth - 1) as nat) {
            Some(x) => Some(t("RefCell { value: "@) + x + t(" }"@)),
            None => None,
        }
    }
}

/// An environment as `Debug` writes it.
pub open spec fn env_doc(h: Seq<ScopeV>, e: nat, seen: Seq<nat>, depth: nat) -> Option<Seq<PieceV>>
    decreases depth, 3nat, 0nat,
{
    if e >= h.len() {
        None
    } else {
        let enclosing = match h[e as int].enclosing {
            Some(p) => match cell_doc(h, p, seen, depth) {
                Some(x) => Some(t("Some("@) + x + t(")"@)),
                None => None,
            },
            None => Some(t("None"@)),
        };
        match enclosing {
            None => None,
            Some(x) => match entries_doc(h, h[e as int].values, 0, seen, depth) {
                None => None,
                Some(y) => Some(t("Environment { enclosing: "@) + x + t(", values: "@) + t("{"@) + y + t("}"@) + t(" }"@)),
            },
        }
    }
}

/// The variables from the `i`-th on, as `Debug` writes the entries of a map.
pub open spec fn entries_doc(
    h: Seq<ScopeV>,
    vals: Seq<(Seq<char>, ValueV)>,
    i: nat,
    seen: Seq<nat>,
    depth: nat,
) -> Option<Seq<PieceV>>
    decreases depth, 2nat, vals.len() - i,
{
    if i >= vals.len() {
        Some(Seq::empty())
    } else {
        let sep = if i > 0 {
            t(", "@)
        } else {
            Seq::empty()
        };
        match value_doc(h, vals[i as int].1, seen, depth) {
            None => None,
            Some(x) => match entries_doc(h, vals, i + 1, seen, depth) {
                None => None,
                Some(y) => Some(sep + t(quoted(vals[i as int].0)) + t(": "@) + x + y),
            },
        }
    }
}

/// A value as `Debug` writes it.
pub open spec fn value_doc(h: Seq<ScopeV>, v: ValueV, seen: Seq<nat>, depth: nat) -> Option<Seq<PieceV>>
    decreases depth, 1nat, 0nat,
{
    match v {
        ValueV::String(s) => Some(t("String("@) + t(quoted(s)) + t(")"@)),
        ValueV::Number(n) => Some(t("Number("@) + seq![PieceV::Number(n)] + t(")"@)),
        ValueV::Boolean(b) => Some(
            if b {
                t("Boolean(true)"@)
            } else {
                t("Boolean(false)"@)
            },
        ),
        ValueV::Fun(params, body, e) => match cell_doc(h, e, seen, depth) {
            None => None,
            Some(x) => Some(t("Fun { params: "@) + tokens_doc(params) + t(", body: "@) + stmts_doc(body) + t(", environment: "@)
                + x + t(" }"@)),
        },
        ValueV::Nil => Some(t("None"@)),
    }
}

/// A value as `print` writes it; `None` where the text would never end.
pub open spec fn display_doc(h: Seq<ScopeV>, v: ValueV) -> Option<Seq<PieceV>> {
    match v {
        ValueV::String(s) => Some(t("Value("@) + t(quoted(s)) + t(")"@)),
        ValueV::Number(n) => Some(t("Value("@) + seq![PieceV::Number(n)] + t(")"@)),
        ValueV::Boolean(b) => Some(
            if b {
                t("Value(true)"@)
            } else {
                t("Value(false)"@)
            },
        ),
        ValueV::Fun(params, body, e) => match cell_doc(h, e, Seq::empty(), h.len()) {
            None => None,
            Some(x) => Some(t("Value(Fun(params: "@) + tokens_doc(params) + t(", body: "@) + stmts_doc(body) + t(", environment: "@)
                + x + t("))"@)),
        },
        ValueV::Nil => Some(t("Value(none)"@)),
    }
}

fn contains(v: &Vec<usize>, e: usize) -> (r: bool)
    ensures
        r == v@.map_values(|x: usize| x as nat).contains(e as nat),
{
    let ghost m = v@.map_values(|x: usize| x as nat);
    let mut i: usize = 0;
    while i < v.len()
        invariant
            i <= v.len(),
            m == v@.map_values(|x: usize| x as nat),
            forall|j: int| 0 <= j < i ==> m[j] != e as nat,
        decreases v.len() - i,
    {
        if v[i] == e {
            assert(m[i as int] == e as nat);
            return true;
        }
        i = i + 1;
    }
    false
}

/// Writes the shared cell of environment `e` as `Debug` writes it; `false`
/// where that would never end (the text written is then of no use).
pub fn write_cell(d: &mut Doc, h: &Heap, e: usize, seen: &mut Vec<usize>, depth: usize) -> (ok: bool)
    ensures
        final(seen)@ == old(seen)@,
        match cell_doc(h@, e as nat, old(seen)@.map_values(|x: usize| x as nat), depth as nat) {
            Some(x) => ok && final(d)@ == old(d)@ + x,
            None => !ok,
        },
    decreases depth, 0nat, 0nat,
{
    let ghost sn = seen@.map_values(|x: usize| x as nat);
    if e >= h.len() {
        return false;
    }
    if h.is_borrowed(e) {
        d.text("RefCell { value: <borrowed> }");
        return true;
    }
    if contains(seen, e) || depth == 0 {
        return false;
    }
    seen.push(e);
    assert(seen@.map_values(|x: usize| x as nat) =~= sn.push(e as nat));
    d.text("RefCell { value: ");
    let ok = write_env(d, h, e, seen, depth - 1);
    seen.pop();
    assert(seen@ =~= old(seen)@);
    if !ok {
        return false;
    }
    d.text(" }");
    assert(final(d)@ =~= old(d)@ + cell_doc(h@, e as nat, sn, depth as nat)->0);
    true
}

/// Writes environment `e` as `Debug` writes it.
pub fn write_env(d: &mut Doc, h: &Heap, e: usize, seen: &mut Vec<usize>, depth: usize) -> (ok: bool)
    ensures
        final(seen)@ == old(seen)@,
        match env_doc(h@, e as nat, old(seen)@.map_values(|x: usize| x as nat), depth as nat) {
            Some(x) => ok && final(d)@ == old(d)@ + x,
            None => !ok,
        },
    decreases depth, 3nat, 0nat,
{
    let ghost sn = seen@.map_values(|x: usize| x as nat);
    if e >= h.len() {
        return false;
    }
    d.text("Environment { enclosing: ");
    match h.enclosing(e) {
        Some(p) => {
            d.text("Some(");
            if !write_cell(d, h, p, seen, depth) {
                return false;
            }
            d.text(")");
        },
        None => {
            d.text("None");
        },
    }
    d.text(", values: ");
    d.text("{");
    if !write_entries(d, h, e, 0, seen, depth) {
        return false;
    }
    d.text("}");
    d.text(" }");
    assert(final(d)@ =~= old(d)@ + env_doc(h@, e as nat, sn, depth as nat)->0);
    true
}

/// Writes the variables of environment `e` from the `i`-th on.
pub fn write_entries(d: &mut Doc, h: &Heap, e: usize, i: usize, seen: &mut Vec<usize>, depth: usize) -> (ok: bool)
    requires
        e < h@.len(),
        i <= h@[e as int].values.len(),
    ensures
        final(seen)@ == old(seen)@,
        match entries_doc(h@, h@[e as int].values, i as nat, old(seen)@.map_values(|x: usize| x as nat), depth as nat) {
            Some(x) => ok && final(d)@ == old(d)@ + x,
            None => !ok,
        },
    decreases depth, 2nat, h@[e as int].values.len() - i,
{
    let ghost sn = seen@.map_values(|x: usize| x as nat);
    if i >= h.count(e) {
        assert(final(d)@ =~= old(d)@ + Seq::<PieceV>::empty());
        return true;
    }
    if i > 0 {
        d.text(", ");
    }
    d.string(quote(h.name_at(e, i).as_str()));
    d.text(": ");
    if !write_value(d, h, h.value_at(e, i), seen, depth) {
        return false;
    }
    if !write_entries(d, h, e, i + 1, seen, depth) {
        return false;
    }
    assert(final(d)@ =~= old(d)@ + entries_doc(h@, h@[e as int].values, i as nat, sn, depth as nat)->0);
    true
}

/// Writes a value as `Debug` writes it.
pub fn write_value(d: &mut Doc, h: &Heap, v: &Value, seen: &mut Vec<usize>, depth: usize) -> (ok: bool)
    ensures
        final(seen)@ == old(seen)@,
        match value_doc(h@, v.model(), old(seen)@.map_values(|x: usize| x as nat), depth as nat) {
            Some(x) => ok && final(d)@ == old(d)@ + x,
            None => !ok,
        },
    decreases depth, 1nat, 0nat,
{
    let ghost sn = seen@.map_values(|x: usize| x as nat);
    match v {
        Value::String(s) => {
            d.text("String(");
            d.string(quote(s.as_str()));
            d.text(")");
        },
        Value::Number(n) => {
            d.text("Number(");
            d.number(*n);
            d.text(")");
        },
        Value::Boolean(b) => {
            if *b {
                d.text("Boolean(true)");
            } else {
                d.text("Boolean(false)");
            }
        },
        Value::Fun { params, body, environment } => {
            d.text("Fun { params: ");
            write_tokens(d, params);
            d.text(", body: ");
            d.text("[");
            write_stmts_inner(d, body);
            d.text("]");
            d.text(", environment: ");
            if !write_cell(d, h, *environment, seen, depth) {
                return false;
            }
            d.text(" }");
        },
        Value::Nil => {
            d.text("None");
        },
    }
    assert(final(d)@ =~= old(d)@ + value_doc(h@, v.model(), sn, depth as nat)->0);
    true
}

/// Writes a value as `print` writes it; `false` where that would never end.
pub fn write_display(d: &mut Doc, h: &Heap, v: &Value) -> (ok: bool)
    ensures
        match display_doc(h@, v.model()) {
            Some(x) => ok && final(d)@ == old(d)@ + x,
            None => !ok,
        },
{
    match v {
        Value::String(s) => {
            d.text("Value(");
            d.string(quote(s.as_str()));
            d.text(")");
        },
        Value::Number(n) => {
            d.text("Value(");
            d.number(*n);
            d.text(")");
        },
        Value::Boolean(b) => {
            if *b {
                d.text("Value(true)");
            } else {
                d.text("Value(false)");
            }
        },
        Value::Fun { params, body, environment } => {
            d.text("Value(Fun(params: ");
            write_tokens(d, params);
            d.text(", body: ");
            d.text("[");
            write_stmts_inner(d, body);
            d.text("]");
            d.text(", environment: ");
            let mut seen: Vec<usize> = Vec::new();
            assert(seen@.map_values(|x: usize| x as nat) =~= Seq::<nat>::empty());
            if !write_cell(d, h, *environment, &mut seen, h.len()) {
                return false;
            }
            d.text("))");
        },
        Value::Nil => {
            d.text("Value(none)");
        },
    }
    assert(final(d)@ =~= old(d)@ + display_doc(h@, v.model())->0);
    true
}

/// The number of pieces that are numbers.
pub open spec fn holes(p: Seq<PieceV>) -> nat
    decreases p.len(),
{
    if p.len() == 0 {
        0
    } else {
        holes(p.drop_last()) + if p.last() is Number {
            1nat
        } else {
            0nat
        }
    }
}

/// The text of `p`, the numbers written as the answers from position `pos`
/// of `full` say; `None` where an answer is not the text of that number.
pub open spec fn fill(p: Seq<PieceV>, full: Seq<Answer>, pos: nat) -> Option<Seq<char>>
    decreases p.len(),
{
    if p.len() == 0 {
        Some(Seq::empty())
    } else {
        match fill(p.drop_last(), full, pos) {
            None => None,
            Some(x) => match p.last() {
                PieceV::Text(s) => Some(x + s),
                PieceV::Number(n) => match full[(pos + holes(p.drop_last())) as int] {
                    Answer::Text(m, s) => if m == n {
                        Some(x + s)
                    } else {
                        None
                    },
                    _ => None,
                },
            },
        }
    }
}

/// The text of `d`, each number written as the number backend writes it.
pub fn fill_text<N: Numerics>(numbers: &N, d: &Doc) -> (r: String)
    ensures
        exists|ans: Seq<Answer>| ans.len() == holes(d@) && answered_by(numbers, ans) && #[trigger] fill(d@, ans, 0) == Some(r@),
{
    let ghost mut ans: Seq<Answer> = Seq::empty();
    let mut text = String::new();
    let mut i: usize = 0;
    while i < d.len()
        invariant
            i <= d@.len(),
            ans.len() == holes(d@.take(i as int)),
            answered_by(numbers, ans),
            forall|full: Seq<Answer>| full.take(ans.len() as int) == ans && ans.len() <= full.len() ==> #[trigger] fill(d@.take(i as int), full, 0) == Some(text@),
        decreases d@.len() - i,
    {
        let ghost tb = text@;
        let ghost ab = ans;
        assert(d@.take(i + 1).drop_last() =~= d@.take(i as int));
        match d.piece(i) {
            Piece::Text(s) => {
                text.append(s.as_str());
                assert forall|full: Seq<Answer>| full.take(ans.len() as int) == ans && ans.len() <= full.len() implies #[trigger] fill(d@.take(i + 1), full, 0) == Some(text@) by {
                    assert(fill(d@.take(i as int), full, 0) == Some(tb));
                }
            },
            Piece::Number(n) => {
                let s = text_of(numbers, *n);
                proof {
                    lemma_answered_by_push(numbers, ans, Answer::Text(*n, s@));
                    ans = ans.push(Answer::Text(*n, s@));
                }
                text.append(s.as_str());
                assert forall|full: Seq<Answer>| full.take(ans.len() as int) == ans && ans.len() <= full.len() implies #[trigger] fill(d@.take(i + 1), full, 0) == Some(text@) by {
                    assert(full.take(ab.len() as int) =~= ans.take(ab.len() as int));
                    assert(ans.take(ab.len() as int) =~= ab);
                    assert(fill(d@.take(i as int), full, 0) == Some(tb));
                    assert(full.take(ans.len() as int)[ab.len() as int] == full[ab.len() as int]);
                }
            },
        }
        i = i + 1;
    }
    assert(d@.take(d@.len() as int) =~= d@);
    assert(ans.take(ans.len() as int) =~= ans);
    assert(fill(d@, ans, 0) == Some(text@));
    text
}

/// The text of a value as `print` writes it; `None` where it would never
/// end.
pub fn display_text<N: Numerics>(h: &Heap, v: &Value, numbers: &N) -> (r: Option<String>)
    ensures
        match display_doc(h@, v.model()) {
            None => r is None,
            Some(p) => r matches Some(s) && exists|ans: Seq<Answer>| ans.len() == holes(p) && answered_by(numbers, ans) && #[trigger] fill(
                p,
                ans,
                0,
            ) == Some(s@),
        },
{
    let mut d = Doc::new();
    if !write_display(&mut d, h, v) {
        return None;
    }
    Some(fill_text(numbers, &d))
}

/// An expression as its `Display` writes it: `Expr(..)` around the
/// operator's lexeme and the operands, or around the `Debug` text of a
/// leaf.
pub open spec fn expr_display(e: ExprV) -> Seq<PieceV>
    decreases e,
{
    t("Expr("@) + match e {
        ExprV::Literal(l) => literal_doc(l),
        ExprV::Unary(op, right) => t(op.lexeme@) + t(" "@) + expr_display(*right),
        ExprV::Binary(left, op, right) => t(op.lexeme@) + t(" "@) + expr_display(*left) + t(" "@) + expr_display(*right),
        ExprV::Grouping(inner) => t("Grouping("@) + expr_display(*inner) + t(")"@),
        ExprV::Variable(name) => token_doc(name),
        ExprV::Assign(name, value) => token_doc(name) + t(" "@) + expr_display(*value),
        ExprV::Fun(params, body) => t("Fun(params: "@) + tokens_doc(params) + t(", body: "@) + t("["@) + stmts_inner(body) + t("]"@)
            + t(")"@),
        ExprV::Call(fun, paren, args) => t("Call(func: "@) + expr_doc(*fun) + t(", paren: "@) + token_doc(paren) + t(", arguments: "@)
            + t("["@) + exprs_inner(args) + t("]"@) + t(")"@),
    } + t(")"@)
}

/// Writes an expression as its `Display` writes it.
#[verifier::spinoff_prover]
#[verifier::rlimit(100)]
pub fn write_expr_display(d: &mut Doc, e: &Expr)
    ensures
        final(d)@ == old(d)@ + expr_display(e.model()),
    decreases e,
{
    d.text("Expr(");
    match e {
        Expr::Literal { value } => {
            write_literal(d, value);
        },
        Expr::Unary { operator, right } => {
            d.text(operator.lexeme.as_str());
            d.text(" ");
            write_expr_display(d, right);
        },
        Expr::Binary { left, operator, right } => {
            d.text(operator.lexeme.as_str());
            d.text(" ");
            write_expr_display(d, left);
            d.text(" ");
            write_expr_display(d, right);
        },
        Expr::Grouping { expression } => {
            d.text("Grouping(");
            write_expr_display(d, expression);
            d.text(")");
        },
        Expr::Variable { name } => {
            write_token(d, name);
        },
        Expr::Assign { name, value } => {
            write_token(d, name);
            d.text(" ");
            write_expr_display(d, value);
        },
        Expr::Fun { params, body } => {
            d.text("Fun(params: ");
            write_tokens(d, params);
            d.text(", body: ");
            d.text("[");
            write_stmts_inner(d, body);
            d.text("]");
            d.text(")");
        },
        Expr::Call { fun, paren, arguments } => {
            d.text("Call(func: ");
            write_expr(d, fun);
            d.text(", paren: ");
            write_token(d, paren);
            d.text(", arguments: ");
            d.text("[");
            write_exprs_inner(d, arguments);
            d.text("]");
            d.text(")");
        },
    }
    d.text(")");
    assert(final(d)@ =~= old(d)@ + expr_display(e.model()));
}

impl Expr {
    /// The expression as its `Display` writes it, each number written as the
    /// number backend writes it.
    pub fn to_text<N: Numerics>(&self, numbers: &N) -> (r: String)
        ensures
            exists|ans: Seq<Answer>|
                ans.len() == holes(expr_display(self.model())) && answered_by(numbers, ans) && #[trigger] fill(expr_display(self.model()), ans, 0)
                    == Some(r@),
    {
        let mut d = Doc::new();
        write_expr_display(&mut d, self);
        assert(d@ =~= expr_display(self.model()));
        fill_text(numbers, &d)
    }
}

} // verus!
