//! Recursive-descent parser for JEFF.
//!
//! Produces an [`ast::Program`](crate::ast::Program) with spans on every node.
//! Diagnostics are collected with recovery; the parser never panics and always
//! terminates, also on malformed input.

use vstd::prelude::*;
use crate::ast::{
    Arm, AssignOp, Attr, AttrArg, BaseType, BinOp, Block, CmpOp, CodataDecl, ConstDecl,
    Constraint, Constructor, DataDecl, Destructor, Domain, DottedName, Effect, EffectRow, Expr,
    ExprKind, FnDecl, GenericParam, Ident, Import, Item, Kind, LValue, Lit, Mode, NumSuffix, Param,
    Pattern, PatternKind, Program, RedKind, Stmt, StmtKind, Type, TypeAlias, TypeArg, TypeKind,
    UnOp,
};
use crate::lexer::{keyword_str, kw_text, Keyword as Kw, Sym, TokKind, Token};
use crate::span::{
    any_error, has_error, lemma_error_kept, merge_spec, DiagCode, Diagnostic, Severity, Span,
};
use crate::text::{
    char_debug_text, chars_eq_str, debug_char, debug_str, decimal, is_uppercase, push_str,
    str_chars, str_debug_text, str_to_string, string_eq_str, u64_to_string,
};

verus! {

/// The `Debug` name of a symbol, as text.
pub open spec fn sym_debug_text(s: Sym) -> Seq<char> {
    match s {
        Sym::LParen => "LParen"@,
        Sym::RParen => "RParen"@,
        Sym::LBracket => "LBracket"@,
        Sym::RBracket => "RBracket"@,
        Sym::LBrace => "LBrace"@,
        Sym::RBrace => "RBrace"@,
        Sym::Colon => "Colon"@,
        Sym::Comma => "Comma"@,
        Sym::Dot => "Dot"@,
        Sym::DotDot => "DotDot"@,
        Sym::DotDotEq => "DotDotEq"@,
        Sym::Arrow => "Arrow"@,
        Sym::FatArrow => "FatArrow"@,
        Sym::At => "At"@,
        Sym::Eq => "Eq"@,
        Sym::EqEq => "EqEq"@,
        Sym::Ne => "Ne"@,
        Sym::Lt => "Lt"@,
        Sym::Le => "Le"@,
        Sym::Gt => "Gt"@,
        Sym::Ge => "Ge"@,
        Sym::Plus => "Plus"@,
        Sym::Minus => "Minus"@,
        Sym::Star => "Star"@,
        Sym::StarStar => "StarStar"@,
        Sym::Slash => "Slash"@,
        Sym::SlashSlash => "SlashSlash"@,
        Sym::Percent => "Percent"@,
        Sym::Caret => "Caret"@,
        Sym::Amp => "Amp"@,
        Sym::Pipe => "Pipe"@,
        Sym::Shl => "Shl"@,
        Sym::Shr => "Shr"@,
        Sym::Tilde => "Tilde"@,
        Sym::PlusEq => "PlusEq"@,
        Sym::MinusEq => "MinusEq"@,
        Sym::StarEq => "StarEq"@,
        Sym::SlashEq => "SlashEq"@,
        Sym::PercentEq => "PercentEq"@,
        Sym::CaretEq => "CaretEq"@,
        Sym::AmpEq => "AmpEq"@,
        Sym::PipeEq => "PipeEq"@,
    }
}

/// The `Debug` name of a keyword, as text.
pub open spec fn kw_debug_text(k: Kw) -> Seq<char> {
    match k {
        Kw::Module => "Module"@,
        Kw::Import => "Import"@,
        Kw::Total => "Total"@,
        Kw::Fn => "Fn"@,
        Kw::Data => "Data"@,
        Kw::Codata => "Codata"@,
        Kw::Type => "Type"@,
        Kw::Const => "Const"@,
        Kw::Let => "Let"@,
        Kw::Var => "Var"@,
        Kw::For => "For"@,
        Kw::While => "While"@,
        Kw::Return => "Return"@,
        Kw::Match => "Match"@,
        Kw::In => "In"@,
        Kw::And => "And"@,
        Kw::Or => "Or"@,
        Kw::Not => "Not"@,
        Kw::Own => "Own"@,
        Kw::Move => "Move"@,
        Kw::Secret => "Secret"@,
        Kw::True => "True"@,
        Kw::False => "False"@,
        Kw::IO => "IO"@,
        Kw::Div => "Div"@,
        Kw::Alloc => "Alloc"@,
        Kw::Rand => "Rand"@,
        Kw::Unsafe => "Unsafe"@,
        Kw::Sum => "Sum"@,
        Kw::Prod => "Prod"@,
        Kw::Count => "Count"@,
        Kw::Fold => "Fold"@,
    }
}

/// The `Debug` name of a symbol.
fn sym_name(s: Sym) -> (r: &'static str)
    ensures
        r@ == sym_debug_text(s),
{
    match s {
        Sym::LParen => "LParen",
        Sym::RParen => "RParen",
        Sym::LBracket => "LBracket",
        Sym::RBracket => "RBracket",
        Sym::LBrace => "LBrace",
        Sym::RBrace => "RBrace",
        Sym::Colon => "Colon",
        Sym::Comma => "Comma",
        Sym::Dot => "Dot",
        Sym::DotDot => "DotDot",
        Sym::DotDotEq => "DotDotEq",
        Sym::Arrow => "Arrow",
        Sym::FatArrow => "FatArrow",
        Sym::At => "At",
        Sym::Eq => "Eq",
        Sym::EqEq => "EqEq",
        Sym::Ne => "Ne",
        Sym::Lt => "Lt",
        Sym::Le => "Le",
        Sym::Gt => "Gt",
        Sym::Ge => "Ge",
        Sym::Plus => "Plus",
        Sym::Minus => "Minus",
        Sym::Star => "Star",
        Sym::StarStar => "StarStar",
        Sym::Slash => "Slash",
        Sym::SlashSlash => "SlashSlash",
        Sym::Percent => "Percent",
        Sym::Caret => "Caret",
        Sym::Amp => "Amp",
        Sym::Pipe => "Pipe",
        Sym::Shl => "Shl",
        Sym::Shr => "Shr",
        Sym::Tilde => "Tilde",
        Sym::PlusEq => "PlusEq",
        Sym::MinusEq => "MinusEq",
        Sym::StarEq => "StarEq",
        Sym::SlashEq => "SlashEq",
        Sym::PercentEq => "PercentEq",
        Sym::CaretEq => "CaretEq",
        Sym::AmpEq => "AmpEq",
        Sym::PipeEq => "PipeEq",
    }
}

/// The `Debug` name of a keyword.
fn kw_name(k: Kw) -> (r: &'static str)
    ensures
        r@ == kw_debug_text(k),
{
    match k {
        Kw::Module => "Module",
        Kw::Import => "Import",
        Kw::Total => "Total",
        Kw::Fn => "Fn",
        Kw::Data => "Data",
        Kw::Codata => "Codata",
        Kw::Type => "Type",
        Kw::Const => "Const",
        Kw::Let => "Let",
        Kw::Var => "Var",
        Kw::For => "For",
        Kw::While => "While",
        Kw::Return => "Return",
        Kw::Match => "Match",
        Kw::In => "In",
        Kw::And => "And",
        Kw::Or => "Or",
        Kw::Not => "Not",
        Kw::Own => "Own",
        Kw::Move => "Move",
        Kw::Secret => "Secret",
        Kw::True => "True",
        Kw::False => "False",
        Kw::IO => "IO",
        Kw::Div => "Div",
        Kw::Alloc => "Alloc",
        Kw::Rand => "Rand",
        Kw::Unsafe => "Unsafe",
        Kw::Sum => "Sum",
        Kw::Prod => "Prod",
        Kw::Count => "Count",
        Kw::Fold => "Fold",
    }
}

/// `a` followed by `b`.
fn cat(a: &str, b: &str) -> (s: String)
    ensures
        s@ == a@ + b@,
{
    let mut s = str_to_string(a);
    push_str(&mut s, b);
    s
}

/// The `Debug` form of an optional numeric suffix.
pub open spec fn suffix_debug_text(suf: Option<NumSuffix>) -> Seq<char> {
    match suf {
        None => "None"@,
        Some(NumSuffix::I(w)) => "Some(I("@ + decimal(w as nat) + "))"@,
        Some(NumSuffix::U(w)) => "Some(U("@ + decimal(w as nat) + "))"@,
        Some(NumSuffix::Nat) => "Some(Nat)"@,
    }
}

/// The `Debug` form of a token kind, e.g. `Ident("x")` or `Sym(Colon)`.
pub open spec fn tok_debug_text(k: TokKind) -> Seq<char> {
    match k {
        TokKind::Ident(name) => "Ident("@ + str_debug_text(name@) + ")"@,
        TokKind::Int(text, suf) => "Int("@ + str_debug_text(text@) + ", "@ + suffix_debug_text(suf)
            + ")"@,
        TokKind::Float(text) => "Float("@ + str_debug_text(text@) + ")"@,
        TokKind::Str(text) => "Str("@ + str_debug_text(text@) + ")"@,
        TokKind::Char(c) => "Char("@ + char_debug_text(c) + ")"@,
        TokKind::Kw(kw) => "Kw("@ + kw_debug_text(kw) + ")"@,
        TokKind::Sym(sy) => "Sym("@ + sym_debug_text(sy) + ")"@,
        TokKind::Indent => "Indent"@,
        TokKind::Dedent => "Dedent"@,
        TokKind::Newline => "Newline"@,
        TokKind::Eof => "Eof"@,
    }
}

/// A token kind rendered as its `Debug` form, e.g. `Ident("x")` or `Sym(Colon)`.
fn tok_kind_debug(k: &TokKind) -> (r: String)
    ensures
        r@ == tok_debug_text(*k),
{
    match k {
        TokKind::Ident(name) => {
            let mut s = str_to_string("Ident(");
            push_str(&mut s, debug_str(name.as_str()).as_str());
            push_str(&mut s, ")");
            s
        },
        TokKind::Int(text, suf) => {
            let mut s = str_to_string("Int(");
            push_str(&mut s, debug_str(text.as_str()).as_str());
            push_str(&mut s, ", ");
            match suf {
                None => push_str(&mut s, "None"),
                Some(NumSuffix::I(w)) => {
                    push_str(&mut s, "Some(I(");
                    push_str(&mut s, u64_to_string(*w as u64).as_str());
                    push_str(&mut s, "))");
                },
                Some(NumSuffix::U(w)) => {
                    push_str(&mut s, "Some(U(");
                    push_str(&mut s, u64_to_string(*w as u64).as_str());
                    push_str(&mut s, "))");
                },
                Some(NumSuffix::Nat) => push_str(&mut s, "Some(Nat)"),
            }
            push_str(&mut s, ")");
            s
        },
        TokKind::Float(text) => {
            let mut s = str_to_string("Float(");
            push_str(&mut s, debug_str(text.as_str()).as_str());
            push_str(&mut s, ")");
            s
        },
        TokKind::Str(text) => {
            let mut s = str_to_string("Str(");
            push_str(&mut s, debug_str(text.as_str()).as_str());
            push_str(&mut s, ")");
            s
        },
        TokKind::Char(c) => {
            let mut s = str_to_string("Char(");
            push_str(&mut s, debug_char(*c).as_str());
            push_str(&mut s, ")");
            s
        },
        TokKind::Kw(kw) => {
            let mut s = str_to_string("Kw(");
            push_str(&mut s, kw_name(*kw));
            push_str(&mut s, ")");
            s
        },
        TokKind::Sym(sy) => {
            let mut s = str_to_string("Sym(");
            push_str(&mut s, sym_name(*sy));
            push_str(&mut s, ")");
            s
        },
        TokKind::Indent => str_to_string("Indent"),
        TokKind::Dedent => str_to_string("Dedent"),
        TokKind::Newline => str_to_string("Newline"),
        TokKind::Eof => str_to_string("Eof"),
    }
}

pub struct Parser {
    toks: Vec<Token>,
    pos: usize,
    diags: Vec<Diagnostic>,
}

/// A token stream the parser accepts: nonempty, ending with `Eof`.
pub open spec fn parser_input(toks: Seq<Token>) -> bool {
    toks.len() >= 1 && toks.last().kind is Eof
}

/// The first position from `p` on that does not hold a `Newline`; the last
/// token stops the scan.
pub open spec fn skip_newlines(toks: Seq<Token>, p: int) -> int
    decreases toks.len() - p,
{
    if 0 <= p < toks.len() - 1 && toks[p].kind is Newline {
        skip_newlines(toks, p + 1)
    } else {
        p
    }
}

/// Whether a token kind ends a line for error recovery.
pub open spec fn line_stop(k: TokKind) -> bool {
    k is Newline || k is Dedent || k is Eof
}

/// The first position from `p` on that holds a `Newline`, `Dedent` or `Eof`; the
/// last token stops the scan.
pub open spec fn line_end(toks: Seq<Token>, p: int) -> int
    decreases toks.len() - p,
{
    if 0 <= p < toks.len() - 1 && !line_stop(toks[p].kind) {
        line_end(toks, p + 1)
    } else {
        p
    }
}

/// `d` is the parse error that the parser records at `span` with message `msg`.
pub open spec fn parse_error(d: Diagnostic, span: Span, msg: Seq<char>) -> bool {
    &&& d.severity == Severity::Error
    &&& d.code == DiagCode::Parse
    &&& d.span == span
    &&& d.message@ == msg
    &&& d.notes@.len() == 0
    &&& d.help.is_none()
}

/// The item `it` stands as the tokens at `q` announce it: a function after
/// `@` attributes (the first named by the token after `@`), or the declaration
/// its keyword starts, with the mode and name the tokens give.
pub open spec fn item_head(toks: Seq<Token>, q: int, it: Item) -> bool {
    let k = toks[q].kind;
    if k == TokKind::Sym(Sym::At) {
        it matches Item::Fn(f) && f.attrs@.len() >= 1 && f.attrs@[0].name@ == ident_name(
            toks,
            q + 1,
        )
    } else if k == TokKind::Kw(Kw::Total) || k == TokKind::Kw(Kw::Fn) {
        it matches Item::Fn(f) && f.attrs@.len() == 0 && f.mode == fn_mode(toks, q) && f.name@
            == ident_name(toks, fn_name_pos(toks, q))
    } else if k == TokKind::Kw(Kw::Data) {
        it matches Item::Data(d) && d.name@ == decl_name(toks, q)
    } else if k == TokKind::Kw(Kw::Codata) {
        it matches Item::Codata(d) && d.name@ == decl_name(toks, q)
    } else if k == TokKind::Kw(Kw::Type) {
        it matches Item::TypeAlias(a) && a.name@ == decl_name(toks, q)
    } else if k == TokKind::Kw(Kw::Const) {
        it matches Item::Const(c) && c.name@ == decl_name(toks, q)
    } else {
        false
    }
}

/// The items stand in order at the positions `hs`, each as its tokens announce
/// it.
pub open spec fn items_at(toks: Seq<Token>, hs: Seq<int>, items: Seq<Item>) -> bool {
    &&& hs.len() == items.len()
    &&& forall|i: int, j: int| 0 <= i < j < hs.len() ==> hs[i] < hs[j]
    &&& forall|i: int|
        0 <= i < hs.len() ==> 0 <= #[trigger] hs[i] < toks.len() && item_head(toks, hs[i], items[i])
}

/// Some diagnostic of `ds` is a parse error.
pub open spec fn has_parse_error(ds: Seq<Diagnostic>) -> bool {
    exists|i: int|
        0 <= i < ds.len() && #[trigger] ds[i].severity == Severity::Error && ds[i].code
            == DiagCode::Parse
}

/// A parse error stays recorded as diagnostics are added.
proof fn lemma_parse_error_kept(a: Seq<Diagnostic>, b: Seq<Diagnostic>)
    requires
        has_parse_error(a),
        a.is_prefix_of(b),
    ensures
        has_parse_error(b),
{
    let i = choose|i: int|
        0 <= i < a.len() && #[trigger] a[i].severity == Severity::Error && a[i].code
            == DiagCode::Parse;
    assert(b[i] == a[i]);
}

/// The name a path segment token stands for: an identifier's text or a keyword's
/// source text.
pub open spec fn segment_text(k: TokKind) -> Option<Seq<char>> {
    match k {
        TokKind::Ident(name) => Some(name@),
        TokKind::Kw(kw) => Some(kw_text(kw)),
        _ => None,
    }
}

/// Where a path segment read at `p` ends: past the token when it names one,
/// else at `p` (nothing is consumed).
pub open spec fn segment_end(toks: Seq<Token>, p: int) -> int {
    if segment_text(toks[p].kind) is Some {
        p + 1
    } else {
        p
    }
}

/// The name read for the path segment at `p`, `<error>` when there is none.
pub open spec fn segment_name(toks: Seq<Token>, p: int) -> Seq<char> {
    match segment_text(toks[p].kind) {
        Some(t) => t,
        None => "<error>"@,
    }
}

/// Whether the token at `q` continues a dotted name (a `.` before the last token).
pub open spec fn dot_at(toks: Seq<Token>, q: int) -> bool {
    0 <= q < toks.len() - 1 && toks[q].kind == TokKind::Sym(Sym::Dot)
}

/// The segment names of a dotted name after position `q` (just past a segment):
/// each `.` is followed by one more segment.
pub open spec fn dotted_tail(toks: Seq<Token>, q: int) -> Seq<Seq<char>>
    decreases toks.len() - q,
{
    if dot_at(toks, q) {
        seq![segment_name(toks, q + 1)] + dotted_tail(toks, segment_end(toks, q + 1))
    } else {
        seq![]
    }
}

/// Where a dotted name whose last segment ended at `q` stops.
pub open spec fn dotted_stop(toks: Seq<Token>, q: int) -> int
    decreases toks.len() - q,
{
    if dot_at(toks, q) {
        dotted_stop(toks, segment_end(toks, q + 1))
    } else {
        q
    }
}

/// Every segment after `q` is present.
pub open spec fn dotted_tail_ok(toks: Seq<Token>, q: int) -> bool
    decreases toks.len() - q,
{
    if dot_at(toks, q) {
        segment_text(toks[q + 1].kind) is Some && dotted_tail_ok(toks, segment_end(toks, q + 1))
    } else {
        true
    }
}

/// The segment names of the dotted name that starts at `p`.
pub open spec fn dotted_names(toks: Seq<Token>, p: int) -> Seq<Seq<char>> {
    seq![segment_name(toks, p)] + dotted_tail(toks, segment_end(toks, p))
}

/// Where the dotted name that starts at `p` ends.
pub open spec fn dotted_end(toks: Seq<Token>, p: int) -> int {
    dotted_stop(toks, segment_end(toks, p))
}

/// Every segment of the dotted name that starts at `p` is present.
pub open spec fn dotted_ok(toks: Seq<Token>, p: int) -> bool {
    segment_text(toks[p].kind) is Some && dotted_tail_ok(toks, segment_end(toks, p))
}

/// The effect a keyword names in an effect row.
pub open spec fn effect_of(k: TokKind) -> Option<Effect> {
    match k {
        TokKind::Kw(Kw::IO) => Some(Effect::IO),
        TokKind::Kw(Kw::Div) => Some(Effect::Div),
        TokKind::Kw(Kw::Alloc) => Some(Effect::Alloc),
        TokKind::Kw(Kw::Rand) => Some(Effect::Rand),
        TokKind::Kw(Kw::Unsafe) => Some(Effect::Unsafe),
        _ => None,
    }
}

/// Whether the label loop of an effect row goes on at `q`: not at `}` nor `Eof`.
pub open spec fn row_goes_on(toks: Seq<Token>, q: int) -> bool {
    0 <= q < toks.len() - 1 && toks[q].kind != TokKind::Sym(Sym::RBrace) && !(toks[q].kind is Eof)
}

/// The effects of an effect row read from `q` on: unknown labels are skipped,
/// and a label not followed by `,` ends the list.
pub open spec fn row_labels(toks: Seq<Token>, q: int) -> Seq<Effect>
    decreases toks.len() - q,
{
    if row_goes_on(toks, q) {
        match effect_of(toks[q].kind) {
            None => row_labels(toks, q + 1),
            Some(e) => if comma_at(toks, q + 1) {
                seq![e] + row_labels(toks, q + 2)
            } else {
                seq![e]
            },
        }
    } else {
        seq![]
    }
}

/// Whether the token at `q` is a `,` before the last token.
pub open spec fn comma_at(toks: Seq<Token>, q: int) -> bool {
    0 <= q < toks.len() - 1 && toks[q].kind == TokKind::Sym(Sym::Comma)
}

/// Where the label loop of an effect row read from `q` stops.
pub open spec fn row_stop(toks: Seq<Token>, q: int) -> int
    decreases toks.len() - q,
{
    if row_goes_on(toks, q) {
        match effect_of(toks[q].kind) {
            None => row_stop(toks, q + 1),
            Some(e) => if comma_at(toks, q + 1) {
                row_stop(toks, q + 2)
            } else {
                q + 1
            },
        }
    } else {
        q
    }
}

/// No unknown label occurs in the effect row read from `q`.
pub open spec fn row_labels_known(toks: Seq<Token>, q: int) -> bool
    decreases toks.len() - q,
{
    if row_goes_on(toks, q) {
        match effect_of(toks[q].kind) {
            None => false,
            Some(e) => comma_at(toks, q + 1) ==> row_labels_known(toks, q + 2),
        }
    } else {
        true
    }
}

/// The position after an expected symbol at `q`: past it when it is there.
pub open spec fn past_sym(toks: Seq<Token>, q: int, s: Sym) -> int {
    if toks[q].kind == TokKind::Sym(s) {
        q + 1
    } else {
        q
    }
}

/// The kind that a token names after `:` in a generic parameter.
pub open spec fn generic_kind_of(k: TokKind) -> Option<Kind> {
    match k {
        TokKind::Kw(Kw::Type) => Some(Kind::Type),
        TokKind::Ident(s) => if s@ == "nat"@ {
            Some(Kind::Nat)
        } else if s@ == "type"@ {
            Some(Kind::Type)
        } else {
            None
        },
        _ => None,
    }
}

/// The name read by `expect_ident` at `q`: the identifier's text, or `<error>`.
pub open spec fn ident_name(toks: Seq<Token>, q: int) -> Seq<char> {
    match toks[q].kind {
        TokKind::Ident(s) => s@,
        _ => "<error>"@,
    }
}

/// Where `expect_ident` at `q` leaves the cursor.
pub open spec fn ident_end(toks: Seq<Token>, q: int) -> int {
    if toks[q].kind is Ident {
        q + 1
    } else {
        q
    }
}

/// Whether the token at `q` is the symbol `s`, before the last token.
pub open spec fn sym_at(toks: Seq<Token>, q: int, s: Sym) -> bool {
    0 <= q < toks.len() - 1 && toks[q].kind == TokKind::Sym(s)
}

/// The kind of the generic parameter that starts at `q` (`type` by default).
pub open spec fn generic_kind(toks: Seq<Token>, q: int) -> Kind {
    let n = ident_end(toks, q);
    if sym_at(toks, n, Sym::Colon) {
        match generic_kind_of(toks[n + 1].kind) {
            Some(k) => k,
            None => Kind::Type,
        }
    } else {
        Kind::Type
    }
}

/// Where the generic parameter that starts at `q` ends.
pub open spec fn generic_end(toks: Seq<Token>, q: int) -> int {
    let n = ident_end(toks, q);
    if sym_at(toks, n, Sym::Colon) {
        if generic_kind_of(toks[n + 1].kind) is Some {
            n + 2
        } else {
            n + 1
        }
    } else {
        n
    }
}

/// The generic parameter that starts at `q` is well formed: a name, and after
/// `:` a known kind.
pub open spec fn generic_ok(toks: Seq<Token>, q: int) -> bool {
    let n = ident_end(toks, q);
    &&& toks[q].kind is Ident
    &&& sym_at(toks, n, Sym::Colon) ==> generic_kind_of(toks[n + 1].kind) is Some
}

/// Whether the parameter loop of a generic list goes on at `q`: not at `]` nor `Eof`.
pub open spec fn generics_go_on(toks: Seq<Token>, q: int) -> bool {
    0 <= q < toks.len() - 1 && toks[q].kind != TokKind::Sym(Sym::RBracket) && !(toks[q].kind is Eof)
}

/// The parameters (name, kind, span) of a generic list read from `q` on; a
/// parameter not followed by `,` ends the list.
pub open spec fn generic_params(toks: Seq<Token>, q: int) -> Seq<(Seq<char>, Kind, Span)>
    decreases toks.len() - q,
{
    if generics_go_on(toks, q) {
        let e = generic_end(toks, q);
        let g = (ident_name(toks, q), generic_kind(toks, q), merge_spec(toks[q].span, toks[e].span));
        if sym_at(toks, e, Sym::Comma) && e >= q {
            seq![g] + generic_params(toks, e + 1)
        } else {
            seq![g]
        }
    } else {
        seq![]
    }
}

/// Where the parameter loop of a generic list read from `q` stops.
pub open spec fn generics_stop(toks: Seq<Token>, q: int) -> int
    decreases toks.len() - q,
{
    if generics_go_on(toks, q) {
        let e = generic_end(toks, q);
        if sym_at(toks, e, Sym::Comma) && e >= q {
            generics_stop(toks, e + 1)
        } else {
            e
        }
    } else {
        q
    }
}

/// Every parameter of the generic list read from `q` is well formed.
pub open spec fn generics_ok(toks: Seq<Token>, q: int) -> bool
    decreases toks.len() - q,
{
    if generics_go_on(toks, q) {
        let e = generic_end(toks, q);
        generic_ok(toks, q) && (sym_at(toks, e, Sym::Comma) && e >= q ==> generics_ok(toks, e + 1))
    } else {
        true
    }
}

/// The position after `advance` from `p`: the next token, or `p` at the last one.
pub open spec fn next_pos(toks: Seq<Token>, p: int) -> int {
    if p < toks.len() - 1 {
        p + 1
    } else {
        p
    }
}

/// The generic parameters that `parse_generics` reads at `n`: a bracketed list,
/// or none when no `[` is there.
pub open spec fn generic_list(toks: Seq<Token>, n: int) -> Seq<(Seq<char>, Kind, Span)> {
    if toks[n].kind == TokKind::Sym(Sym::LBracket) {
        generic_params(toks, n + 1)
    } else {
        seq![]
    }
}

/// The name of a declaration whose keyword is at `p`.
pub open spec fn decl_name(toks: Seq<Token>, p: int) -> Seq<char> {
    ident_name(toks, next_pos(toks, p))
}

/// The generic parameters after the name of a declaration whose keyword is at `p`.
pub open spec fn decl_generics(toks: Seq<Token>, p: int) -> Seq<(Seq<char>, Kind, Span)> {
    generic_list(toks, ident_end(toks, next_pos(toks, p)))
}

/// Where `parse_generics` at `n` leaves the cursor.
pub open spec fn generics_end(toks: Seq<Token>, n: int) -> int {
    if toks[n].kind == TokKind::Sym(Sym::LBracket) {
        past_sym(toks, generics_stop(toks, n + 1), Sym::RBracket)
    } else {
        n
    }
}

/// Where the body of a `data` or `codata` declaration whose keyword is at `p`
/// begins: after the name, the generic parameters and the `:`.
pub open spec fn decl_body_pos(toks: Seq<Token>, p: int) -> int {
    past_sym(toks, generics_end(toks, ident_end(toks, next_pos(toks, p))), Sym::Colon)
}

/// The mode of a function whose header starts at `p`.
pub open spec fn fn_mode(toks: Seq<Token>, p: int) -> Mode {
    if toks[p].kind == TokKind::Kw(Kw::Total) {
        Mode::Total
    } else {
        Mode::General
    }
}

/// Where the name of a function whose header starts at `p` stands: after an
/// optional `total` and the `fn` keyword.
pub open spec fn fn_name_pos(toks: Seq<Token>, p: int) -> int {
    let p1 = if toks[p].kind == TokKind::Kw(Kw::Total) {
        p + 1
    } else {
        p
    };
    if toks[p1].kind == TokKind::Kw(Kw::Fn) {
        p1 + 1
    } else {
        p1
    }
}

/// Whether a token starts a type by its name (not `&`, `own`, `secret` or `{`).
pub open spec fn named_type_start(k: TokKind) -> bool {
    k != TokKind::Sym(Sym::Amp) && k != TokKind::Kw(Kw::Own) && k != TokKind::Kw(Kw::Secret) && k
        != TokKind::Sym(Sym::LBrace)
}

/// Whether a type argument that starts with token `k` is read as a type (else
/// as a type-level term): integer literals, `-` and lowercase names that are not
/// base types start terms.
pub open spec fn type_arg_is_type(k: TokKind) -> bool {
    match k {
        TokKind::Int(..) => false,
        TokKind::Sym(Sym::Minus) => false,
        TokKind::Ident(name) => base_type_spec(name@) is Some || name@ == "mod"@ || name@ == "bv"@ || (
        name@.len() > 0 && crate::text::unicode_uppercase(name@[0])),
        _ => true,
    }
}

/// The base type of a refinement whose `{` is at `p`: the named base type, `int`
/// when the name is none.
pub open spec fn refine_base(toks: Seq<Token>, p: int) -> BaseType {
    let q = past_sym(toks, ident_end(toks, p + 1), Sym::Colon);
    match base_type_spec(ident_name(toks, q)) {
        Some(b) => b,
        None => BaseType::Int,
    }
}

/// Whether `t` is a binary literal's text (`0b` followed by digits).
pub open spec fn binary_text(t: Seq<char>) -> bool {
    t.len() >= 2 && t[0] == '0' && t[1] == 'b'
}

/// The expression `parse_primary` builds, by its first token `k` (`next` is
/// the token after it): a reduction or `match` for its keyword, `own`, `move`,
/// a borrow (mutable when `mut` follows `&`), a literal carrying the token's
/// text (a `0b` integer is a bit-vector literal of its digits), a variable, or
/// a parenthesised expression. `false` for any other token: it starts no
/// expression.
pub open spec fn primary_built(k: TokKind, next: TokKind, e: ExprKind) -> bool {
    match k {
        TokKind::Kw(Kw::Sum) => e matches ExprKind::Reduction { kind, .. } && kind == RedKind::Sum,
        TokKind::Kw(Kw::Prod) => e matches ExprKind::Reduction { kind, .. } && kind == RedKind::Prod,
        TokKind::Kw(Kw::Count) => e matches ExprKind::Reduction { kind, .. } && kind
            == RedKind::Count,
        TokKind::Kw(Kw::Fold) => e matches ExprKind::Reduction { kind, .. } && kind == RedKind::Fold,
        TokKind::Kw(Kw::Match) => e is Match,
        TokKind::Kw(Kw::Own) => e is Own,
        TokKind::Kw(Kw::Move) => e is Move,
        TokKind::Sym(Sym::Amp) => e matches ExprKind::Borrow { mutable, .. } && mutable == (
        next is Ident && next->Ident_0@ == "mut"@),
        TokKind::Kw(Kw::True) => e == ExprKind::Lit(Lit::Bool(true)),
        TokKind::Kw(Kw::False) => e == ExprKind::Lit(Lit::Bool(false)),
        TokKind::Int(text, suf) => if binary_text(text@) {
            e matches ExprKind::Lit(Lit::Bv(d)) && d@ == text@.skip(2)
        } else {
            e matches ExprKind::Lit(Lit::Int(t, s)) && t@ == text@ && s == suf
        },
        TokKind::Float(text) => e matches ExprKind::Lit(Lit::Float(t)) && t@ == text@,
        TokKind::Str(text) => e matches ExprKind::Lit(Lit::Str(t)) && t@ == text@,
        TokKind::Char(c) => e == ExprKind::Lit(Lit::Char(c)),
        TokKind::Ident(name) => e matches ExprKind::Var(n) && n@ == name@,
        TokKind::Sym(Sym::LParen) => e is Paren,
        _ => false,
    }
}

/// The `k` of an `m + k` pattern whose `+` is at `q`: the value of the integer
/// after it, when there is one that `u64` holds.
pub open spec fn succ_offset(toks: Seq<Token>, q: int) -> Option<u64> {
    if toks[q].kind == TokKind::Sym(Sym::Plus) && q + 1 < toks.len() {
        match toks[q + 1].kind {
            TokKind::Int(text, _) => u64_parse_spec(text@),
            _ => None,
        }
    } else {
        None
    }
}

/// The pattern `parse_pattern` builds from the tokens at `p`, and where it
/// ends: `_`; a constructor with arguments when `(` follows a name; `m + k`;
/// a bare uppercase name as a nullary constructor, else a variable; an
/// integer or boolean literal. `None` for a token that starts no pattern.
pub open spec fn pattern_built(toks: Seq<Token>, p: int, pk: PatternKind, end: int) -> Option<bool> {
    let q = next_pos(toks, p);
    match toks[p].kind {
        TokKind::Ident(name) => Some(
            if name@ == "_"@ {
                pk == PatternKind::Wild && end == q
            } else if toks[q].kind == TokKind::Sym(Sym::LParen) {
                pk matches PatternKind::Ctor(n, _) && n@ == name@
            } else if succ_offset(toks, q) is Some {
                pk matches PatternKind::NatSucc(n, k) && n@ == name@ && Some(k) == succ_offset(
                    toks,
                    q,
                ) && end == q + 2
            } else if name@.len() > 0 && crate::text::unicode_uppercase(name@[0]) {
                pk matches PatternKind::Ctor(n, args) && n@ == name@ && args@.len() == 0 && end
                    == q
            } else {
                pk matches PatternKind::Var(n) && n@ == name@ && end == q
            },
        ),
        TokKind::Int(text, suf) => Some(
            pk matches PatternKind::Lit(Lit::Int(t, s)) && t@ == text@ && s == suf && end == q,
        ),
        TokKind::Kw(Kw::True) => Some(pk == PatternKind::Lit(Lit::Bool(true)) && end == q),
        TokKind::Kw(Kw::False) => Some(pk == PatternKind::Lit(Lit::Bool(false)) && end == q),
        _ => None,
    }
}

/// The statement form that `parse_stmt` reads by the first token `k` (`next` is
/// the token after it): `let`, `var` (with the name after it), `for`, `while`,
/// `return` (bare when the line or block ends after it), else an expression
/// statement or an assignment.
pub open spec fn stmt_form(k: TokKind, next: TokKind, next_name: Seq<char>, st: StmtKind) -> bool {
    match k {
        TokKind::Kw(Kw::Let) => st is Let,
        TokKind::Kw(Kw::Var) => st matches StmtKind::Var { name, .. } && name@ == next_name,
        TokKind::Kw(Kw::For) => st is For,
        TokKind::Kw(Kw::While) => st is While,
        TokKind::Kw(Kw::Return) => if next is Newline || next is Dedent || next is Eof {
            st == StmtKind::Return(None)
        } else {
            st matches StmtKind::Return(Some(_))
        },
        _ => st is Expr || st is Assign,
    }
}

/// The statement built from the expression `e` read first when the token `k`
/// follows it: an assignment through the l-value `e` stands for when `k` is an
/// assignment operator, else (or when `e` is no l-value) the expression itself.
pub open spec fn assign_built(e: Expr, k: TokKind, st: StmtKind) -> bool {
    match assign_op_of(k) {
        Some(op) => match lvalue_of(e) {
            Some(lv) => st matches StmtKind::Assign { lhs, op: o, .. } && lhs == lv && o == op,
            None => st == StmtKind::Expr(e),
        },
        None => st == StmtKind::Expr(e),
    }
}

/// The binding strength of a binary operator, loosest first: `or`, `and`,
/// comparisons, `|`, `^`, `&`, shifts, `+ -`, `* / // %`, `**` (prefix `not`
/// sits between `and` and the comparisons, prefix `-`/`~` between `*` and `**`).
pub open spec fn prec(op: BinOp) -> int {
    match op {
        BinOp::Or => 1,
        BinOp::And => 2,
        BinOp::Eq | BinOp::Ne | BinOp::Lt | BinOp::Le | BinOp::Gt | BinOp::Ge => 4,
        BinOp::BitOr => 5,
        BinOp::BitXor => 6,
        BinOp::BitAnd => 7,
        BinOp::Shl | BinOp::Shr => 8,
        BinOp::Add | BinOp::Sub => 9,
        BinOp::Mul | BinOp::Div | BinOp::FloorDiv | BinOp::Rem => 10,
        BinOp::Pow => 12,
    }
}

/// The expression tree respects the precedence table when read at binding level
/// `lvl` (an operator may stand at the top only when it binds at least as tightly
/// as `lvl`): every binary operator but `**` is left-associative (its right
/// operand binds strictly tighter), `**` is right-associative (its base is an
/// atom, its exponent a prefix-level expression), and a range `a..b` stands only
/// at the top. Parenthesised and other atomic expressions start afresh.
pub open spec fn shaped(e: Expr, lvl: int) -> bool
    decreases e,
{
    match e.kind {
        ExprKind::Range { lo, hi, .. } => lvl <= 0 && shaped(*lo, 1) && shaped(*hi, 1),
        ExprKind::Bin(op, l, r) => if op == BinOp::Pow {
            lvl <= 12 && shaped(*l, 13) && shaped(*r, 11)
        } else {
            lvl <= prec(op) && shaped(*l, prec(op)) && shaped(*r, prec(op) + 1)
        },
        ExprKind::Un(UnOp::Not, a) => lvl <= 3 && shaped(*a, 3),
        ExprKind::Un(_, a) => lvl <= 11 && shaped(*a, 11),
        _ => true,
    }
}

/// A token that `parse_primary` reads alone as a literal or a variable.
pub open spec fn atom_tok(k: TokKind) -> bool {
    k is Ident || k is Int || k is Float || k is Str || k is Char || k == TokKind::Kw(Kw::True)
        || k == TokKind::Kw(Kw::False)
}

/// An atom at `p` followed by the end of its line.
pub open spec fn atom_line(toks: Seq<Token>, p: int) -> bool {
    0 <= p && p + 1 < toks.len() && atom_tok(toks[p].kind) && line_stop(toks[p + 1].kind)
}

/// An indented block at `b` (on its `Newline`) whose one line is an operator
/// chain, closed by a `Dedent` or the end of the input.
pub open spec fn block_chain(toks: Seq<Token>, b: int) -> bool {
    let i = skip_newlines(toks, b);
    let e = skip_newlines(toks, chain_end(toks, i + 1));
    &&& 0 <= b < toks.len()
    &&& toks[b].kind is Newline
    &&& toks[i].kind is Indent
    &&& chain_from(toks, i + 1)
    &&& (toks[e].kind is Dedent || toks[e].kind is Eof)
}

/// Where the parser stands after the block that `block_chain` reads at `b`.
pub open spec fn block_end(toks: Seq<Token>, b: int) -> int {
    let e = skip_newlines(toks, chain_end(toks, skip_newlines(toks, b) + 1));
    if toks[e].kind is Dedent {
        e + 1
    } else {
        e
    }
}

/// Where the keyword `fn` of a function head at `q` stands (after `total`).
pub open spec fn fn_kw_pos(toks: Seq<Token>, q: int) -> int {
    if toks[q].kind == TokKind::Kw(Kw::Total) {
        q + 1
    } else {
        q
    }
}

/// A type that is one name other than `mod` and `bv`, without arguments.
pub open spec fn simple_type(toks: Seq<Token>, p: int) -> bool {
    &&& 0 <= p
    &&& p + 1 < toks.len()
    &&& toks[p].kind matches TokKind::Ident(name) && name@ != "mod"@ && name@ != "bv"@
    &&& toks[p + 1].kind != TokKind::Sym(Sym::LBracket)
}

/// A function body at `b`: an operator chain on the line, or an indented block
/// holding one.
pub open spec fn body_ok(toks: Seq<Token>, b: int) -> bool {
    chain_from(toks, b) || block_chain(toks, b)
}

/// Where the parser stands after the body that `body_ok` reads at `b`.
pub open spec fn body_end(toks: Seq<Token>, b: int) -> int {
    if chain_from(toks, b) {
        skip_newlines(toks, chain_end(toks, b))
    } else {
        block_end(toks, b)
    }
}

/// Where the chain of the body that `body_ok` reads at `b` starts.
pub open spec fn body_expr_at(toks: Seq<Token>, b: int) -> int {
    if chain_from(toks, b) {
        b
    } else {
        skip_newlines(toks, b) + 1
    }
}

/// A plain-name type, or `secret[` one `]`.
pub open spec fn plain_type(toks: Seq<Token>, p: int) -> bool {
    simple_type(toks, p) || (0 <= p && p + 3 < toks.len() && toks[p].kind == TokKind::Kw(
        Kw::Secret,
    ) && toks[p + 1].kind == TokKind::Sym(Sym::LBracket) && simple_type(toks, p + 2)
        && toks[p + 3].kind == TokKind::Sym(Sym::RBracket))
}

/// How many tokens the `plain_type` at `p` takes.
pub open spec fn plain_type_len(toks: Seq<Token>, p: int) -> int {
    if toks[p].kind == TokKind::Kw(Kw::Secret) {
        4
    } else {
        1
    }
}

/// A parameter list from `p` (after `(`) up to its `)`: `name: type` entries
/// with plain-name types, separated by commas (a trailing comma allowed).
pub open spec fn simple_params(toks: Seq<Token>, p: int) -> bool
    decreases toks.len() - p,
{
    if 0 <= p < toks.len() && toks[p].kind == TokKind::Sym(Sym::RParen) {
        true
    } else if 0 <= p && toks[p].kind is Ident && p + 1 < toks.len() && toks[p + 1].kind
        == TokKind::Sym(Sym::Colon) && plain_type(toks, p + 2) {
        let n = p + 2 + plain_type_len(toks, p + 2);
        n < toks.len() && (toks[n].kind == TokKind::Sym(Sym::RParen) || (toks[n].kind
            == TokKind::Sym(Sym::Comma) && simple_params(toks, n + 1)))
    } else {
        false
    }
}

/// Where the `)` closing the parameter list that `simple_params` reads from
/// `p` stands, and how many parameters come before it.
pub open spec fn params_close(toks: Seq<Token>, p: int) -> (int, nat)
    decreases toks.len() - p,
{
    let n = p + 2 + plain_type_len(toks, p + 2);
    if 0 <= p < toks.len() && toks[p].kind == TokKind::Sym(Sym::RParen) {
        (p, 0)
    } else if 0 <= p && n < toks.len() && toks[n].kind == TokKind::Sym(Sym::Comma) {
        let r = params_close(toks, n + 1);
        (r.0, r.1 + 1)
    } else {
        (n, 1)
    }
}

/// Where the body of a one-line function head at `q` starts: after the
/// parameters, an optional `-> type`, and `:`.
pub open spec fn fn_body_pos(toks: Seq<Token>, q: int) -> int {
    let c = params_close(toks, fn_kw_pos(toks, q) + 3).0;
    if toks[c + 1].kind == TokKind::Sym(Sym::Arrow) {
        c + 3 + plain_type_len(toks, c + 2)
    } else {
        c + 2
    }
}

/// A function without effects whose parameter and result types are plain
/// names (or `secret[name]`) and whose body is a chain of atoms and binary operators, on the
/// line or alone in an indented block:
/// `[total] fn name(x: type, ..) [-> type]: atom (op atom)*`.
pub open spec fn simple_fn(toks: Seq<Token>, q: int) -> bool {
    let f = fn_kw_pos(toks, q);
    let c = params_close(toks, f + 3).0;
    let b = fn_body_pos(toks, q);
    &&& 0 <= q
    &&& f + 3 < toks.len()
    &&& toks[f].kind == TokKind::Kw(Kw::Fn)
    &&& toks[f + 1].kind is Ident
    &&& toks[f + 2].kind == TokKind::Sym(Sym::LParen)
    &&& simple_params(toks, f + 3)
    &&& c + 1 < toks.len()
    &&& toks[c + 1].kind == TokKind::Sym(Sym::Arrow) ==> plain_type(toks, c + 2)
    &&& toks[b - 1].kind == TokKind::Sym(Sym::Colon)
    &&& body_ok(toks, b)
}

/// An attribute line `@name` followed by a function of the `simple_fn` form.
pub open spec fn simple_attr_fn(toks: Seq<Token>, q: int) -> bool {
    &&& 0 <= q
    &&& q + 2 < toks.len()
    &&& toks[q].kind == TokKind::Sym(Sym::At)
    &&& toks[q + 1].kind is Ident
    &&& toks[q + 2].kind != TokKind::Sym(Sym::LParen)
    &&& simple_fn(toks, skip_newlines(toks, q + 2))
}

/// From `p` on, the tokens are functions of the `simple_fn` form, each perhaps
/// after one `@name` attribute line and followed by its newlines, up to `Eof`.
pub open spec fn simple_fns(toks: Seq<Token>, p: int) -> bool
    decreases toks.len() - p,
{
    if 0 <= p < toks.len() && toks[p].kind is Eof {
        true
    } else if simple_fn(toks, p) {
        let n = skip_newlines(toks, body_end(toks, fn_body_pos(toks, p)));
        p < n < toks.len() && simple_fns(toks, n)
    } else if simple_attr_fn(toks, p) {
        let r = skip_newlines(toks, p + 2);
        let n = skip_newlines(toks, body_end(toks, fn_body_pos(toks, r)));
        p < n < toks.len() && simple_fns(toks, n)
    } else {
        false
    }
}

/// Skipping newlines stops on a token that is no newline.
proof fn lemma_skip_stops(toks: Seq<Token>, x: int)
    requires
        parser_input(toks),
        0 <= x < toks.len(),
    ensures
        x <= skip_newlines(toks, x) < toks.len(),
        !(toks[skip_newlines(toks, x)].kind is Newline),
    decreases toks.len() - x,
{
    if x < toks.len() - 1 && toks[x].kind is Newline {
        lemma_skip_stops(toks, x + 1);
    }
}

/// The binding level of a binary operator token (see `prec`), 0 for any other
/// token.
pub open spec fn binop_level(k: TokKind) -> int {
    match k {
        TokKind::Kw(Kw::Or) => 1,
        TokKind::Kw(Kw::And) => 2,
        TokKind::Sym(Sym::EqEq) | TokKind::Sym(Sym::Ne) | TokKind::Sym(Sym::Lt) | TokKind::Sym(
            Sym::Le,
        ) | TokKind::Sym(Sym::Gt) | TokKind::Sym(Sym::Ge) => 4,
        TokKind::Sym(Sym::Pipe) => 5,
        TokKind::Sym(Sym::Caret) => 6,
        TokKind::Sym(Sym::Amp) => 7,
        TokKind::Sym(Sym::Shl) | TokKind::Sym(Sym::Shr) => 8,
        TokKind::Sym(Sym::Plus) | TokKind::Sym(Sym::Minus) => 9,
        TokKind::Sym(Sym::Star) | TokKind::Sym(Sym::Slash) | TokKind::Sym(Sym::SlashSlash)
        | TokKind::Sym(Sym::Percent) => 10,
        TokKind::Sym(Sym::StarStar) => 12,
        _ => 0,
    }
}

/// From `p` on, atoms alternate with binary operator tokens up to the end of
/// the line: `atom (op atom)*`.
pub open spec fn chain_from(toks: Seq<Token>, p: int) -> bool
    decreases toks.len() - p,
{
    0 <= p && p + 1 < toks.len() && atom_tok(toks[p].kind) && (line_stop(toks[p + 1].kind) || (
    binop_level(toks[p + 1].kind) > 0 && chain_from(toks, p + 2)))
}

/// `q` is the position after one of the atoms of the chain from `p`.
pub open spec fn chain_pt(toks: Seq<Token>, p: int, q: int) -> bool
    decreases toks.len() - p,
{
    q == p + 1 || (0 <= p && p + 1 < toks.len() && binop_level(toks[p + 1].kind) > 0
        && chain_pt(toks, p + 2, q))
}

/// Where the chain from `p` ends: the line end after its last atom.
pub open spec fn chain_end(toks: Seq<Token>, p: int) -> int
    decreases toks.len() - p,
{
    if 0 <= p && p + 1 < toks.len() && !line_stop(toks[p + 1].kind) {
        chain_end(toks, p + 2)
    } else {
        p + 1
    }
}

/// After an atom of a chain comes the line end or an operator and the rest of
/// the chain.
proof fn lemma_chain_tail(toks: Seq<Token>, p: int, q: int)
    requires
        chain_from(toks, p),
        chain_pt(toks, p, q),
    ensures
        q < toks.len(),
        line_stop(toks[q].kind) || (binop_level(toks[q].kind) > 0 && chain_from(toks, q + 1)),
        line_stop(toks[q].kind) ==> q == chain_end(toks, p),
    decreases toks.len() - p,
{
    if q != p + 1 {
        assert(!line_stop(toks[p + 1].kind));
        lemma_chain_tail(toks, p + 2, q);
    }
}

/// A chain ends inside the tokens.
proof fn lemma_chain_end_bound(toks: Seq<Token>, p: int)
    requires
        chain_from(toks, p),
    ensures
        p < chain_end(toks, p) < toks.len(),
        line_stop(toks[chain_end(toks, p)].kind),
    decreases toks.len() - p,
{
    if !line_stop(toks[p + 1].kind) {
        lemma_chain_end_bound(toks, p + 2);
    }
}

/// Chain positions compose over an operator.
proof fn lemma_chain_trans(toks: Seq<Token>, p: int, q: int, r: int)
    requires
        chain_pt(toks, p, q),
        0 <= p,
        q < toks.len(),
        binop_level(toks[q].kind) > 0,
        chain_pt(toks, q + 1, r),
    ensures
        chain_pt(toks, p, r),
    decreases toks.len() - p,
{
    if q != p + 1 {
        lemma_chain_trans(toks, p + 2, q, r);
    }
}

/// The token that spells a binary operator.
pub open spec fn op_token(op: BinOp) -> TokKind {
    match op {
        BinOp::Or => TokKind::Kw(Kw::Or),
        BinOp::And => TokKind::Kw(Kw::And),
        BinOp::Eq => TokKind::Sym(Sym::EqEq),
        BinOp::Ne => TokKind::Sym(Sym::Ne),
        BinOp::Lt => TokKind::Sym(Sym::Lt),
        BinOp::Le => TokKind::Sym(Sym::Le),
        BinOp::Gt => TokKind::Sym(Sym::Gt),
        BinOp::Ge => TokKind::Sym(Sym::Ge),
        BinOp::BitOr => TokKind::Sym(Sym::Pipe),
        BinOp::BitXor => TokKind::Sym(Sym::Caret),
        BinOp::BitAnd => TokKind::Sym(Sym::Amp),
        BinOp::Shl => TokKind::Sym(Sym::Shl),
        BinOp::Shr => TokKind::Sym(Sym::Shr),
        BinOp::Add => TokKind::Sym(Sym::Plus),
        BinOp::Sub => TokKind::Sym(Sym::Minus),
        BinOp::Mul => TokKind::Sym(Sym::Star),
        BinOp::Div => TokKind::Sym(Sym::Slash),
        BinOp::FloorDiv => TokKind::Sym(Sym::SlashSlash),
        BinOp::Rem => TokKind::Sym(Sym::Percent),
        BinOp::Pow => TokKind::Sym(Sym::StarStar),
    }
}

/// The token that spells a prefix operator.
pub open spec fn un_token(op: UnOp) -> TokKind {
    match op {
        UnOp::Neg => TokKind::Sym(Sym::Minus),
        UnOp::Not => TokKind::Kw(Kw::Not),
        UnOp::BitNot => TokKind::Sym(Sym::Tilde),
    }
}

/// The operators of `e` stand in the tokens `lo..hi` where the tree places them:
/// a binary node's operator token splits the range between its two operands, a
/// prefix operator is the range's first token, a range `a..b` (or `a..=b`) is
/// split at its `..` (or `..=`), and a variable or a literal is the token that
/// starts its range (an integer `0` also stands in for a missing expression).
/// Other nodes are not looked into.
pub open spec fn ops_placed(e: Expr, toks: Seq<Token>, lo: int, hi: int) -> bool
    decreases e,
{
    match e.kind {
        ExprKind::Bin(op, l, r) => exists|m: int|
            lo <= m < hi && #[trigger] toks[m].kind == op_token(op) && ops_placed(*l, toks, lo, m)
                && ops_placed(*r, toks, m + 1, hi),
        ExprKind::Un(op, a) => lo < hi && toks[lo].kind == un_token(op) && ops_placed(
            *a,
            toks,
            lo + 1,
            hi,
        ),
        ExprKind::Range { lo: a, hi: b, inclusive } => exists|m: int|
            lo <= m < hi && #[trigger] toks[m].kind == TokKind::Sym(
                if inclusive {
                    Sym::DotDotEq
                } else {
                    Sym::DotDot
                },
            ) && ops_placed(*a, toks, lo, m) && ops_placed(*b, toks, m + 1, hi),
        ExprKind::Var(n) => toks[lo].kind matches TokKind::Ident(name) && name@ == n@,
        ExprKind::Lit(Lit::Bv(d)) => toks[lo].kind matches TokKind::Int(text, _) && binary_text(
            text@,
        ) && d@ == text@.skip(2),
        ExprKind::Lit(Lit::Int(n, s)) => (toks[lo].kind matches TokKind::Int(text, suf) && text@
            == n@ && suf == s) || (n@ == "0"@ && s is None),
        ExprKind::Lit(Lit::Float(f)) => toks[lo].kind matches TokKind::Float(text) && text@ == f@,
        ExprKind::Lit(Lit::Str(s)) => toks[lo].kind matches TokKind::Str(text) && text@ == s@,
        ExprKind::Lit(Lit::Char(c)) => toks[lo].kind == TokKind::Char(c),
        ExprKind::Lit(Lit::Bool(b)) => toks[lo].kind == TokKind::Kw(
            if b {
                Kw::True
            } else {
                Kw::False
            },
        ),
        _ => true,
    }
}

/// A binary node whose operator token stands at `m`, between its operands.
proof fn lemma_placed_bin(e: Expr, toks: Seq<Token>, lo: int, m: int, hi: int)
    requires
        e.kind matches ExprKind::Bin(op, l, r) && lo <= m < hi && toks[m].kind == op_token(op)
            && ops_placed(*l, toks, lo, m) && ops_placed(*r, toks, m + 1, hi),
    ensures
        ops_placed(e, toks, lo, hi),
{
}

/// Reading an expression at a looser level accepts everything a tighter level does.
proof fn lemma_shaped_looser(e: Expr, hi: int, lo: int)
    requires
        shaped(e, hi),
        lo <= hi,
    ensures
        shaped(e, lo),
{
}

/// Whether a token may begin the top level of a program (after blank lines): a
/// module header, an import, an attribute, an item keyword, or the end.
pub open spec fn starts_top_level(k: TokKind) -> bool {
    match k {
        TokKind::Kw(Kw::Module) | TokKind::Kw(Kw::Import) | TokKind::Kw(Kw::Total) | TokKind::Kw(
            Kw::Fn,
        ) | TokKind::Kw(Kw::Data) | TokKind::Kw(Kw::Codata) | TokKind::Kw(Kw::Type) | TokKind::Kw(
            Kw::Const,
        ) | TokKind::Sym(Sym::At) | TokKind::Eof => true,
        _ => false,
    }
}

/// Whether a token starts an expression for `parse_primary`.
pub open spec fn starts_primary(k: TokKind) -> bool {
    match k {
        TokKind::Kw(Kw::Sum) | TokKind::Kw(Kw::Prod) | TokKind::Kw(Kw::Count) | TokKind::Kw(
            Kw::Fold,
        ) | TokKind::Kw(Kw::Match) | TokKind::Kw(Kw::Own) | TokKind::Kw(Kw::Move) | TokKind::Kw(
            Kw::True,
        ) | TokKind::Kw(Kw::False) | TokKind::Sym(Sym::Amp) | TokKind::Sym(Sym::LParen) => true,
        TokKind::Int(..) | TokKind::Float(_) | TokKind::Str(_) | TokKind::Char(_) | TokKind::Ident(
            _,
        ) => true,
        _ => false,
    }
}

/// A generic parameter as plain values: name, kind, span.
pub open spec fn generic_view(g: GenericParam) -> (Seq<char>, Kind, Span) {
    (g.name@, g.kind, g.span)
}

impl Parser {
    /// The tokens being parsed.
    pub closed spec fn tokens(self) -> Seq<Token> {
        self.toks@
    }

    /// The diagnostics collected so far.
    pub closed spec fn diagnostics(self) -> Seq<Diagnostic> {
        self.diags@
    }

    /// The parser's state is consistent: its input ends with `Eof` and the cursor
    /// is on a token.
    pub closed spec fn wf(self) -> bool {
        &&& parser_input(self.toks@)
        &&& self.pos < self.toks@.len()
    }

    /// The kind of the token under the cursor.
    pub closed spec fn cur_kind(self) -> TokKind {
        self.toks@[self.pos as int].kind
    }

    /// The position of the cursor.
    pub closed spec fn cursor(self) -> int {
        self.pos as int
    }

    /// The span of the token under the cursor.
    pub closed spec fn cur_span(self) -> Span {
        self.toks@[self.pos as int].span
    }

    /// Tokens left from the cursor on (a termination measure).
    pub closed spec fn remaining(self) -> int {
        self.toks@.len() - self.pos
    }

    /// `b` is a later state of `a`: same tokens, the cursor has not moved back,
    /// and diagnostics were only added.
    pub closed spec fn step(a: Parser, b: Parser) -> bool {
        &&& b.wf()
        &&& b.toks@ == a.toks@
        &&& b.pos >= a.pos
        &&& a.diags@.is_prefix_of(b.diags@)
    }

    /// `b` is a later state of `a` and, unless `a` was at `Eof`, consumed a token.
    pub closed spec fn step_consuming(a: Parser, b: Parser) -> bool {
        &&& Parser::step(a, b)
        &&& !(a.cur_kind() is Eof) ==> b.pos > a.pos
    }

    /// `_file` is accepted for symmetry with the lexer; spans already carry the
    /// file index from the tokens.
    pub fn new(toks: Vec<Token>, _file: u32) -> (p: Parser)
        requires
            parser_input(toks@),
        ensures
            p.wf(),
            p.tokens() == toks@,
            p.cur_span() == toks@[0].span,
            p.cursor() == 0,
            p.diagnostics().len() == 0,
    {
        Parser { toks, pos: 0, diags: Vec::new() }
    }

    // ---- token helpers ----

    fn kind(&self) -> (k: &TokKind)
        requires
            self.wf(),
        ensures
            *k == self.cur_kind(),
    {
        &self.toks[self.pos].kind
    }

    fn span(&self) -> (s: Span)
        requires
            self.wf(),
        ensures
            s == self.toks@[self.pos as int].span,
    {
        self.toks[self.pos].span
    }

    fn at_eof(&self) -> (b: bool)
        requires
            self.wf(),
        ensures
            b == (self.cur_kind() is Eof),
    {
        match self.kind() {
            TokKind::Eof => true,
            _ => false,
        }
    }

    fn is_newline(&self) -> (b: bool)
        requires
            self.wf(),
        ensures
            b == (self.cur_kind() is Newline),
    {
        match self.kind() {
            TokKind::Newline => true,
            _ => false,
        }
    }

    fn is_dedent_or_eof(&self) -> (b: bool)
        requires
            self.wf(),
        ensures
            b == (self.cur_kind() is Dedent || self.cur_kind() is Eof),
    {
        match self.kind() {
            TokKind::Dedent | TokKind::Eof => true,
            _ => false,
        }
    }

    /// Moves to the next token; the final `Eof` is never passed.
    fn advance(&mut self)
        requires
            old(self).wf(),
        ensures
            Parser::step(*old(self), *final(self)),
            final(self).diags@ == old(self).diags@,
            final(self).pos == (if old(self).pos < old(self).toks@.len() - 1 {
                old(self).pos + 1
            } else {
                old(self).pos as int
            }),
            !(old(self).cur_kind() is Eof) ==> final(self).pos == old(self).pos + 1,
    {
        if self.pos < self.toks.len() - 1 {
            self.pos = self.pos + 1;
        }
    }

    fn is_sym(&self, s: Sym) -> (b: bool)
        requires
            self.wf(),
        ensures
            b == (self.cur_kind() == TokKind::Sym(s)),
    {
        match self.kind() {
            TokKind::Sym(x) => *x == s,
            _ => false,
        }
    }

    fn is_kw(&self, k: Kw) -> (b: bool)
        requires
            self.wf(),
        ensures
            b == (self.cur_kind() == TokKind::Kw(k)),
    {
        match self.kind() {
            TokKind::Kw(x) => *x == k,
            _ => false,
        }
    }

    fn eat_sym(&mut self, s: Sym) -> (b: bool)
        requires
            old(self).wf(),
        ensures
            Parser::step(*old(self), *final(self)),
            final(self).diags@ == old(self).diags@,
            b == (old(self).cur_kind() == TokKind::Sym(s)),
            b ==> final(self).pos == old(self).pos + 1,
            !b ==> final(self).pos == old(self).pos,
    {
        if self.is_sym(s) {
            self.advance();
            true
        } else {
            false
        }
    }

    fn eat_kw(&mut self, k: Kw) -> (b: bool)
        requires
            old(self).wf(),
        ensures
            Parser::step(*old(self), *final(self)),
            final(self).diags@ == old(self).diags@,
            b == (old(self).cur_kind() == TokKind::Kw(k)),
            b ==> final(self).pos == old(self).pos + 1,
            !b ==> final(self).pos == old(self).pos,
    {
        if self.is_kw(k) {
            self.advance();
            true
        } else {
            false
        }
    }

    fn eat_newline(&mut self)
        requires
            old(self).wf(),
        ensures
            Parser::step(*old(self), *final(self)),
            final(self).diags@ == old(self).diags@,
            final(self).pos == skip_newlines(old(self).toks@, old(self).pos as int),
            !(final(self).cur_kind() is Newline),
            old(self).cur_kind() is Newline ==> final(self).pos > old(self).pos,
    {
        while self.is_newline()
            invariant
                Parser::step(*old(self), *self),
                self.diags@ == old(self).diags@,
                skip_newlines(self.toks@, self.pos as int) == skip_newlines(
                    old(self).toks@,
                    old(self).pos as int,
                ),
                old(self).cur_kind() is Newline ==> (self.pos > old(self).pos || self.pos
                    == old(self).pos),
            decreases self.toks@.len() - self.pos,
        {
            self.advance();
        }
    }

    /// Records a parse error at the cursor.
    fn error(&mut self, msg: String)
        requires
            old(self).wf(),
        ensures
            Parser::step(*old(self), *final(self)),
            final(self).pos == old(self).pos,
            has_error(final(self).diags@),
            final(self).diags@.len() == old(self).diags@.len() + 1,
            parse_error(
                final(self).diags@.last(),
                old(self).toks@[old(self).pos as int].span,
                msg@,
            ),
    {
        let d = Diagnostic::error(DiagCode::Parse, self.span(), msg);
        self.diags.push(d);
        proof {
            assert(self.diags@[self.diags@.len() - 1].severity == crate::span::Severity::Error);
        }
    }

    fn expect_sym(&mut self, s: Sym, ctx: &str)
        requires
            old(self).wf(),
        ensures
            Parser::step(*old(self), *final(self)),
            old(self).cur_kind() == TokKind::Sym(s) ==> final(self).pos == old(self).pos + 1
                && final(self).diags@ == old(self).diags@,
            old(self).cur_kind() != TokKind::Sym(s) ==> final(self).pos == old(self).pos
                && has_error(final(self).diags@),
    {
        if !self.eat_sym(s) {
            let mut m = cat("expected ", sym_name(s));
            push_str(&mut m, " ");
            push_str(&mut m, ctx);
            push_str(&mut m, ", found ");
            push_str(&mut m, tok_kind_debug(self.kind()).as_str());
            self.error(m);
        }
    }

    fn expect_kw(&mut self, k: Kw, ctx: &str)
        requires
            old(self).wf(),
        ensures
            Parser::step(*old(self), *final(self)),
            old(self).cur_kind() == TokKind::Kw(k) ==> final(self).pos == old(self).pos + 1
                && final(self).diags@ == old(self).diags@,
            old(self).cur_kind() != TokKind::Kw(k) ==> final(self).pos == old(self).pos
                && has_error(final(self).diags@),
    {
        if !self.eat_kw(k) {
            let mut m = cat("expected '", kw_name(k));
            push_str(&mut m, "' ");
            push_str(&mut m, ctx);
            self.error(m);
        }
    }

    fn expect_ident(&mut self, ctx: &str) -> (name: Ident)
        requires
            old(self).wf(),
        ensures
            Parser::step(*old(self), *final(self)),
            old(self).cur_kind() is Ident ==> final(self).pos == old(self).pos + 1
                && name@ == old(self).cur_kind()->Ident_0@ && final(self).diags@ == old(
                self,
            ).diags@,
            !(old(self).cur_kind() is Ident) ==> final(self).pos == old(self).pos
                && has_error(final(self).diags@) && name@ == "<error>"@,
    {
        match self.kind() {
            TokKind::Ident(name) => {
                let name = name.clone();
                self.advance();
                name
            },
            _ => {
                let mut m = cat("expected identifier ", ctx);
                push_str(&mut m, ", found ");
                push_str(&mut m, tok_kind_debug(self.kind()).as_str());
                self.error(m);
                str_to_string("<error>")
            },
        }
    }

    /// Recovers to the next `Newline` / `Dedent` / `Eof`.
    fn recover_line(&mut self)
        requires
            old(self).wf(),
        ensures
            Parser::step(*old(self), *final(self)),
            final(self).diags@ == old(self).diags@,
            final(self).pos == skip_newlines(
                old(self).toks@,
                line_end(old(self).toks@, old(self).pos as int),
            ),
    {
        while !(self.is_newline() || self.is_dedent_or_eof())
            invariant
                Parser::step(*old(self), *self),
                self.diags@ == old(self).diags@,
                line_end(self.toks@, self.pos as int) == line_end(
                    old(self).toks@,
                    old(self).pos as int,
                ),
            decreases self.toks@.len() - self.pos,
        {
            self.advance();
        }
        self.eat_newline();
    }

    // ---- program ----

    /// Parses a whole program. Succeeds exactly when no error was recorded, and
    /// then every diagnostic collected before was free of errors too; on failure
    /// all diagnostics are returned, earlier ones first. The items come in order,
    /// each with the kind, mode and name that its first tokens announce; the
    /// module is the dotted name after a leading `module`. A stray token where an
    /// item should start is reported with a parse error; a lone well-formed
    /// `module` line parses, and so do functions of the `simple_fns` form.
    pub fn parse_program(self) -> (r: Result<Program, Vec<Diagnostic>>)
        requires
            self.wf(),
        ensures
            r is Ok ==> !has_error(self.diagnostics()),
            r matches Ok(prog) ==> prog.span.file == self.cur_span().file,
            r matches Err(ds) ==> has_error(ds@) && self.diagnostics().is_prefix_of(ds@),
            !starts_top_level(self.tokens()[skip_newlines(self.tokens(), self.cursor())].kind)
                ==> (r matches Err(ds) && has_parse_error(ds@)),
            r matches Ok(prog) ==> exists|hs: Seq<int>| #[trigger] items_at(self.tokens(), hs, prog.items@),
            ({
                let toks = self.tokens();
                let s0 = skip_newlines(toks, self.cursor());
                &&& r matches Ok(prog) ==> (prog.module is Some <==> toks[s0].kind == TokKind::Kw(
                    Kw::Module,
                ))
                &&& r matches Ok(prog) ==> (prog.module matches Some(m) ==> m.parts@.map_values(
                    |s: String| s@,
                ) == dotted_names(toks, s0 + 1))
                &&& (!has_error(self.diagnostics()) && simple_fns(toks, s0)) ==> r is Ok
                &&& (!has_error(self.diagnostics()) && toks[s0].kind == TokKind::Kw(Kw::Module)
                    && dotted_ok(toks, s0 + 1) && toks[skip_newlines(
                    toks,
                    dotted_end(toks, s0 + 1),
                )].kind is Eof) ==> (r matches Ok(prog) && prog.module is Some
                    && prog.imports@.len() == 0 && prog.items@.len() == 0)
            }),
            self.tokens().len() == 1 && self.diagnostics().len() == 0 ==> (r matches Ok(prog)
                && prog.module is None && prog.imports@.len() == 0 && prog.items@.len() == 0),
    {
        let mut p = self;
        let start = p.span();
        p.eat_newline();
        let ghost s0 = p.pos;
        let ghost stray = !starts_top_level(p.toks@[s0 as int].kind);
        let ghost single = self.toks@.len() == 1 && self.diags@.len() == 0;
        let ghost header = !has_error(self.diags@) && p.toks@[s0 as int].kind == TokKind::Kw(
            Kw::Module,
        ) && dotted_ok(p.toks@, s0 + 1) && p.toks@[skip_newlines(
            p.toks@,
            dotted_end(p.toks@, s0 + 1),
        )].kind is Eof;
        let ghost sp = !has_error(self.diags@) && simple_fns(p.toks@, s0 as int);
        let module = if p.is_kw(Kw::Module) {
            p.advance();
            let dn = p.parse_dotted_name();
            p.eat_newline();
            Some(dn)
        } else {
            None
        };
        let ghost mod_ok = (module is Some <==> self.toks@[s0 as int].kind == TokKind::Kw(Kw::Module))
            && (module is Some ==> module->Some_0.parts@.map_values(|s: String| s@) == dotted_names(
            self.toks@,
            s0 + 1,
        ));
        proof {
            if header {
                assert(p.diags@ == self.diags@);
                assert(p.cur_kind() is Eof);
            }
            assert(mod_ok);
        }
        let mut imports: Vec<Import> = Vec::new();
        while p.is_kw(Kw::Import)
            invariant
                Parser::step(self, p),
                header ==> p.diags@ == self.diags@ && p.cur_kind() is Eof && imports@.len() == 0,
                sp == (!has_error(self.diags@) && simple_fns(self.toks@, s0 as int)),
                sp ==> p.diags@ == self.diags@ && p.pos == s0,
                stray ==> p.pos == s0,
                stray == !starts_top_level(p.toks@[s0 as int].kind),
                single == (self.toks@.len() == 1 && self.diags@.len() == 0),
                single ==> p.pos == 0 && p.diags@.len() == 0 && imports@.len() == 0 && module is None,
            decreases p.toks@.len() - p.pos,
        {
            imports.push(p.parse_import());
            p.eat_newline();
        }
        let mut items: Vec<Item> = Vec::new();
        let ghost mut hs: Seq<int> = Seq::empty();
        proof {
            if sp {
                lemma_skip_stops(p.toks@, p.pos as int);
            }
        }
        while !p.at_eof()
            invariant
                header ==> p.diags@ == self.diags@ && items@.len() == 0 && p.cur_kind() is Eof,
                sp == (!has_error(self.diags@) && simple_fns(self.toks@, s0 as int)),
                sp ==> p.diags@ == self.diags@ && simple_fns(
                    p.toks@,
                    skip_newlines(p.toks@, p.pos as int),
                ),
                has_error(p.diags@) || (items_at(p.toks@, hs, items@) && forall|i: int|
                    0 <= i < hs.len() ==> #[trigger] hs[i] < p.pos),
                Parser::step(self, p),
                stray ==> p.pos == s0 || has_parse_error(p.diags@),
                stray == !starts_top_level(p.toks@[s0 as int].kind),
                s0 < p.toks@.len(),
                !(p.toks@[s0 as int].kind is Newline),
                single == (self.toks@.len() == 1 && self.diags@.len() == 0),
                single ==> p.pos == 0 && p.diags@.len() == 0 && items@.len() == 0,
            ensures
                header ==> p.diags@ == self.diags@ && items@.len() == 0,
                sp ==> p.diags@ == self.diags@,
                has_error(p.diags@) || (items_at(p.toks@, hs, items@) && forall|i: int|
                    0 <= i < hs.len() ==> #[trigger] hs[i] < p.pos),
                Parser::step(self, p),
                stray ==> p.pos == s0 || has_parse_error(p.diags@),
                stray == !starts_top_level(p.toks@[s0 as int].kind),
                p.cur_kind() is Eof,
                single ==> p.diags@.len() == 0 && items@.len() == 0,
            decreases p.toks@.len() - p.pos,
        {
            let p_iter = p.pos;
            let ghost before = p.diags@;
            p.eat_newline();
            if p.at_eof() {
                break;
            }
            let ghost q = p.pos as int;
            let ghost d1 = p.diags@;
            let ghost items0 = items@;
            let ghost hs0 = hs;
            match p.parse_item() {
                Some(it) => {
                    items.push(it);
                    proof {
                        if sp {
                            assert(simple_fns(p.toks@, q));
                        }
                        hs = hs.push(q);
                        if !has_error(p.diags@) {
                            if has_error(before) {
                                lemma_error_kept(before, p.diags@);
                            }
                            if has_error(d1) {
                                lemma_error_kept(d1, p.diags@);
                            }
                            assert(items@ == items0.push(it));
                            assert forall|i: int| 0 <= i < hs.len() implies 0 <= #[trigger] hs[i]
                                < p.toks@.len() && item_head(p.toks@, hs[i], items@[i]) by {
                                if i < hs0.len() {
                                    assert(hs[i] == hs0[i]);
                                    assert(items@[i] == items0[i]);
                                }
                            }
                            assert forall|i: int| 0 <= i < hs.len() implies #[trigger] hs[i]
                                < p.pos by {
                                if i < hs0.len() {
                                    assert(hs[i] == hs0[i]);
                                }
                            }
                        }
                    }
                },
                None => p.recover_line(),
            }
            proof {
                if stray {
                    if has_parse_error(before) {
                        lemma_parse_error_kept(before, p.diags@);
                    } else {
                        let d = p.diags@[p.diags@.len() - 1];
                        assert(d.severity == Severity::Error && d.code == DiagCode::Parse);
                    }
                }
            }
            if p.pos == p_iter {
                // Nothing was consumed: the token here (a stray `Dedent`) starts
                // no item and ends no line, and an error is already recorded.
                // Skip it so that the loop moves on.
                p.advance();
            }
        }
        proof {
            if stray && p.pos == s0 {
                assert(p.toks@[s0 as int].kind is Eof);
            }
            if stray {
                let i = choose|i: int|
                    0 <= i < p.diags@.len() && #[trigger] p.diags@[i].severity == Severity::Error
                        && p.diags@[i].code == DiagCode::Parse;
                assert(p.diags@[i].severity == Severity::Error);
            }
        }
        let program = Program { module, imports, items, span: start.merge(p.span()) };
        proof {
            if !has_error(p.diags@) {
                assert(p.toks@ == self.toks@);
                assert(items_at(self.tokens(), hs, program.items@));
            }
            if !has_error(p.diags@) {
                assert forall|i: int| 0 <= i < self.diags@.len() implies self.diags@[i].severity
                    != crate::span::Severity::Error by {
                    assert(self.diags@[i] == p.diags@[i]);
                }
            }
        }
        if any_error(&p.diags) {
            Err(p.diags)
        } else {
            Ok(program)
        }
    }

    fn parse_dotted_name(&mut self) -> (d: DottedName)
        requires
            old(self).wf(),
        ensures
            Parser::step(*old(self), *final(self)),
            d.parts@.map_values(|s: String| s@) == dotted_names(
                old(self).toks@,
                old(self).pos as int,
            ),
            final(self).pos == dotted_end(old(self).toks@, old(self).pos as int),
            d.span == merge_spec(
                old(self).toks@[old(self).pos as int].span,
                final(self).toks@[final(self).pos as int].span,
            ),
            dotted_ok(old(self).toks@, old(self).pos as int) ==> final(self).diags@ == old(
                self,
            ).diags@,
            !dotted_ok(old(self).toks@, old(self).pos as int) ==> has_error(final(self).diags@),
    {
        let start = self.span();
        let ghost toks = self.toks@;
        let ghost p0 = self.pos as int;
        let mut parts: Vec<Ident> = vec![self.expect_path_segment("in dotted name")];
        proof {
            assert(parts@.map_values(|s: String| s@) =~= seq![segment_name(toks, p0)]);
            if segment_text(toks[p0].kind) is None {
                assert(self.diags@[self.diags@.len() - 1].severity == Severity::Error);
            }
        }
        loop
            invariant
                Parser::step(*old(self), *self),
                toks == old(self).toks@,
                p0 == old(self).pos,
                parts@.map_values(|s: String| s@) + dotted_tail(toks, self.pos as int)
                    == dotted_names(toks, p0),
                dotted_stop(toks, self.pos as int) == dotted_end(toks, p0),
                dotted_ok(toks, p0) ==> self.diags@ == old(self).diags@ && dotted_tail_ok(
                    toks,
                    self.pos as int,
                ),
                !dotted_ok(toks, p0) ==> has_error(self.diags@) || !dotted_tail_ok(
                    toks,
                    self.pos as int,
                ),
            ensures
                Parser::step(*old(self), *self),
                parts@.map_values(|s: String| s@) == dotted_names(toks, p0),
                self.pos == dotted_end(toks, p0),
                dotted_ok(toks, p0) ==> self.diags@ == old(self).diags@,
                !dotted_ok(toks, p0) ==> has_error(self.diags@),
            decreases self.toks@.len() - self.pos,
        {
            let ghost q = self.pos as int;
            let ghost before = self.diags@;
            if !self.eat_sym(Sym::Dot) {
                proof {
                    assert(!dot_at(toks, q));
                    assert(dotted_tail(toks, q) =~= seq![]);
                    assert(parts@.map_values(|s: String| s@) =~= parts@.map_values(
                        |s: String| s@,
                    ) + dotted_tail(toks, q));
                }
                break;
            }
            let seg = self.expect_path_segment("after '.'");
            let ghost old_parts = parts@;
            parts.push(seg);
            proof {
                assert(dot_at(toks, q));
                assert(parts@.map_values(|s: String| s@) =~= old_parts.map_values(
                    |s: String| s@,
                ).push(segment_name(toks, q + 1)));
                assert(dotted_tail(toks, q) == seq![segment_name(toks, q + 1)] + dotted_tail(
                    toks,
                    segment_end(toks, q + 1),
                ));
                assert(old_parts.map_values(|s: String| s@) + dotted_tail(toks, q) =~= parts@.map_values(
                    |s: String| s@,
                ) + dotted_tail(toks, self.pos as int));
                if has_error(before) {
                    let i = choose|i: int| 0 <= i < before.len() && #[trigger] before[i].severity
                        == Severity::Error;
                    assert(self.diags@[i] == before[i]);
                }
                if segment_text(toks[q + 1].kind) is None {
                    assert(self.diags@[self.diags@.len() - 1].severity == Severity::Error);
                }
            }
        }
        DottedName { parts, span: start.merge(self.span()) }
    }

    /// A path segment may be an identifier or a contextual keyword (e.g. the
    /// stdlib module `core.fold`).
    fn expect_path_segment(&mut self, ctx: &str) -> (name: Ident)
        requires
            old(self).wf(),
        ensures
            Parser::step(*old(self), *final(self)),
            segment_text(old(self).cur_kind()) matches Some(t) ==> {
                &&& name@ == t
                &&& final(self).pos == old(self).pos + 1
                &&& final(self).diags@ == old(self).diags@
            },
            segment_text(old(self).cur_kind()) is None ==> {
                &&& name@ == "<error>"@
                &&& final(self).pos == old(self).pos
                &&& final(self).diags@.len() == old(self).diags@.len() + 1
                &&& final(self).diags@.drop_last() == old(self).diags@
                &&& parse_error(
                    final(self).diags@.last(),
                    old(self).toks@[old(self).pos as int].span,
                    "expected a name "@ + ctx@ + ", found "@ + tok_debug_text(
                        old(self).cur_kind(),
                    ),
                )
            },
    {
        match self.kind() {
            TokKind::Ident(name) => {
                let name = name.clone();
                self.advance();
                name
            },
            TokKind::Kw(k) => {
                let k = *k;
                self.advance();
                str_to_string(keyword_str(k))
            },
            _ => {
                let mut m = cat("expected a name ", ctx);
                push_str(&mut m, ", found ");
                push_str(&mut m, tok_kind_debug(self.kind()).as_str());
                self.error(m);
                str_to_string("<error>")
            },
        }
    }

    /// `import a.b (x, y)`; the cursor is on `import`.
    fn parse_import(&mut self) -> (imp: Import)
        requires
            old(self).wf(),
            !(old(self).cur_kind() is Eof),
        ensures
            Parser::step(*old(self), *final(self)),
            final(self).pos > old(self).pos,
    {
        let start = self.span();
        self.advance(); // import
        let path = self.parse_dotted_name();
        let mut names: Vec<Ident> = Vec::new();
        if self.eat_sym(Sym::LParen) {
            while !self.is_sym(Sym::RParen) && !self.at_eof()
                invariant
                    Parser::step(*old(self), *self),
                    self.pos > old(self).pos,
                decreases self.toks@.len() - self.pos,
            {
                names.push(self.expect_ident("in import list"));
                if !self.eat_sym(Sym::Comma) {
                    break;
                }
            }
            self.expect_sym(Sym::RParen, "to close import list");
        }
        Import { path, names, span: start.merge(self.span()) }
    }

    // ---- items ----

    /// A top-level item, after any attributes; `None` (with an error) when the
    /// cursor starts no item.
    fn parse_item(&mut self) -> (it: Option<Item>)
        requires
            old(self).wf(),
        ensures
            Parser::step(*old(self), *final(self)),
            it is None ==> has_error(final(self).diags@),
            it matches Some(x) ==> (!has_error(final(self).diags@) ==> item_head(
                old(self).toks@,
                old(self).pos as int,
                x,
            )),
            it is Some ==> final(self).pos > old(self).pos,
            simple_fn(old(self).toks@, old(self).pos as int) ==> ({
                let toks = old(self).toks@;
                let b = fn_body_pos(toks, old(self).pos as int);
                &&& final(self).pos == body_end(toks, b)
                &&& final(self).diags@ == old(self).diags@
                &&& it matches Some(Item::Fn(f)) && f.params@.len() == params_close(
                    toks,
                    fn_kw_pos(toks, old(self).pos as int) + 3,
                ).1 && f.body.stmts@.len() == 1
                    && (f.body.stmts@[0].kind matches StmtKind::Expr(e) && ops_placed(
                    e,
                    toks,
                    body_expr_at(toks, b),
                    chain_end(toks, body_expr_at(toks, b)),
                ))
            }),
            simple_attr_fn(old(self).toks@, old(self).pos as int) ==> ({
                let toks = old(self).toks@;
                let r = skip_newlines(toks, old(self).pos + 2);
                &&& final(self).pos == body_end(toks, fn_body_pos(toks, r))
                &&& final(self).diags@ == old(self).diags@
                &&& it matches Some(Item::Fn(f)) && f.attrs@.len() == 1
            }),
            old(self).cur_kind() == TokKind::Sym(Sym::At) ==> {
                &&& it matches Some(Item::Fn(f)) ==> f.attrs@.len() >= 1
                &&& !(it matches Some(Item::Fn(_))) ==> has_error(final(self).diags@)
            },
            old(self).cur_kind() != TokKind::Sym(Sym::At) ==> ({
                let toks = old(self).toks@;
                let p = old(self).pos as int;
                let k = old(self).cur_kind();
                if k == TokKind::Kw(Kw::Total) || k == TokKind::Kw(Kw::Fn) {
                    it matches Some(Item::Fn(f)) && f.attrs@.len() == 0 && f.mode == fn_mode(toks, p)
                        && f.name@ == ident_name(toks, fn_name_pos(toks, p))
                } else if k == TokKind::Kw(Kw::Data) {
                    it matches Some(Item::Data(d)) && d.name@ == decl_name(toks, p)
                } else if k == TokKind::Kw(Kw::Codata) {
                    it matches Some(Item::Codata(d)) && d.name@ == decl_name(toks, p)
                } else if k == TokKind::Kw(Kw::Type) {
                    it matches Some(Item::TypeAlias(t)) && t.name@ == decl_name(toks, p)
                } else if k == TokKind::Kw(Kw::Const) {
                    it matches Some(Item::Const(c)) && c.name@ == decl_name(toks, p)
                } else {
                    &&& it is None
                    &&& final(self).pos == old(self).pos
                    &&& final(self).diags@.len() == old(self).diags@.len() + 1
                    &&& final(self).diags@.drop_last() == old(self).diags@
                    &&& parse_error(
                        final(self).diags@.last(),
                        toks[p].span,
                        "expected a top-level item, found "@ + tok_debug_text(k),
                    )
                }
            }),
    {
        // attributes (only meaningful for fn)
        let mut attrs: Vec<Attr> = Vec::new();
        while self.is_sym(Sym::At)
            invariant
                Parser::step(*old(self), *self),
                old(self).cur_kind() != TokKind::Sym(Sym::At) ==> self.pos == old(self).pos
                    && self.diags@ == old(self).diags@ && attrs@.len() == 0,
                old(self).cur_kind() == TokKind::Sym(Sym::At) ==> attrs@.len() >= 1 || self.pos
                    == old(self).pos,
                attrs@.len() >= 1 ==> attrs@[0].name@ == ident_name(
                    old(self).toks@,
                    old(self).pos + 1,
                ),
                attrs@.len() == 0 ==> self.pos == old(self).pos,
                simple_attr_fn(old(self).toks@, old(self).pos as int) ==> self.diags@ == old(
                    self,
                ).diags@ && ((attrs@.len() == 0 && self.pos == old(self).pos) || (attrs@.len() == 1
                    && self.pos == skip_newlines(old(self).toks@, old(self).pos + 2))),
            decreases self.toks@.len() - self.pos,
        {
            attrs.push(self.parse_attr());
            // an attribute stands on its own line above the function
            self.eat_newline();
        }
        if self.is_kw(Kw::Total) || self.is_kw(Kw::Fn) {
            return Some(Item::Fn(self.parse_fn(attrs)));
        }
        if attrs.len() > 0 {
            self.error(str_to_string("attributes can only precede a function"));
            proof {
                assert(self.diags@[self.diags@.len() - 1].severity == Severity::Error);
            }
        }
        let ghost mid = self.diags@;
        if self.is_kw(Kw::Data) {
            let d = self.parse_data();
            proof {
                if has_error(mid) {
                    lemma_error_kept(mid, self.diags@);
                }
            }
            Some(Item::Data(d))
        } else if self.is_kw(Kw::Codata) {
            let d = self.parse_codata();
            proof {
                if has_error(mid) {
                    lemma_error_kept(mid, self.diags@);
                }
            }
            Some(Item::Codata(d))
        } else if self.is_kw(Kw::Type) {
            let t = self.parse_type_alias();
            proof {
                if has_error(mid) {
                    lemma_error_kept(mid, self.diags@);
                }
            }
            Some(Item::TypeAlias(t))
        } else if self.is_kw(Kw::Const) {
            let c = self.parse_const();
            proof {
                if has_error(mid) {
                    lemma_error_kept(mid, self.diags@);
                }
            }
            Some(Item::Const(c))
        } else {
            let m = cat("expected a top-level item, found ", tok_kind_debug(self.kind()).as_str());
            self.error(m);
            None
        }
    }

    /// `@name` or `@name(flag, key = value, ..)`; the cursor is on `@`.
    fn parse_attr(&mut self) -> (a: Attr)
        requires
            old(self).wf(),
            !(old(self).cur_kind() is Eof),
        ensures
            Parser::step(*old(self), *final(self)),
            final(self).pos > old(self).pos,
            a.name@ == ident_name(old(self).toks@, old(self).pos + 1),
            old(self).pos + 2 < old(self).toks@.len() && old(self).toks@[old(self).pos + 1].kind is Ident
                && old(self).toks@[old(self).pos + 2].kind != TokKind::Sym(Sym::LParen)
                ==> final(self).pos == old(self).pos + 2 && final(self).diags@ == old(self).diags@,
    {
        let start = self.span();
        self.advance(); // @
        let name = self.expect_ident("in attribute");
        let mut args: Vec<AttrArg> = Vec::new();
        if self.eat_sym(Sym::LParen) {
            while !self.is_sym(Sym::RParen) && !self.at_eof()
                invariant
                    Parser::step(*old(self), *self),
                    self.pos > old(self).pos,
                decreases self.toks@.len() - self.pos,
            {
                let key = self.expect_ident("in attribute argument");
                if self.eat_sym(Sym::Eq) {
                    let val = self.expect_ident("after '=' in attribute");
                    args.push(AttrArg::KeyVal(key, val));
                } else {
                    args.push(AttrArg::Flag(key));
                }
                if !self.eat_sym(Sym::Comma) {
                    break;
                }
            }
            self.expect_sym(Sym::RParen, "to close attribute");
        }
        Attr { name, args, span: start.merge(self.span()) }
    }

    fn parse_fn(&mut self, attrs: Vec<Attr>) -> (f: FnDecl)
        requires
            old(self).wf(),
            old(self).cur_kind() == TokKind::Kw(Kw::Total) || old(self).cur_kind() == TokKind::Kw(
                Kw::Fn,
            ),
        ensures
            Parser::step(*old(self), *final(self)),
            final(self).pos > old(self).pos,
            f.attrs@ == attrs@,
            simple_fn(old(self).toks@, old(self).pos as int) ==> ({
                let toks = old(self).toks@;
                let b = fn_body_pos(toks, old(self).pos as int);
                &&& final(self).pos == body_end(toks, b)
                &&& final(self).diags@ == old(self).diags@
                &&& f.params@.len() == params_close(toks, fn_kw_pos(toks, old(self).pos as int) + 3).1
                &&& f.body.stmts@.len() == 1
                &&& f.body.stmts@[0].kind matches StmtKind::Expr(e) && ops_placed(
                    e,
                    toks,
                    body_expr_at(toks, b),
                    chain_end(toks, body_expr_at(toks, b)),
                )
            }),
            f.mode == fn_mode(old(self).toks@, old(self).pos as int),
            f.name@ == ident_name(old(self).toks@, fn_name_pos(old(self).toks@, old(self).pos as int)),
            f.generics@.map_values(|g: GenericParam| generic_view(g)) == generic_list(
                old(self).toks@,
                ident_end(old(self).toks@, fn_name_pos(old(self).toks@, old(self).pos as int)),
            ),
            f.span == merge_spec(
                old(self).toks@[old(self).pos as int].span,
                final(self).toks@[final(self).pos as int].span,
            ),
    {
        let start = self.span();
        let mode = if self.eat_kw(Kw::Total) {
            Mode::Total
        } else {
            Mode::General
        };
        self.expect_kw(Kw::Fn, "to begin a function");
        let name = self.expect_ident("after 'fn'");
        let generics = self.parse_generics();
        proof {
            assert(generics@.map_values(|g: GenericParam| generic_view(g)) =~= generic_list(
                old(self).toks@,
                ident_end(old(self).toks@, fn_name_pos(old(self).toks@, old(self).pos as int)),
            ));
        }
        self.expect_sym(Sym::LParen, "to begin parameter list");
        let mut params: Vec<Param> = Vec::new();
        let p0 = self.pos;
        while !self.is_sym(Sym::RParen) && !self.at_eof()
            invariant
                Parser::step(*old(self), *self),
                self.pos >= p0,
                p0 > old(self).pos,
                simple_fn(old(self).toks@, old(self).pos as int) ==> p0 == fn_kw_pos(
                    old(self).toks@,
                    old(self).pos as int,
                ) + 3 && self.diags@ == old(self).diags@ && simple_params(self.toks@, self.pos as int)
                    && params_close(self.toks@, self.pos as int).0 == params_close(
                    self.toks@,
                    p0 as int,
                ).0 && params@.len() + params_close(self.toks@, self.pos as int).1 == params_close(
                    self.toks@,
                    p0 as int,
                ).1,
            ensures
                Parser::step(*old(self), *self),
                self.pos >= p0,
                simple_fn(old(self).toks@, old(self).pos as int) ==> self.diags@ == old(self).diags@
                    && self.toks@[self.pos as int].kind == TokKind::Sym(Sym::RParen)
                    && self.pos == params_close(self.toks@, p0 as int).0 && params@.len()
                    == params_close(self.toks@, p0 as int).1,
            decreases self.toks@.len() - self.pos,
        {
            let pstart = self.span();
            let pname = self.expect_ident("in parameter");
            self.expect_sym(Sym::Colon, "after parameter name");
            let ty = self.parse_type();
            params.push(Param { name: pname, ty, span: pstart.merge(self.span()) });
            if !self.eat_sym(Sym::Comma) {
                break;
            }
        }
        self.expect_sym(Sym::RParen, "to close parameter list");
        let ret = if self.eat_sym(Sym::Arrow) {
            Some(self.parse_type())
        } else {
            None
        };
        let effect = self.parse_effect_row();
        self.expect_sym(Sym::Colon, "before function body");
        let body = self.parse_block();
        FnDecl {
            attrs,
            mode,
            name,
            generics,
            params,
            ret,
            effect,
            body,
            span: start.merge(self.span()),
        }
    }

    fn parse_generics(&mut self) -> (out: Vec<GenericParam>)
        requires
            old(self).wf(),
        ensures
            Parser::step(*old(self), *final(self)),
            old(self).cur_kind() != TokKind::Sym(Sym::LBracket) ==> out@.len() == 0
                && final(self).pos == old(self).pos && final(self).diags@ == old(self).diags@,
            old(self).cur_kind() == TokKind::Sym(Sym::LBracket) ==> ({
                let toks = old(self).toks@;
                let q = old(self).pos + 1;
                let stop = generics_stop(toks, q);
                &&& out@.map_values(|g: GenericParam| generic_view(g)) == generic_params(toks, q)
                &&& final(self).pos == past_sym(toks, stop, Sym::RBracket)
                &&& (generics_ok(toks, q) && toks[stop].kind == TokKind::Sym(Sym::RBracket))
                    ==> final(self).diags@ == old(self).diags@
                &&& !(generics_ok(toks, q) && toks[stop].kind == TokKind::Sym(Sym::RBracket))
                    ==> has_error(final(self).diags@)
            }),
    {
        proof {
            reveal_strlit("nat");
            reveal_strlit("type");
        }
        let ghost toks = self.toks@;
        let ghost q0 = self.pos + 1;
        let mut out: Vec<GenericParam> = Vec::new();
        let ghost mut good = true;
        if self.eat_sym(Sym::LBracket) {
            while !self.is_sym(Sym::RBracket) && !self.at_eof()
                invariant_except_break
                    out@.map_values(|g: GenericParam| generic_view(g)) + generic_params(
                        toks,
                        self.pos as int,
                    ) == generic_params(toks, q0),
                    generics_stop(toks, self.pos as int) == generics_stop(toks, q0),
                    (good && generics_ok(toks, self.pos as int)) == generics_ok(toks, q0),
                invariant
                    Parser::step(*old(self), *self),
                    toks == old(self).toks@,
                    q0 == old(self).pos + 1,
                    good ==> self.diags@ == old(self).diags@,
                    !good ==> has_error(self.diags@),
                ensures
                    Parser::step(*old(self), *self),
                    out@.map_values(|g: GenericParam| generic_view(g)) == generic_params(toks, q0),
                    self.pos == generics_stop(toks, q0),
                    good == generics_ok(toks, q0),
                    good ==> self.diags@ == old(self).diags@,
                    !good ==> has_error(self.diags@),
                decreases self.toks@.len() - self.pos,
            {
                let ghost q = self.pos as int;
                let ghost before = self.diags@;
                let ghost was_good = good;
                proof {
                    assert(generics_go_on(toks, q));
                }
                let gstart = self.span();
                let name = self.expect_ident("in generic parameter");
                let ghost after_name = self.diags@;
                proof {
                    if !was_good {
                        lemma_error_kept(before, after_name);
                    }
                    if !(toks[q].kind is Ident) {
                        good = false;
                    }
                }
                let kind = if self.eat_sym(Sym::Colon) {
                    // kind ::= "type" | "nat"
                    let which: u8 = match self.kind() {
                        TokKind::Kw(Kw::Type) => 1,
                        TokKind::Ident(s) => if string_eq_str(s, "nat") {
                            2
                        } else if string_eq_str(s, "type") {
                            1
                        } else {
                            0
                        },
                        _ => 0,
                    };
                    if which == 1 {
                        self.advance();
                        Kind::Type
                    } else if which == 2 {
                        self.advance();
                        Kind::Nat
                    } else {
                        let ghost before_kind = self.diags@;
                        self.error(str_to_string("generic kind must be 'type' or 'nat'"));
                        proof {
                            good = false;
                            assert(self.diags@[self.diags@.len() - 1].severity == Severity::Error);
                        }
                        Kind::Type
                    }
                } else {
                    Kind::Type
                };
                proof {
                    if !good && has_error(after_name) {
                        lemma_error_kept(after_name, self.diags@);
                    }
                    assert(self.pos == generic_end(toks, q));
                    assert(kind == generic_kind(toks, q));
                }
                let ghost old_out = out@;
                out.push(GenericParam { name, kind, span: gstart.merge(self.span()) });
                proof {
                    assert(out@.map_values(|g: GenericParam| generic_view(g)) =~= old_out.map_values(
                        |g: GenericParam| generic_view(g),
                    ).push(
                        (ident_name(toks, q), generic_kind(toks, q), merge_spec(
                            toks[q].span,
                            toks[generic_end(toks, q)].span,
                        )),
                    ));
                }
                if !self.eat_sym(Sym::Comma) {
                    proof {
                        assert(out@.map_values(|g: GenericParam| generic_view(g)) =~= old_out.map_values(
                            |g: GenericParam| generic_view(g),
                        ) + generic_params(toks, q));
                    }
                    break;
                }
                proof {
                    assert(old_out.map_values(|g: GenericParam| generic_view(g)) + generic_params(
                        toks,
                        q,
                    ) =~= out@.map_values(|g: GenericParam| generic_view(g)) + generic_params(
                        toks,
                        self.pos as int,
                    ));
                }
            }
            let ghost before_close = self.diags@;
            self.expect_sym(Sym::RBracket, "to close generics");
            proof {
                if !good {
                    lemma_error_kept(before_close, self.diags@);
                }
            }
        }
        out
    }

    /// An optional effect row `/ {IO, Div, ..}`.
    fn parse_effect_row(&mut self) -> (row: EffectRow)
        requires
            old(self).wf(),
        ensures
            Parser::step(*old(self), *final(self)),
            old(self).cur_kind() != TokKind::Sym(Sym::Slash) ==> row.labels@.len() == 0
                && row.span is None && *final(self) == *old(self),
            old(self).cur_kind() == TokKind::Sym(Sym::Slash) ==> ({
                let toks = old(self).toks@;
                let q = past_sym(toks, old(self).pos + 1, Sym::LBrace);
                let stop = row_stop(toks, q);
                &&& row.labels@ == row_labels(toks, q)
                &&& final(self).pos == past_sym(toks, stop, Sym::RBrace)
                &&& row.span == Some(
                    merge_spec(toks[old(self).pos as int].span, toks[final(self).pos as int].span),
                )
                &&& (toks[old(self).pos + 1].kind == TokKind::Sym(Sym::LBrace)
                    && row_labels_known(toks, q) && toks[stop].kind == TokKind::Sym(Sym::RBrace))
                    ==> final(self).diags@ == old(self).diags@
                &&& !(toks[old(self).pos + 1].kind == TokKind::Sym(Sym::LBrace)
                    && row_labels_known(toks, q) && toks[stop].kind == TokKind::Sym(Sym::RBrace))
                    ==> has_error(final(self).diags@)
            }),
    {
        if !self.is_sym(Sym::Slash) {
            return EffectRow { labels: Vec::new(), span: None };
        }
        let ghost toks = self.toks@;
        let ghost p0 = self.pos as int;
        let start = self.span();
        self.advance(); // /
        self.expect_sym(Sym::LBrace, "to begin effect row");
        let ghost q0 = self.pos as int;
        let ghost lbrace_ok = toks[p0 + 1].kind == TokKind::Sym(Sym::LBrace);
        let mut labels: Vec<Effect> = Vec::new();
        let ghost mut known = true;
        proof {
            assert(q0 == past_sym(toks, p0 + 1, Sym::LBrace));
        }
        while !self.is_sym(Sym::RBrace) && !self.at_eof()
            invariant_except_break
                labels@ + row_labels(toks, self.pos as int) == row_labels(toks, q0),
                row_stop(toks, self.pos as int) == row_stop(toks, q0),
                (known && row_labels_known(toks, self.pos as int)) == row_labels_known(toks, q0),
            invariant
                Parser::step(*old(self), *self),
                toks == old(self).toks@,
                p0 == old(self).pos,
                q0 == past_sym(toks, p0 + 1, Sym::LBrace),
                lbrace_ok == (toks[p0 + 1].kind == TokKind::Sym(Sym::LBrace)),
                (lbrace_ok && known) ==> self.diags@ == old(self).diags@,
                !(lbrace_ok && known) ==> has_error(self.diags@),
            ensures
                Parser::step(*old(self), *self),
                labels@ == row_labels(toks, q0),
                self.pos == row_stop(toks, q0),
                known == row_labels_known(toks, q0),
                (lbrace_ok && known) ==> self.diags@ == old(self).diags@,
                !(lbrace_ok && known) ==> has_error(self.diags@),
            decreases self.toks@.len() - self.pos,
        {
            let ghost q = self.pos as int;
            let ghost before = self.diags@;
            let eff = match self.kind() {
                TokKind::Kw(Kw::IO) => Some(Effect::IO),
                TokKind::Kw(Kw::Div) => Some(Effect::Div),
                TokKind::Kw(Kw::Alloc) => Some(Effect::Alloc),
                TokKind::Kw(Kw::Rand) => Some(Effect::Rand),
                TokKind::Kw(Kw::Unsafe) => Some(Effect::Unsafe),
                _ => None,
            };
            proof {
                assert(row_goes_on(toks, q));
            }
            match eff {
                None => {
                    let m = cat("unknown effect label ", tok_kind_debug(self.kind()).as_str());
                    self.error(m);
                    self.advance();
                    proof {
                        known = false;
                        assert(self.diags@[self.diags@.len() - 1].severity == Severity::Error);
                    }
                    continue;
                },
                Some(eff) => {
                    self.advance();
                    let ghost old_labels = labels@;
                    labels.push(eff);
                    if !self.eat_sym(Sym::Comma) {
                        proof {
                            assert(!comma_at(toks, q + 1));
                            assert(labels@ =~= old_labels + row_labels(toks, q));
                        }
                        break;
                    }
                    proof {
                        assert(comma_at(toks, q + 1));
                        assert(old_labels + row_labels(toks, q) =~= labels@ + row_labels(
                            toks,
                            self.pos as int,
                        ));
                        if !(lbrace_ok && known) {
                            lemma_error_kept(before, self.diags@);
                        }
                    }
                },
            }
        }
        let ghost stop = self.pos as int;
        let ghost before_close = self.diags@;
        self.expect_sym(Sym::RBrace, "to close effect row");
        proof {
            if !(lbrace_ok && known) {
                lemma_error_kept(before_close, self.diags@);
            }
        }
        EffectRow { labels, span: Some(start.merge(self.span())) }
    }

    /// `data Name[generics]:` and an indented block of constructors; the cursor
    /// is on `data`.
    fn parse_data(&mut self) -> (d: DataDecl)
        requires
            old(self).wf(),
            !(old(self).cur_kind() is Eof),
        ensures
            Parser::step(*old(self), *final(self)),
            final(self).pos > old(self).pos,
            d.name@ == decl_name(old(self).toks@, old(self).pos as int),
            d.generics@.map_values(|g: GenericParam| generic_view(g)) == decl_generics(
                old(self).toks@,
                old(self).pos as int,
            ),
            d.span == merge_spec(
                old(self).toks@[old(self).pos as int].span,
                final(self).toks@[final(self).pos as int].span,
            ),
            !(old(self).toks@[decl_body_pos(old(self).toks@, old(self).pos as int)].kind is Newline)
                ==> d.ctors@.len() == 0 && final(self).pos == decl_body_pos(
                old(self).toks@,
                old(self).pos as int,
            ),
    {
        let start = self.span();
        self.advance(); // data
        let name = self.expect_ident("after 'data'");
        let generics = self.parse_generics();
        proof {
            assert(generics@.map_values(|g: GenericParam| generic_view(g)) =~= decl_generics(
                old(self).toks@,
                old(self).pos as int,
            ));
        }
        self.expect_sym(Sym::Colon, "after data name");
        let mut ctors: Vec<Constructor> = Vec::new();
        if self.is_newline() {
            self.eat_newline();
            self.expect_indent("data body");
            while !self.is_dedent_or_eof()
                invariant
                    Parser::step(*old(self), *self),
                decreases self.toks@.len() - self.pos,
            {
                let p_iter = self.pos;
                if self.is_newline() {
                    self.advance();
                    continue;
                }
                let cstart = self.span();
                let cname = self.expect_ident("in constructor");
                let mut fields: Vec<Type> = Vec::new();
                if self.eat_sym(Sym::LParen) {
                    while !self.is_sym(Sym::RParen) && !self.at_eof()
                        invariant
                            Parser::step(*old(self), *self),
                            self.pos > p_iter,
                        decreases self.toks@.len() - self.pos,
                    {
                        fields.push(self.parse_type());
                        if !self.eat_sym(Sym::Comma) {
                            break;
                        }
                    }
                    self.expect_sym(Sym::RParen, "to close constructor fields");
                }
                ctors.push(Constructor { name: cname, fields, span: cstart.merge(self.span()) });
                self.eat_newline();
                if self.pos == p_iter {
                    // Nothing was consumed (the token here is not a constructor
                    // name, and an error is recorded): skip it.
                    self.advance();
                }
            }
            self.eat_dedent();
        }
        DataDecl { name, generics, ctors, span: start.merge(self.span()) }
    }

    /// `codata Name[generics]:` and an indented block of `name: type`
    /// destructors; the cursor is on `codata`.
    fn parse_codata(&mut self) -> (d: CodataDecl)
        requires
            old(self).wf(),
            !(old(self).cur_kind() is Eof),
        ensures
            Parser::step(*old(self), *final(self)),
            final(self).pos > old(self).pos,
            d.name@ == decl_name(old(self).toks@, old(self).pos as int),
            d.generics@.map_values(|g: GenericParam| generic_view(g)) == decl_generics(
                old(self).toks@,
                old(self).pos as int,
            ),
            d.span == merge_spec(
                old(self).toks@[old(self).pos as int].span,
                final(self).toks@[final(self).pos as int].span,
            ),
            !(old(self).toks@[decl_body_pos(old(self).toks@, old(self).pos as int)].kind is Newline)
                ==> d.destructors@.len() == 0 && final(self).pos == decl_body_pos(
                old(self).toks@,
                old(self).pos as int,
            ),
    {
        let start = self.span();
        self.advance(); // codata
        let name = self.expect_ident("after 'codata'");
        let generics = self.parse_generics();
        proof {
            assert(generics@.map_values(|g: GenericParam| generic_view(g)) =~= decl_generics(
                old(self).toks@,
                old(self).pos as int,
            ));
        }
        self.expect_sym(Sym::Colon, "after codata name");
        let mut destructors: Vec<Destructor> = Vec::new();
        if self.is_newline() {
            self.eat_newline();
            self.expect_indent("codata body");
            while !self.is_dedent_or_eof()
                invariant
                    Parser::step(*old(self), *self),
                decreases self.toks@.len() - self.pos,
            {
                let p_iter = self.pos;
                if self.is_newline() {
                    self.advance();
                    continue;
                }
                let dstart = self.span();
                let dname = self.expect_ident("in destructor");
                self.expect_sym(Sym::Colon, "after destructor name");
                let ty = self.parse_type();
                destructors.push(Destructor { name: dname, ty, span: dstart.merge(self.span()) });
                self.eat_newline();
                if self.pos == p_iter {
                    // Nothing was consumed (the token here starts no destructor,
                    // and an error is recorded): skip it.
                    self.advance();
                }
            }
            self.eat_dedent();
        }
        CodataDecl { name, generics, destructors, span: start.merge(self.span()) }
    }

    /// `type Name[generics] = target`; the cursor is on `type`.
    fn parse_type_alias(&mut self) -> (t: TypeAlias)
        requires
            old(self).wf(),
            !(old(self).cur_kind() is Eof),
        ensures
            Parser::step(*old(self), *final(self)),
            final(self).pos > old(self).pos,
            t.name@ == decl_name(old(self).toks@, old(self).pos as int),
            t.generics@.map_values(|g: GenericParam| generic_view(g)) == decl_generics(
                old(self).toks@,
                old(self).pos as int,
            ),
            t.span == merge_spec(
                old(self).toks@[old(self).pos as int].span,
                final(self).toks@[final(self).pos as int].span,
            ),
    {
        let start = self.span();
        self.advance(); // type
        let name = self.expect_ident("after 'type'");
        let generics = self.parse_generics();
        proof {
            assert(generics@.map_values(|g: GenericParam| generic_view(g)) =~= decl_generics(
                old(self).toks@,
                old(self).pos as int,
            ));
        }
        self.expect_sym(Sym::Eq, "in type alias");
        let target = self.parse_type();
        self.eat_newline();
        TypeAlias { name, generics, target, span: start.merge(self.span()) }
    }

    /// `const name: type = value`; the cursor is on `const`.
    fn parse_const(&mut self) -> (c: ConstDecl)
        requires
            old(self).wf(),
            !(old(self).cur_kind() is Eof),
        ensures
            Parser::step(*old(self), *final(self)),
            final(self).pos > old(self).pos,
            c.name@ == decl_name(old(self).toks@, old(self).pos as int),
            c.span == merge_spec(
                old(self).toks@[old(self).pos as int].span,
                final(self).toks@[final(self).pos as int].span,
            ),
    {
        let start = self.span();
        self.advance(); // const
        let name = self.expect_ident("after 'const'");
        self.expect_sym(Sym::Colon, "after const name");
        let ty = self.parse_type();
        self.expect_sym(Sym::Eq, "in const declaration");
        let value = self.parse_expr();
        self.eat_newline();
        ConstDecl { name, ty, value, span: start.merge(self.span()) }
    }

    // ---- expressions ----

    /// An expression, with an optional range tail `a..b` / `a..=b`. The tree
    /// follows the precedence table, and each operator node stands at the token
    /// that spells it, splitting the tokens it read between its operands.
    pub fn parse_expr(&mut self) -> (e: Expr)
        requires
            old(self).wf(),
        ensures
            Parser::step_consuming(*old(self), *final(self)),
            shaped(e, 0),
            chain_from(old(self).tokens(), old(self).cursor()) ==> final(self).cursor() == chain_end(
                old(self).tokens(),
                old(self).cursor(),
            ) && final(self).diagnostics() == old(self).diagnostics(),
            atom_line(old(self).tokens(), old(self).cursor()) ==> final(self).cursor() == old(
                self,
            ).cursor() + 1 && final(self).diagnostics() == old(self).diagnostics() && primary_built(
                old(self).tokens()[old(self).cursor()].kind,
                old(self).tokens()[old(self).cursor() + 1].kind,
                e.kind,
            ),
            ops_placed(e, old(self).tokens(), old(self).cursor(), final(self).cursor()),
        decreases old(self).remaining(), 16int,
    {
        let e = self.parse_or();
        proof {
            if chain_from(old(self).toks@, old(self).pos as int) {
                lemma_chain_tail(old(self).toks@, old(self).pos as int, self.pos as int);
            }
        }
        // range tail: a..b | a..=b
        if self.is_sym(Sym::DotDot) || self.is_sym(Sym::DotDotEq) {
            let inclusive = self.is_sym(Sym::DotDotEq);
            let ghost m = self.pos as int;
            self.advance();
            let hi = self.parse_or();
            let span = e.span.merge(hi.span);
            let r = Expr {
                kind: ExprKind::Range { lo: Box::new(e), hi: Box::new(hi), inclusive },
                span,
            };
            proof {
                assert(self.toks@[m].kind == TokKind::Sym(
                    if inclusive {
                        Sym::DotDotEq
                    } else {
                        Sym::DotDot
                    },
                ));
                assert(ops_placed(r, self.toks@, old(self).pos as int, self.pos as int));
            }
            return r;
        }
        e
    }

    /// `or`, left-associative.
    fn parse_or(&mut self) -> (e: Expr)
        requires
            old(self).wf(),
        ensures
            Parser::step_consuming(*old(self), *final(self)),
            shaped(e, 1),
            chain_from(old(self).toks@, old(self).pos as int) ==> final(self).diags@ == old(
                self,
            ).diags@ && chain_pt(old(self).toks@, old(self).pos as int, final(self).pos as int)
                && binop_level(
                final(self).toks@[final(self).pos as int].kind,
            ) < 1,
            atom_line(old(self).toks@, old(self).pos as int) ==> final(self).pos == old(self).pos + 1
                && final(self).diags@ == old(self).diags@ && primary_built(
                old(self).toks@[old(self).pos as int].kind,
                old(self).toks@[old(self).pos as int + 1].kind,
                e.kind,
            ),
            ops_placed(e, old(self).toks@, old(self).pos as int, final(self).pos as int),
        decreases old(self).remaining(), 15int,
    {
        let mut lhs = self.parse_and();
        proof {
            lemma_shaped_looser(lhs, 2, 1);
        }
        loop
            invariant
                Parser::step_consuming(*old(self), *self),
                shaped(lhs, 1),
                chain_from(old(self).toks@, old(self).pos as int) ==> self.diags@ == old(self).diags@
                    && chain_pt(old(self).toks@, old(self).pos as int, self.pos as int) && binop_level(
                    self.toks@[self.pos as int].kind,
                ) < 2,
                atom_line(old(self).toks@, old(self).pos as int) ==> self.pos == old(self).pos + 1
                    && self.diags@ == old(self).diags@ && primary_built(
                    old(self).toks@[old(self).pos as int].kind,
                    old(self).toks@[old(self).pos as int + 1].kind,
                    lhs.kind,
                ),
                ops_placed(lhs, self.toks@, old(self).pos as int, self.pos as int),
            ensures
                Parser::step_consuming(*old(self), *self),
                shaped(lhs, 1),
                chain_from(old(self).toks@, old(self).pos as int) ==> self.diags@ == old(self).diags@
                    && chain_pt(old(self).toks@, old(self).pos as int, self.pos as int) && binop_level(
                    self.toks@[self.pos as int].kind,
                ) < 1,
                atom_line(old(self).toks@, old(self).pos as int) ==> self.pos == old(self).pos + 1
                    && self.diags@ == old(self).diags@ && primary_built(
                    old(self).toks@[old(self).pos as int].kind,
                    old(self).toks@[old(self).pos as int + 1].kind,
                    lhs.kind,
                ),
                ops_placed(lhs, self.toks@, old(self).pos as int, self.pos as int),
            decreases self.toks@.len() - self.pos,
        {
            let op = if self.is_kw(Kw::Or) {
                BinOp::Or
            } else {
                break;
            };
            let ghost m = self.pos as int;
            self.advance();
            let rhs = self.parse_and();
            lhs = bin(op, lhs, rhs);
            proof {
                if chain_from(old(self).toks@, old(self).pos as int) {
                    lemma_chain_tail(old(self).toks@, old(self).pos as int, m);
                    lemma_chain_trans(old(self).toks@, old(self).pos as int, m, self.pos as int);
                }
                assert(self.toks@[m].kind == op_token(op));
                lemma_placed_bin(lhs, self.toks@, old(self).pos as int, m, self.pos as int);
            }
        }
        lhs
    }

    /// `and`, left-associative.
    fn parse_and(&mut self) -> (e: Expr)
        requires
            old(self).wf(),
        ensures
            Parser::step_consuming(*old(self), *final(self)),
            shaped(e, 2),
            chain_from(old(self).toks@, old(self).pos as int) ==> final(self).diags@ == old(
                self,
            ).diags@ && chain_pt(old(self).toks@, old(self).pos as int, final(self).pos as int)
                && binop_level(
                final(self).toks@[final(self).pos as int].kind,
            ) < 2,
            atom_line(old(self).toks@, old(self).pos as int) ==> final(self).pos == old(self).pos + 1
                && final(self).diags@ == old(self).diags@ && primary_built(
                old(self).toks@[old(self).pos as int].kind,
                old(self).toks@[old(self).pos as int + 1].kind,
                e.kind,
            ),
            ops_placed(e, old(self).toks@, old(self).pos as int, final(self).pos as int),
        decreases old(self).remaining(), 14int,
    {
        let mut lhs = self.parse_not();
        proof {
            lemma_shaped_looser(lhs, 3, 2);
        }
        loop
            invariant
                Parser::step_consuming(*old(self), *self),
                shaped(lhs, 2),
                chain_from(old(self).toks@, old(self).pos as int) ==> self.diags@ == old(self).diags@
                    && chain_pt(old(self).toks@, old(self).pos as int, self.pos as int) && binop_level(
                    self.toks@[self.pos as int].kind,
                ) < 3,
                atom_line(old(self).toks@, old(self).pos as int) ==> self.pos == old(self).pos + 1
                    && self.diags@ == old(self).diags@ && primary_built(
                    old(self).toks@[old(self).pos as int].kind,
                    old(self).toks@[old(self).pos as int + 1].kind,
                    lhs.kind,
                ),
                ops_placed(lhs, self.toks@, old(self).pos as int, self.pos as int),
            ensures
                Parser::step_consuming(*old(self), *self),
                shaped(lhs, 2),
                chain_from(old(self).toks@, old(self).pos as int) ==> self.diags@ == old(self).diags@
                    && chain_pt(old(self).toks@, old(self).pos as int, self.pos as int) && binop_level(
                    self.toks@[self.pos as int].kind,
                ) < 2,
                atom_line(old(self).toks@, old(self).pos as int) ==> self.pos == old(self).pos + 1
                    && self.diags@ == old(self).diags@ && primary_built(
                    old(self).toks@[old(self).pos as int].kind,
                    old(self).toks@[old(self).pos as int + 1].kind,
                    lhs.kind,
                ),
                ops_placed(lhs, self.toks@, old(self).pos as int, self.pos as int),
            decreases self.toks@.len() - self.pos,
        {
            let op = if self.is_kw(Kw::And) {
                BinOp::And
            } else {
                break;
            };
            let ghost m = self.pos as int;
            self.advance();
            let rhs = self.parse_not();
            lhs = bin(op, lhs, rhs);
            proof {
                if chain_from(old(self).toks@, old(self).pos as int) {
                    lemma_chain_tail(old(self).toks@, old(self).pos as int, m);
                    lemma_chain_trans(old(self).toks@, old(self).pos as int, m, self.pos as int);
                }
                assert(self.toks@[m].kind == op_token(op));
                lemma_placed_bin(lhs, self.toks@, old(self).pos as int, m, self.pos as int);
            }
        }
        lhs
    }

    /// `|`, left-associative.
    fn parse_bitor(&mut self) -> (e: Expr)
        requires
            old(self).wf(),
        ensures
            Parser::step_consuming(*old(self), *final(self)),
            shaped(e, 5),
            chain_from(old(self).toks@, old(self).pos as int) ==> final(self).diags@ == old(
                self,
            ).diags@ && chain_pt(old(self).toks@, old(self).pos as int, final(self).pos as int)
                && binop_level(
                final(self).toks@[final(self).pos as int].kind,
            ) < 5,
            atom_line(old(self).toks@, old(self).pos as int) ==> final(self).pos == old(self).pos + 1
                && final(self).diags@ == old(self).diags@ && primary_built(
                old(self).toks@[old(self).pos as int].kind,
                old(self).toks@[old(self).pos as int + 1].kind,
                e.kind,
            ),
            ops_placed(e, old(self).toks@, old(self).pos as int, final(self).pos as int),
        decreases old(self).remaining(), 11int,
    {
        let mut lhs = self.parse_bitxor();
        proof {
            lemma_shaped_looser(lhs, 6, 5);
        }
        loop
            invariant
                Parser::step_consuming(*old(self), *self),
                shaped(lhs, 5),
                chain_from(old(self).toks@, old(self).pos as int) ==> self.diags@ == old(self).diags@
                    && chain_pt(old(self).toks@, old(self).pos as int, self.pos as int) && binop_level(
                    self.toks@[self.pos as int].kind,
                ) < 6,
                atom_line(old(self).toks@, old(self).pos as int) ==> self.pos == old(self).pos + 1
                    && self.diags@ == old(self).diags@ && primary_built(
                    old(self).toks@[old(self).pos as int].kind,
                    old(self).toks@[old(self).pos as int + 1].kind,
                    lhs.kind,
                ),
                ops_placed(lhs, self.toks@, old(self).pos as int, self.pos as int),
            ensures
                Parser::step_consuming(*old(self), *self),
                shaped(lhs, 5),
                chain_from(old(self).toks@, old(self).pos as int) ==> self.diags@ == old(self).diags@
                    && chain_pt(old(self).toks@, old(self).pos as int, self.pos as int) && binop_level(
                    self.toks@[self.pos as int].kind,
                ) < 5,
                atom_line(old(self).toks@, old(self).pos as int) ==> self.pos == old(self).pos + 1
                    && self.diags@ == old(self).diags@ && primary_built(
                    old(self).toks@[old(self).pos as int].kind,
                    old(self).toks@[old(self).pos as int + 1].kind,
                    lhs.kind,
                ),
                ops_placed(lhs, self.toks@, old(self).pos as int, self.pos as int),
            decreases self.toks@.len() - self.pos,
        {
            let op = if self.is_sym(Sym::Pipe) {
                BinOp::BitOr
            } else {
                break;
            };
            let ghost m = self.pos as int;
            self.advance();
            let rhs = self.parse_bitxor();
            lhs = bin(op, lhs, rhs);
            proof {
                if chain_from(old(self).toks@, old(self).pos as int) {
                    lemma_chain_tail(old(self).toks@, old(self).pos as int, m);
                    lemma_chain_trans(old(self).toks@, old(self).pos as int, m, self.pos as int);
                }
                assert(self.toks@[m].kind == op_token(op));
                lemma_placed_bin(lhs, self.toks@, old(self).pos as int, m, self.pos as int);
            }
        }
        lhs
    }

    /// `^`, left-associative.
    fn parse_bitxor(&mut self) -> (e: Expr)
        requires
            old(self).wf(),
        ensures
            Parser::step_consuming(*old(self), *final(self)),
            shaped(e, 6),
            chain_from(old(self).toks@, old(self).pos as int) ==> final(self).diags@ == old(
                self,
            ).diags@ && chain_pt(old(self).toks@, old(self).pos as int, final(self).pos as int)
                && binop_level(
                final(self).toks@[final(self).pos as int].kind,
            ) < 6,
            atom_line(old(self).toks@, old(self).pos as int) ==> final(self).pos == old(self).pos + 1
                && final(self).diags@ == old(self).diags@ && primary_built(
                old(self).toks@[old(self).pos as int].kind,
                old(self).toks@[old(self).pos as int + 1].kind,
                e.kind,
            ),
            ops_placed(e, old(self).toks@, old(self).pos as int, final(self).pos as int),
        decreases old(self).remaining(), 10int,
    {
        let mut lhs = self.parse_bitand();
        proof {
            lemma_shaped_looser(lhs, 7, 6);
        }
        loop
            invariant
                Parser::step_consuming(*old(self), *self),
                shaped(lhs, 6),
                chain_from(old(self).toks@, old(self).pos as int) ==> self.diags@ == old(self).diags@
                    && chain_pt(old(self).toks@, old(self).pos as int, self.pos as int) && binop_level(
                    self.toks@[self.pos as int].kind,
                ) < 7,
                atom_line(old(self).toks@, old(self).pos as int) ==> self.pos == old(self).pos + 1
                    && self.diags@ == old(self).diags@ && primary_built(
                    old(self).toks@[old(self).pos as int].kind,
                    old(self).toks@[old(self).pos as int + 1].kind,
                    lhs.kind,
                ),
                ops_placed(lhs, self.toks@, old(self).pos as int, self.pos as int),
            ensures
                Parser::step_consuming(*old(self), *self),
                shaped(lhs, 6),
                chain_from(old(self).toks@, old(self).pos as int) ==> self.diags@ == old(self).diags@
                    && chain_pt(old(self).toks@, old(self).pos as int, self.pos as int) && binop_level(
                    self.toks@[self.pos as int].kind,
                ) < 6,
                atom_line(old(self).toks@, old(self).pos as int) ==> self.pos == old(self).pos + 1
                    && self.diags@ == old(self).diags@ && primary_built(
                    old(self).toks@[old(self).pos as int].kind,
                    old(self).toks@[old(self).pos as int + 1].kind,
                    lhs.kind,
                ),
                ops_placed(lhs, self.toks@, old(self).pos as int, self.pos as int),
            decreases self.toks@.len() - self.pos,
        {
            let op = if self.is_sym(Sym::Caret) {
                BinOp::BitXor
            } else {
                break;
            };
            let ghost m = self.pos as int;
            self.advance();
            let rhs = self.parse_bitand();
            lhs = bin(op, lhs, rhs);
            proof {
                if chain_from(old(self).toks@, old(self).pos as int) {
                    lemma_chain_tail(old(self).toks@, old(self).pos as int, m);
                    lemma_chain_trans(old(self).toks@, old(self).pos as int, m, self.pos as int);
                }
                assert(self.toks@[m].kind == op_token(op));
                lemma_placed_bin(lhs, self.toks@, old(self).pos as int, m, self.pos as int);
            }
        }
        lhs
    }

    /// `&`, left-associative.
    fn parse_bitand(&mut self) -> (e: Expr)
        requires
            old(self).wf(),
        ensures
            Parser::step_consuming(*old(self), *final(self)),
            shaped(e, 7),
            chain_from(old(self).toks@, old(self).pos as int) ==> final(self).diags@ == old(
                self,
            ).diags@ && chain_pt(old(self).toks@, old(self).pos as int, final(self).pos as int)
                && binop_level(
                final(self).toks@[final(self).pos as int].kind,
            ) < 7,
            atom_line(old(self).toks@, old(self).pos as int) ==> final(self).pos == old(self).pos + 1
                && final(self).diags@ == old(self).diags@ && primary_built(
                old(self).toks@[old(self).pos as int].kind,
                old(self).toks@[old(self).pos as int + 1].kind,
                e.kind,
            ),
            ops_placed(e, old(self).toks@, old(self).pos as int, final(self).pos as int),
        decreases old(self).remaining(), 9int,
    {
        let mut lhs = self.parse_shift();
        proof {
            lemma_shaped_looser(lhs, 8, 7);
        }
        loop
            invariant
                Parser::step_consuming(*old(self), *self),
                shaped(lhs, 7),
                chain_from(old(self).toks@, old(self).pos as int) ==> self.diags@ == old(self).diags@
                    && chain_pt(old(self).toks@, old(self).pos as int, self.pos as int) && binop_level(
                    self.toks@[self.pos as int].kind,
                ) < 8,
                atom_line(old(self).toks@, old(self).pos as int) ==> self.pos == old(self).pos + 1
                    && self.diags@ == old(self).diags@ && primary_built(
                    old(self).toks@[old(self).pos as int].kind,
                    old(self).toks@[old(self).pos as int + 1].kind,
                    lhs.kind,
                ),
                ops_placed(lhs, self.toks@, old(self).pos as int, self.pos as int),
            ensures
                Parser::step_consuming(*old(self), *self),
                shaped(lhs, 7),
                chain_from(old(self).toks@, old(self).pos as int) ==> self.diags@ == old(self).diags@
                    && chain_pt(old(self).toks@, old(self).pos as int, self.pos as int) && binop_level(
                    self.toks@[self.pos as int].kind,
                ) < 7,
                atom_line(old(self).toks@, old(self).pos as int) ==> self.pos == old(self).pos + 1
                    && self.diags@ == old(self).diags@ && primary_built(
                    old(self).toks@[old(self).pos as int].kind,
                    old(self).toks@[old(self).pos as int + 1].kind,
                    lhs.kind,
                ),
                ops_placed(lhs, self.toks@, old(self).pos as int, self.pos as int),
            decreases self.toks@.len() - self.pos,
        {
            let op = if self.is_sym(Sym::Amp) {
                BinOp::BitAnd
            } else {
                break;
            };
            let ghost m = self.pos as int;
            self.advance();
            let rhs = self.parse_shift();
            lhs = bin(op, lhs, rhs);
            proof {
                if chain_from(old(self).toks@, old(self).pos as int) {
                    lemma_chain_tail(old(self).toks@, old(self).pos as int, m);
                    lemma_chain_trans(old(self).toks@, old(self).pos as int, m, self.pos as int);
                }
                assert(self.toks@[m].kind == op_token(op));
                lemma_placed_bin(lhs, self.toks@, old(self).pos as int, m, self.pos as int);
            }
        }
        lhs
    }

    /// `<<` and `>>`, left-associative.
    fn parse_shift(&mut self) -> (e: Expr)
        requires
            old(self).wf(),
        ensures
            Parser::step_consuming(*old(self), *final(self)),
            shaped(e, 8),
            chain_from(old(self).toks@, old(self).pos as int) ==> final(self).diags@ == old(
                self,
            ).diags@ && chain_pt(old(self).toks@, old(self).pos as int, final(self).pos as int)
                && binop_level(
                final(self).toks@[final(self).pos as int].kind,
            ) < 8,
            atom_line(old(self).toks@, old(self).pos as int) ==> final(self).pos == old(self).pos + 1
                && final(self).diags@ == old(self).diags@ && primary_built(
                old(self).toks@[old(self).pos as int].kind,
                old(self).toks@[old(self).pos as int + 1].kind,
                e.kind,
            ),
            ops_placed(e, old(self).toks@, old(self).pos as int, final(self).pos as int),
        decreases old(self).remaining(), 8int,
    {
        let mut lhs = self.parse_add();
        proof {
            lemma_shaped_looser(lhs, 9, 8);
        }
        loop
            invariant
                Parser::step_consuming(*old(self), *self),
                shaped(lhs, 8),
                chain_from(old(self).toks@, old(self).pos as int) ==> self.diags@ == old(self).diags@
                    && chain_pt(old(self).toks@, old(self).pos as int, self.pos as int) && binop_level(
                    self.toks@[self.pos as int].kind,
                ) < 9,
                atom_line(old(self).toks@, old(self).pos as int) ==> self.pos == old(self).pos + 1
                    && self.diags@ == old(self).diags@ && primary_built(
                    old(self).toks@[old(self).pos as int].kind,
                    old(self).toks@[old(self).pos as int + 1].kind,
                    lhs.kind,
                ),
                ops_placed(lhs, self.toks@, old(self).pos as int, self.pos as int),
            ensures
                Parser::step_consuming(*old(self), *self),
                shaped(lhs, 8),
                chain_from(old(self).toks@, old(self).pos as int) ==> self.diags@ == old(self).diags@
                    && chain_pt(old(self).toks@, old(self).pos as int, self.pos as int) && binop_level(
                    self.toks@[self.pos as int].kind,
                ) < 8,
                atom_line(old(self).toks@, old(self).pos as int) ==> self.pos == old(self).pos + 1
                    && self.diags@ == old(self).diags@ && primary_built(
                    old(self).toks@[old(self).pos as int].kind,
                    old(self).toks@[old(self).pos as int + 1].kind,
                    lhs.kind,
                ),
                ops_placed(lhs, self.toks@, old(self).pos as int, self.pos as int),
            decreases self.toks@.len() - self.pos,
        {
            let op = if self.is_sym(Sym::Shl) {
                BinOp::Shl
            } else if self.is_sym(Sym::Shr) {
                BinOp::Shr
            } else {
                break;
            };
            let ghost m = self.pos as int;
            self.advance();
            let rhs = self.parse_add();
            lhs = bin(op, lhs, rhs);
            proof {
                if chain_from(old(self).toks@, old(self).pos as int) {
                    lemma_chain_tail(old(self).toks@, old(self).pos as int, m);
                    lemma_chain_trans(old(self).toks@, old(self).pos as int, m, self.pos as int);
                }
                assert(self.toks@[m].kind == op_token(op));
                lemma_placed_bin(lhs, self.toks@, old(self).pos as int, m, self.pos as int);
            }
        }
        lhs
    }

    /// `+` and `-`, left-associative.
    fn parse_add(&mut self) -> (e: Expr)
        requires
            old(self).wf(),
        ensures
            Parser::step_consuming(*old(self), *final(self)),
            shaped(e, 9),
            chain_from(old(self).toks@, old(self).pos as int) ==> final(self).diags@ == old(
                self,
            ).diags@ && chain_pt(old(self).toks@, old(self).pos as int, final(self).pos as int)
                && binop_level(
                final(self).toks@[final(self).pos as int].kind,
            ) < 9,
            atom_line(old(self).toks@, old(self).pos as int) ==> final(self).pos == old(self).pos + 1
                && final(self).diags@ == old(self).diags@ && primary_built(
                old(self).toks@[old(self).pos as int].kind,
                old(self).toks@[old(self).pos as int + 1].kind,
                e.kind,
            ),
            ops_placed(e, old(self).toks@, old(self).pos as int, final(self).pos as int),
        decreases old(self).remaining(), 7int,
    {
        let mut lhs = self.parse_mul();
        proof {
            lemma_shaped_looser(lhs, 10, 9);
        }
        loop
            invariant
                Parser::step_consuming(*old(self), *self),
                shaped(lhs, 9),
                chain_from(old(self).toks@, old(self).pos as int) ==> self.diags@ == old(self).diags@
                    && chain_pt(old(self).toks@, old(self).pos as int, self.pos as int) && binop_level(
                    self.toks@[self.pos as int].kind,
                ) < 10,
                atom_line(old(self).toks@, old(self).pos as int) ==> self.pos == old(self).pos + 1
                    && self.diags@ == old(self).diags@ && primary_built(
                    old(self).toks@[old(self).pos as int].kind,
                    old(self).toks@[old(self).pos as int + 1].kind,
                    lhs.kind,
                ),
                ops_placed(lhs, self.toks@, old(self).pos as int, self.pos as int),
            ensures
                Parser::step_consuming(*old(self), *self),
                shaped(lhs, 9),
                chain_from(old(self).toks@, old(self).pos as int) ==> self.diags@ == old(self).diags@
                    && chain_pt(old(self).toks@, old(self).pos as int, self.pos as int) && binop_level(
                    self.toks@[self.pos as int].kind,
                ) < 9,
                atom_line(old(self).toks@, old(self).pos as int) ==> self.pos == old(self).pos + 1
                    && self.diags@ == old(self).diags@ && primary_built(
                    old(self).toks@[old(self).pos as int].kind,
                    old(self).toks@[old(self).pos as int + 1].kind,
                    lhs.kind,
                ),
                ops_placed(lhs, self.toks@, old(self).pos as int, self.pos as int),
            decreases self.toks@.len() - self.pos,
        {
            let op = if self.is_sym(Sym::Plus) {
                BinOp::Add
            } else if self.is_sym(Sym::Minus) {
                BinOp::Sub
            } else {
                break;
            };
            let ghost m = self.pos as int;
            self.advance();
            let rhs = self.parse_mul();
            lhs = bin(op, lhs, rhs);
            proof {
                if chain_from(old(self).toks@, old(self).pos as int) {
                    lemma_chain_tail(old(self).toks@, old(self).pos as int, m);
                    lemma_chain_trans(old(self).toks@, old(self).pos as int, m, self.pos as int);
                }
                assert(self.toks@[m].kind == op_token(op));
                lemma_placed_bin(lhs, self.toks@, old(self).pos as int, m, self.pos as int);
            }
        }
        lhs
    }

    /// `*`, `/`, `//` and `%`, left-associative.
    fn parse_mul(&mut self) -> (e: Expr)
        requires
            old(self).wf(),
        ensures
            Parser::step_consuming(*old(self), *final(self)),
            shaped(e, 10),
            chain_from(old(self).toks@, old(self).pos as int) ==> final(self).diags@ == old(
                self,
            ).diags@ && chain_pt(old(self).toks@, old(self).pos as int, final(self).pos as int)
                && binop_level(
                final(self).toks@[final(self).pos as int].kind,
            ) < 10,
            atom_line(old(self).toks@, old(self).pos as int) ==> final(self).pos == old(self).pos + 1
                && final(self).diags@ == old(self).diags@ && primary_built(
                old(self).toks@[old(self).pos as int].kind,
                old(self).toks@[old(self).pos as int + 1].kind,
                e.kind,
            ),
            ops_placed(e, old(self).toks@, old(self).pos as int, final(self).pos as int),
        decreases old(self).remaining(), 6int,
    {
        let mut lhs = self.parse_unary();
        proof {
            lemma_shaped_looser(lhs, 11, 10);
        }
        loop
            invariant
                Parser::step_consuming(*old(self), *self),
                shaped(lhs, 10),
                chain_from(old(self).toks@, old(self).pos as int) ==> self.diags@ == old(self).diags@
                    && chain_pt(old(self).toks@, old(self).pos as int, self.pos as int) && binop_level(
                    self.toks@[self.pos as int].kind,
                ) < 11,
                atom_line(old(self).toks@, old(self).pos as int) ==> self.pos == old(self).pos + 1
                    && self.diags@ == old(self).diags@ && primary_built(
                    old(self).toks@[old(self).pos as int].kind,
                    old(self).toks@[old(self).pos as int + 1].kind,
                    lhs.kind,
                ),
                ops_placed(lhs, self.toks@, old(self).pos as int, self.pos as int),
            ensures
                Parser::step_consuming(*old(self), *self),
                shaped(lhs, 10),
                chain_from(old(self).toks@, old(self).pos as int) ==> self.diags@ == old(self).diags@
                    && chain_pt(old(self).toks@, old(self).pos as int, self.pos as int) && binop_level(
                    self.toks@[self.pos as int].kind,
                ) < 10,
                atom_line(old(self).toks@, old(self).pos as int) ==> self.pos == old(self).pos + 1
                    && self.diags@ == old(self).diags@ && primary_built(
                    old(self).toks@[old(self).pos as int].kind,
                    old(self).toks@[old(self).pos as int + 1].kind,
                    lhs.kind,
                ),
                ops_placed(lhs, self.toks@, old(self).pos as int, self.pos as int),
            decreases self.toks@.len() - self.pos,
        {
            let op = if self.is_sym(Sym::Star) {
                BinOp::Mul
            } else if self.is_sym(Sym::Slash) {
                BinOp::Div
            } else if self.is_sym(Sym::SlashSlash) {
                BinOp::FloorDiv
            } else if self.is_sym(Sym::Percent) {
                BinOp::Rem
            } else {
                break;
            };
            let ghost m = self.pos as int;
            self.advance();
            let rhs = self.parse_unary();
            lhs = bin(op, lhs, rhs);
            proof {
                if chain_from(old(self).toks@, old(self).pos as int) {
                    lemma_chain_tail(old(self).toks@, old(self).pos as int, m);
                    lemma_chain_trans(old(self).toks@, old(self).pos as int, m, self.pos as int);
                }
                assert(self.toks@[m].kind == op_token(op));
                lemma_placed_bin(lhs, self.toks@, old(self).pos as int, m, self.pos as int);
            }
        }
        lhs
    }

    /// `not e`, right-nested.
    fn parse_not(&mut self) -> (e: Expr)
        requires
            old(self).wf(),
        ensures
            Parser::step_consuming(*old(self), *final(self)),
            shaped(e, 3),
            chain_from(old(self).toks@, old(self).cursor()) ==> final(self).diags@ == old(self).diags@
                && chain_pt(old(self).toks@, old(self).cursor(), final(self).cursor()) && binop_level(
                final(self).toks@[final(self).cursor()].kind,
            ) < 3,
            atom_line(old(self).toks@, old(self).cursor()) ==> final(self).cursor() == old(self).cursor() + 1
                && final(self).diags@ == old(self).diags@ && primary_built(
                old(self).toks@[old(self).cursor()].kind,
                old(self).toks@[old(self).cursor() + 1].kind,
                e.kind,
            ),
            ops_placed(e, old(self).toks@, old(self).cursor(), final(self).cursor()),
        decreases old(self).remaining(), 13int,
    {
        if self.is_kw(Kw::Not) {
            let start = self.span();
            self.advance();
            let inner = self.parse_not();
            let span = start.merge(inner.span);
            let e = Expr { kind: ExprKind::Un(UnOp::Not, Box::new(inner)), span };
            proof {
                assert(ops_placed(e, self.toks@, old(self).cursor(), self.cursor()));
            }
            return e;
        }
        self.parse_cmp()
    }

    /// Comparisons, left-associative.
    fn parse_cmp(&mut self) -> (e: Expr)
        requires
            old(self).wf(),
        ensures
            Parser::step_consuming(*old(self), *final(self)),
            shaped(e, 4),
            chain_from(old(self).toks@, old(self).cursor()) ==> final(self).diags@ == old(self).diags@
                && chain_pt(old(self).toks@, old(self).cursor(), final(self).cursor()) && binop_level(
                final(self).toks@[final(self).cursor()].kind,
            ) < 4,
            atom_line(old(self).toks@, old(self).cursor()) ==> final(self).cursor() == old(self).cursor() + 1
                && final(self).diags@ == old(self).diags@ && primary_built(
                old(self).toks@[old(self).cursor()].kind,
                old(self).toks@[old(self).cursor() + 1].kind,
                e.kind,
            ),
            ops_placed(e, old(self).toks@, old(self).cursor(), final(self).cursor()),
        decreases old(self).remaining(), 12int,
    {
        let mut lhs = self.parse_bitor();
        proof {
            lemma_shaped_looser(lhs, 5, 4);
        }
        loop
            invariant
                Parser::step_consuming(*old(self), *self),
                shaped(lhs, 4),
                chain_from(old(self).toks@, old(self).cursor()) ==> self.diags@ == old(self).diags@
                    && chain_pt(old(self).toks@, old(self).cursor(), self.cursor()) && binop_level(
                    self.toks@[self.cursor()].kind,
                ) < 5,
                atom_line(old(self).toks@, old(self).cursor()) ==> self.cursor() == old(self).cursor() + 1
                    && self.diags@ == old(self).diags@ && primary_built(
                    old(self).toks@[old(self).cursor()].kind,
                    old(self).toks@[old(self).cursor() + 1].kind,
                    lhs.kind,
                ),
                ops_placed(lhs, self.toks@, old(self).cursor(), self.cursor()),
            ensures
                Parser::step_consuming(*old(self), *self),
                shaped(lhs, 4),
                chain_from(old(self).toks@, old(self).cursor()) ==> self.diags@ == old(self).diags@
                    && chain_pt(old(self).toks@, old(self).cursor(), self.cursor()) && binop_level(
                    self.toks@[self.cursor()].kind,
                ) < 4,
                atom_line(old(self).toks@, old(self).cursor()) ==> self.cursor() == old(self).cursor() + 1
                    && self.diags@ == old(self).diags@ && primary_built(
                    old(self).toks@[old(self).cursor()].kind,
                    old(self).toks@[old(self).cursor() + 1].kind,
                    lhs.kind,
                ),
                ops_placed(lhs, self.toks@, old(self).cursor(), self.cursor()),
            decreases self.toks@.len() - self.pos,
        {
            let op = match self.cmp_binop() {
                Some(op) => op,
                None => break,
            };
            let ghost m = self.cursor();
            self.advance();
            let rhs = self.parse_bitor();
            lhs = bin(op, lhs, rhs);
            proof {
                if chain_from(old(self).toks@, old(self).cursor()) {
                    lemma_chain_tail(old(self).toks@, old(self).cursor(), m);
                    lemma_chain_trans(old(self).toks@, old(self).cursor(), m, self.cursor());
                }
                assert(self.toks@[m].kind == op_token(op));
                lemma_placed_bin(lhs, self.toks@, old(self).cursor(), m, self.cursor());
            }
        }
        lhs
    }

    /// The comparison operator under the cursor, if any.
    fn cmp_binop(&self) -> (r: Option<BinOp>)
        requires
            self.wf(),
        ensures
            r == cmp_binop_of(self.cur_kind()),
    {
        match self.kind() {
            TokKind::Sym(Sym::EqEq) => Some(BinOp::Eq),
            TokKind::Sym(Sym::Ne) => Some(BinOp::Ne),
            TokKind::Sym(Sym::Lt) => Some(BinOp::Lt),
            TokKind::Sym(Sym::Le) => Some(BinOp::Le),
            TokKind::Sym(Sym::Gt) => Some(BinOp::Gt),
            TokKind::Sym(Sym::Ge) => Some(BinOp::Ge),
            _ => None,
        }
    }

    /// Prefix `-` and `~`.
    fn parse_unary(&mut self) -> (e: Expr)
        requires
            old(self).wf(),
        ensures
            Parser::step_consuming(*old(self), *final(self)),
            shaped(e, 11),
            chain_from(old(self).toks@, old(self).pos as int) ==> final(self).diags@ == old(
                self,
            ).diags@ && chain_pt(old(self).toks@, old(self).pos as int, final(self).pos as int)
                && binop_level(
                final(self).toks@[final(self).pos as int].kind,
            ) < 11,
            atom_line(old(self).toks@, old(self).pos as int) ==> final(self).pos == old(self).pos + 1
                && final(self).diags@ == old(self).diags@ && primary_built(
                old(self).toks@[old(self).pos as int].kind,
                old(self).toks@[old(self).pos as int + 1].kind,
                e.kind,
            ),
            ops_placed(e, old(self).toks@, old(self).pos as int, final(self).pos as int),
        decreases old(self).remaining(), 5int,
    {
        let start = self.span();
        if self.is_sym(Sym::Minus) {
            self.advance();
            let inner = self.parse_unary();
            let span = start.merge(inner.span);
            let e = Expr { kind: ExprKind::Un(UnOp::Neg, Box::new(inner)), span };
            proof {
                assert(ops_placed(e, self.toks@, old(self).pos as int, self.pos as int));
            }
            return e;
        }
        if self.is_sym(Sym::Tilde) {
            self.advance();
            let inner = self.parse_unary();
            let span = start.merge(inner.span);
            let e = Expr { kind: ExprKind::Un(UnOp::BitNot, Box::new(inner)), span };
            proof {
                assert(ops_placed(e, self.toks@, old(self).pos as int, self.pos as int));
            }
            return e;
        }
        self.parse_pow()
    }

    /// `a ** b`, right-associative.
    fn parse_pow(&mut self) -> (e: Expr)
        requires
            old(self).wf(),
        ensures
            Parser::step_consuming(*old(self), *final(self)),
            shaped(e, 12),
            chain_from(old(self).toks@, old(self).pos as int) ==> final(self).diags@ == old(
                self,
            ).diags@ && chain_pt(old(self).toks@, old(self).pos as int, final(self).pos as int)
                && binop_level(
                final(self).toks@[final(self).pos as int].kind,
            ) < 12,
            atom_line(old(self).toks@, old(self).pos as int) ==> final(self).pos == old(self).pos + 1
                && final(self).diags@ == old(self).diags@ && primary_built(
                old(self).toks@[old(self).pos as int].kind,
                old(self).toks@[old(self).pos as int + 1].kind,
                e.kind,
            ),
            ops_placed(e, old(self).toks@, old(self).pos as int, final(self).pos as int),
        decreases old(self).remaining(), 4int,
    {
        let base = self.parse_postfix();
        if self.is_sym(Sym::StarStar) {
            let ghost m = self.pos as int;
            self.advance();
            let exp = self.parse_unary();
            let span = base.span.merge(exp.span);
            let e = Expr { kind: ExprKind::Bin(BinOp::Pow, Box::new(base), Box::new(exp)), span };
            proof {
                lemma_placed_bin(e, self.toks@, old(self).pos as int, m, self.pos as int);
                if chain_from(old(self).toks@, old(self).pos as int) {
                    lemma_chain_tail(old(self).toks@, old(self).pos as int, m);
                    lemma_chain_trans(old(self).toks@, old(self).pos as int, m, self.pos as int);
                }
            }
            return e;
        }
        base
    }

    /// Calls `f(..)`, indexing `a[i]` and field access `a.f`.
    fn parse_postfix(&mut self) -> (e: Expr)
        requires
            old(self).wf(),
        ensures
            Parser::step_consuming(*old(self), *final(self)),
            shaped(e, 13),
            chain_from(old(self).toks@, old(self).pos as int) ==> final(self).diags@ == old(self).diags@
                && final(self).pos == old(self).pos + 1,
            atom_line(old(self).toks@, old(self).pos as int) ==> final(self).pos == old(self).pos + 1
                && final(self).diags@ == old(self).diags@ && primary_built(
                old(self).toks@[old(self).pos as int].kind,
                old(self).toks@[old(self).pos as int + 1].kind,
                e.kind,
            ),
            ops_placed(e, old(self).toks@, old(self).pos as int, final(self).pos as int),
        decreases old(self).remaining(), 3int,
    {
        let mut e = self.parse_primary();
        loop
            invariant
                Parser::step_consuming(*old(self), *self),
                shaped(e, 13),
                chain_from(old(self).toks@, old(self).pos as int) ==> self.diags@ == old(self).diags@
                    && self.pos == old(self).pos + 1,
                atom_line(old(self).toks@, old(self).pos as int) ==> self.pos == old(self).pos + 1
                    && self.diags@ == old(self).diags@ && primary_built(
                    old(self).toks@[old(self).pos as int].kind,
                    old(self).toks@[old(self).pos as int + 1].kind,
                    e.kind,
                ),
                ops_placed(e, self.toks@, old(self).pos as int, self.pos as int),
            decreases self.toks@.len() - self.pos,
        {
            let p_iter = self.pos;
            if self.is_sym(Sym::LParen) {
                self.advance();
                let mut args: Vec<Expr> = Vec::new();
                while !self.is_sym(Sym::RParen) && !self.at_eof()
                    invariant
                        Parser::step_consuming(*old(self), *self),
                        self.pos > old(self).pos,
                        self.pos > p_iter,
                    decreases self.toks@.len() - self.pos,
                {
                    args.push(self.parse_expr());
                    if !self.eat_sym(Sym::Comma) {
                        break;
                    }
                }
                self.expect_sym(Sym::RParen, "to close call");
                let span = e.span.merge(self.span());
                e = Expr { kind: ExprKind::Call(Box::new(e), args), span };
            } else if self.is_sym(Sym::LBracket) {
                self.advance();
                let idx = self.parse_expr();
                self.expect_sym(Sym::RBracket, "to close index");
                let span = e.span.merge(self.span());
                e = Expr { kind: ExprKind::Index(Box::new(e), Box::new(idx)), span };
            } else if self.is_sym(Sym::Dot) {
                self.advance();
                let field = self.expect_ident("after '.'");
                let span = e.span.merge(self.span());
                e = Expr { kind: ExprKind::Field(Box::new(e), field), span };
            } else {
                break;
            }
        }
        e
    }

    /// Primary expressions: literals, names, parentheses, reductions, `match`,
    /// `own`, `move(..)` and borrows.
    fn parse_primary(&mut self) -> (e: Expr)
        requires
            old(self).wf(),
        ensures
            Parser::step_consuming(*old(self), *final(self)),
            shaped(e, 13),
            atom_line(old(self).toks@, old(self).pos as int) ==> final(self).pos == old(self).pos + 1
                && final(self).diags@ == old(self).diags@,
            atom_tok(old(self).toks@[old(self).pos as int].kind) && old(self).pos + 1 < old(
                self,
            ).toks@.len() ==> final(self).pos == old(self).pos + 1 && final(self).diags@ == old(
                self,
            ).diags@,
            ops_placed(e, old(self).toks@, old(self).pos as int, final(self).pos as int),
            ({
                let toks = old(self).toks@;
                let p = old(self).pos as int;
                let k = toks[p].kind;
                if starts_primary(k) {
                    primary_built(k, toks[next_pos(toks, p)].kind, e.kind)
                } else {
                    &&& e.kind matches ExprKind::Lit(Lit::Int(t, s)) && t@ == "0"@ && s is None
                    &&& e.span == toks[p].span
                    &&& final(self).pos == next_pos(toks, p)
                    &&& final(self).diags@.len() == old(self).diags@.len() + 1
                    &&& final(self).diags@.drop_last() == old(self).diags@
                    &&& parse_error(
                        final(self).diags@.last(),
                        toks[p].span,
                        "expected an expression, found "@ + tok_debug_text(k),
                    )
                }
            }),
        decreases old(self).remaining(), 2int,
    {
        let start = self.span();
        match self.kind() {
            TokKind::Kw(Kw::Sum) => self.parse_reduction(RedKind::Sum, start),
            TokKind::Kw(Kw::Prod) => self.parse_reduction(RedKind::Prod, start),
            TokKind::Kw(Kw::Count) => self.parse_reduction(RedKind::Count, start),
            TokKind::Kw(Kw::Fold) => self.parse_reduction(RedKind::Fold, start),
            TokKind::Kw(Kw::Match) => self.parse_match(start),
            TokKind::Kw(Kw::Own) => {
                self.advance();
                let inner = self.parse_unary();
                let span = start.merge(inner.span);
                Expr { kind: ExprKind::Own(Box::new(inner)), span }
            },
            TokKind::Kw(Kw::Move) => {
                self.advance();
                self.expect_sym(Sym::LParen, "after 'move'");
                let inner = self.parse_expr();
                self.expect_sym(Sym::RParen, "to close move(...)");
                let span = start.merge(self.span());
                Expr { kind: ExprKind::Move(Box::new(inner)), span }
            },
            TokKind::Sym(Sym::Amp) => {
                self.advance();
                let mutable = self.eat_kw_word("mut");
                let inner = self.parse_unary();
                let span = start.merge(inner.span);
                Expr { kind: ExprKind::Borrow { mutable, inner: Box::new(inner) }, span }
            },
            TokKind::Kw(Kw::True) => {
                self.advance();
                lit(Lit::Bool(true), start)
            },
            TokKind::Kw(Kw::False) => {
                self.advance();
                lit(Lit::Bool(false), start)
            },
            TokKind::Int(text, suf) => {
                let text = text.clone();
                let suf = *suf;
                self.advance();
                match strip_binary_prefix(&text) {
                    Some(digits) => lit(Lit::Bv(digits), start),
                    None => lit(Lit::Int(text, suf), start),
                }
            },
            TokKind::Float(text) => {
                let text = text.clone();
                self.advance();
                lit(Lit::Float(text), start)
            },
            TokKind::Str(text) => {
                let text = text.clone();
                self.advance();
                lit(Lit::Str(text), start)
            },
            TokKind::Char(c) => {
                let c = *c;
                self.advance();
                lit(Lit::Char(c), start)
            },
            TokKind::Ident(name) => {
                let name = name.clone();
                self.advance();
                Expr { kind: ExprKind::Var(name), span: start }
            },
            TokKind::Sym(Sym::LParen) => {
                self.advance();
                let inner = self.parse_expr();
                self.expect_sym(Sym::RParen, "to close parenthesised expression");
                let span = start.merge(self.span());
                Expr { kind: ExprKind::Paren(Box::new(inner)), span }
            },
            _ => {
                let m = cat("expected an expression, found ", tok_kind_debug(self.kind()).as_str());
                self.error(m);
                self.advance();
                lit(Lit::Int(str_to_string("0"), None), start)
            },
        }
    }

    /// `sum/prod/count/fold binder in domain: body`; the cursor is on the keyword.
    fn parse_reduction(&mut self, kind: RedKind, start: Span) -> (e: Expr)
        requires
            old(self).wf(),
            !(old(self).cur_kind() is Eof),
        ensures
            Parser::step_consuming(*old(self), *final(self)),
            e.kind matches ExprKind::Reduction { kind: k, .. } && k == kind,
        decreases old(self).remaining(), 1int,
    {
        self.advance(); // sum/prod/count/fold
        let mut binder: Vec<Pattern> = Vec::new();
        if self.eat_sym(Sym::LParen) {
            while !self.is_sym(Sym::RParen) && !self.at_eof()
                invariant
                    Parser::step(*old(self), *self),
                    self.pos > old(self).pos,
                decreases self.toks@.len() - self.pos,
            {
                binder.push(self.parse_pattern());
                if !self.eat_sym(Sym::Comma) {
                    break;
                }
            }
            self.expect_sym(Sym::RParen, "to close binder tuple");
        } else {
            binder.push(self.parse_pattern());
        }
        self.expect_kw(Kw::In, "in reduction");
        let domain = self.parse_domain();
        self.expect_sym(Sym::Colon, "before reduction body");
        let body = self.parse_expr();
        let span = start.merge(body.span);
        Expr { kind: ExprKind::Reduction { kind, binder, domain, body: Box::new(body) }, span }
    }

    /// A reduction domain: a constraint set `{..}`, a range, or any expression.
    fn parse_domain(&mut self) -> (d: Domain)
        requires
            old(self).wf(),
        ensures
            Parser::step(*old(self), *final(self)),
            old(self).cur_kind() == TokKind::Sym(Sym::LBrace) ==> d is ConstraintSet,
            old(self).cur_kind() != TokKind::Sym(Sym::LBrace) ==> match d {
                Domain::Range(e) => e.kind is Range,
                Domain::Expr(e) => !(e.kind is Range),
                Domain::ConstraintSet(_) => false,
            },
        decreases old(self).remaining(), 18int,
    {
        if self.is_sym(Sym::LBrace) {
            self.advance();
            let mut constraints: Vec<Constraint> = Vec::new();
            while !self.is_sym(Sym::RBrace) && !self.at_eof()
                invariant
                    Parser::step(*old(self), *self),
                    self.pos > old(self).pos,
                decreases self.toks@.len() - self.pos,
            {
                constraints.push(self.parse_constraint());
                if !self.eat_sym(Sym::Comma) {
                    break;
                }
            }
            self.expect_sym(Sym::RBrace, "to close set domain");
            Domain::ConstraintSet(constraints)
        } else {
            let e = self.parse_expr();
            let is_range = match &e.kind {
                ExprKind::Range { .. } => true,
                _ => false,
            };
            if is_range {
                Domain::Range(Box::new(e))
            } else {
                Domain::Expr(Box::new(e))
            }
        }
    }

    /// A chained comparison `a <= b <= c` over additive terms.
    fn parse_constraint(&mut self) -> (c: Constraint)
        requires
            old(self).wf(),
        ensures
            Parser::step_consuming(*old(self), *final(self)),
        decreases old(self).remaining(), 17int,
    {
        let start = self.span();
        let head = self.parse_add();
        let mut parts: Vec<(CmpOp, Expr)> = Vec::new();
        loop
            invariant
                Parser::step_consuming(*old(self), *self),
            decreases self.toks@.len() - self.pos,
        {
            let op = match self.cmp_op() {
                Some(op) => op,
                None => break,
            };
            self.advance();
            let rhs = self.parse_add();
            parts.push((op, rhs));
        }
        Constraint { head, parts, span: start.merge(self.span()) }
    }

    /// The constraint operator under the cursor, if any.
    fn cmp_op(&self) -> (r: Option<CmpOp>)
        requires
            self.wf(),
        ensures
            r == cmp_op_of(self.cur_kind()),
    {
        match self.kind() {
            TokKind::Sym(Sym::EqEq) => Some(CmpOp::Eq),
            TokKind::Sym(Sym::Ne) => Some(CmpOp::Ne),
            TokKind::Sym(Sym::Lt) => Some(CmpOp::Lt),
            TokKind::Sym(Sym::Le) => Some(CmpOp::Le),
            TokKind::Sym(Sym::Gt) => Some(CmpOp::Gt),
            TokKind::Sym(Sym::Ge) => Some(CmpOp::Ge),
            _ => None,
        }
    }

    /// `match scrut:` followed by an indented block of `pat => body` arms; the
    /// cursor is on `match`.
    fn parse_match(&mut self, start: Span) -> (e: Expr)
        requires
            old(self).wf(),
            !(old(self).cur_kind() is Eof),
        ensures
            Parser::step_consuming(*old(self), *final(self)),
            e.kind is Match,
        decreases old(self).remaining(), 1int,
    {
        self.advance(); // match
        let scrut = self.parse_expr();
        self.expect_sym(Sym::Colon, "after match scrutinee");
        let mut arms: Vec<Arm> = Vec::new();
        if self.is_newline() {
            self.eat_newline();
            self.expect_indent("match body");
            while !self.is_dedent_or_eof()
                invariant
                    Parser::step(*old(self), *self),
                    self.pos > old(self).pos,
                decreases self.toks@.len() - self.pos,
            {
                if self.is_newline() {
                    self.advance();
                    continue;
                }
                let astart = self.span();
                let pat = self.parse_pattern();
                self.expect_sym(Sym::FatArrow, "in match arm");
                let body = self.parse_block();
                arms.push(Arm { pat, body, span: astart.merge(self.span()) });
            }
            self.eat_dedent();
        }
        let span = start.merge(self.span());
        Expr { kind: ExprKind::Match { scrut: Box::new(scrut), arms }, span }
    }

    /// A pattern: `_`, a variable, a constructor `C(p, ..)`, a literal, or `m + k`.
    fn parse_pattern(&mut self) -> (p: Pattern)
        requires
            old(self).wf(),
        ensures
            Parser::step_consuming(*old(self), *final(self)),
            ({
                let toks = old(self).toks@;
                let q = old(self).pos as int;
                match pattern_built(toks, q, p.kind, final(self).pos as int) {
                    Some(ok) => ok,
                    None => {
                        &&& p.kind == PatternKind::Wild
                        &&& final(self).pos == next_pos(toks, q)
                        &&& final(self).diags@.len() == old(self).diags@.len() + 1
                        &&& final(self).diags@.drop_last() == old(self).diags@
                        &&& parse_error(
                            final(self).diags@.last(),
                            toks[q].span,
                            "expected a pattern, found "@ + tok_debug_text(toks[q].kind),
                        )
                    },
                }
            }),
        decreases old(self).remaining(),
    {
        let start = self.span();
        match self.kind() {
            TokKind::Ident(name) => {
                let name = name.clone();
                self.advance();
                if string_eq_str(&name, "_") {
                    return Pattern { kind: PatternKind::Wild, span: start };
                }
                // ctor with args?
                if self.is_sym(Sym::LParen) {
                    self.advance();
                    let mut args: Vec<Pattern> = Vec::new();
                    while !self.is_sym(Sym::RParen) && !self.at_eof()
                        invariant
                            Parser::step(*old(self), *self),
                            self.pos > old(self).pos,
                        decreases self.toks@.len() - self.pos,
                    {
                        args.push(self.parse_pattern());
                        if !self.eat_sym(Sym::Comma) {
                            break;
                        }
                    }
                    self.expect_sym(Sym::RParen, "to close constructor pattern");
                    return Pattern {
                        kind: PatternKind::Ctor(name, args),
                        span: start.merge(self.span()),
                    };
                }
                // nat_succ: ident '+' int
                if self.is_sym(Sym::Plus) {
                    let n = self.toks.len();
                    assert(self.pos + 1 < n);
                    let k = match &self.toks[self.pos + 1].kind {
                        TokKind::Int(text, _) => parse_u64(text),
                        _ => None,
                    };
                    if let Some(k) = k {
                        self.advance(); // +
                        self.advance(); // int
                        return Pattern {
                            kind: PatternKind::NatSucc(name, k),
                            span: start.merge(self.span()),
                        };
                    }
                }
                let kind = if starts_uppercase(&name) {
                    PatternKind::Ctor(name, Vec::new())
                } else {
                    PatternKind::Var(name)
                };
                Pattern { kind, span: start }
            },
            TokKind::Int(text, suf) => {
                let text = text.clone();
                let suf = *suf;
                self.advance();
                Pattern { kind: PatternKind::Lit(Lit::Int(text, suf)), span: start }
            },
            TokKind::Kw(Kw::True) => {
                self.advance();
                Pattern { kind: PatternKind::Lit(Lit::Bool(true)), span: start }
            },
            TokKind::Kw(Kw::False) => {
                self.advance();
                Pattern { kind: PatternKind::Lit(Lit::Bool(false)), span: start }
            },
            _ => {
                let m = cat("expected a pattern, found ", tok_kind_debug(self.kind()).as_str());
                self.error(m);
                self.advance();
                Pattern { kind: PatternKind::Wild, span: start }
            },
        }
    }

    /// Consumes the identifier `word` (a contextual keyword such as `mut`) if it is
    /// under the cursor.
    fn eat_kw_word(&mut self, word: &str) -> (b: bool)
        requires
            old(self).wf(),
        ensures
            Parser::step(*old(self), *final(self)),
            final(self).diags@ == old(self).diags@,
            b == (old(self).cur_kind() is Ident && old(self).cur_kind()->Ident_0@ == word@),
            b ==> final(self).pos == old(self).pos + 1,
            !b ==> final(self).pos == old(self).pos,
    {
        let hit = match self.kind() {
            TokKind::Ident(s) => string_eq_str(s, word),
            _ => false,
        };
        if hit {
            self.advance();
        }
        hit
    }

    // ---- statements ----

    /// An indented block of statements, or a single expression on the same line.
    fn parse_block(&mut self) -> (b: Block)
        requires
            old(self).wf(),
        ensures
            Parser::step(*old(self), *final(self)),
            b.span == merge_spec(
                old(self).toks@[old(self).pos as int].span,
                final(self).toks@[final(self).pos as int].span,
            ),
            !(old(self).cur_kind() is Newline) ==> b.stmts@.len() == 1 && b.stmts@[0].kind is Expr,
            ({
                let toks = old(self).toks@;
                let p = old(self).pos as int;
                atom_line(toks, p) ==> final(self).pos == skip_newlines(toks, p + 1)
                    && final(self).diags@ == old(self).diags@ && (b.stmts@[0].kind matches StmtKind::Expr(
                    e,
                ) && primary_built(toks[p].kind, toks[p + 1].kind, e.kind))
            }),
            ({
                let toks = old(self).toks@;
                let p = old(self).pos as int;
                chain_from(toks, p) ==> final(self).pos == skip_newlines(toks, chain_end(toks, p))
                    && final(self).diags@ == old(self).diags@ && b.stmts@.len() == 1 && (
                b.stmts@[0].kind matches StmtKind::Expr(e) && ops_placed(
                    e,
                    toks,
                    p,
                    chain_end(toks, p),
                ))
            }),
            ({
                let toks = old(self).toks@;
                let p = old(self).pos as int;
                let i = skip_newlines(toks, p);
                block_chain(toks, p) ==> final(self).pos == block_end(toks, p) && final(self).diags@
                    == old(self).diags@ && b.stmts@.len() == 1 && (b.stmts@[0].kind matches StmtKind::Expr(
                    e,
                ) && ops_placed(e, toks, i + 1, chain_end(toks, i + 1)))
            }),
        decreases old(self).remaining(), 17int,
    {
        let start = self.span();
        if self.is_newline() {
            self.eat_newline();
            self.expect_indent("block");
            let mut stmts: Vec<Stmt> = Vec::new();
            let ghost bc = block_chain(self.toks@, old(self).pos as int);
            let ghost i = skip_newlines(self.toks@, old(self).pos as int);
            let ghost ce = chain_end(self.toks@, i + 1);
            proof {
                if bc {
                    lemma_chain_end_bound(self.toks@, i + 1);
                    lemma_skip_stops(self.toks@, ce);
                }
            }
            while !self.is_dedent_or_eof()
                invariant
                    Parser::step(*old(self), *self),
                    self.pos > old(self).pos,
                    bc == block_chain(self.toks@, old(self).pos as int),
                    i == skip_newlines(self.toks@, old(self).pos as int),
                    ce == chain_end(self.toks@, i + 1),
                    bc ==> i + 1 < ce < self.toks@.len() && skip_newlines(self.toks@, ce)
                        < self.toks@.len(),
                    bc ==> self.diags@ == old(self).diags@ && ((stmts@.len() == 0 && self.pos == i
                        + 1) || (stmts@.len() == 1 && self.pos == skip_newlines(self.toks@, ce) && (
                    stmts@[0].kind matches StmtKind::Expr(e) && ops_placed(e, self.toks@, i + 1, ce)))),
                decreases self.toks@.len() - self.pos,
            {
                if self.is_newline() {
                    self.advance();
                    continue;
                }
                stmts.push(self.parse_stmt());
            }
            self.eat_dedent();
            Block { stmts, span: start.merge(self.span()) }
        } else {
            // single-expression body
            let e = self.parse_expr();
            let span = e.span;
            self.eat_newline();
            Block { stmts: vec![Stmt { kind: StmtKind::Expr(e), span }], span: start.merge(self.span()) }
        }
    }

    /// One statement: a binding, a loop, a `return`, or an expression, which
    /// an assignment operator after it makes the target of an assignment (an
    /// error when it is no l-value).
    fn parse_stmt(&mut self) -> (st: Stmt)
        requires
            old(self).wf(),
        ensures
            Parser::step_consuming(*old(self), *final(self)),
            ({
                let toks = old(self).toks@;
                let p = old(self).pos as int;
                let q = next_pos(toks, p);
                &&& stmt_form(toks[p].kind, toks[q].kind, ident_name(toks, q), st.kind)
                &&& st.span == merge_spec(toks[p].span, toks[final(self).pos as int].span)
                &&& !(toks[p].kind == TokKind::Kw(Kw::Let) || toks[p].kind == TokKind::Kw(Kw::Var)
                    || toks[p].kind == TokKind::Kw(Kw::For) || toks[p].kind == TokKind::Kw(
                    Kw::While,
                ) || toks[p].kind == TokKind::Kw(Kw::Return)) ==> exists|e: Expr, m: int|
                    #[trigger] ops_placed(e, toks, p, m) && shaped(e, 0) && assign_built(
                        e,
                        toks[m].kind,
                        st.kind,
                    ) && (assign_op_of(toks[m].kind) is Some && lvalue_of(e) is None
                        ==> has_parse_error(final(self).diags@))
            }),
            ({
                let toks = old(self).toks@;
                let p = old(self).pos as int;
                chain_from(toks, p) ==> final(self).pos == skip_newlines(toks, chain_end(toks, p))
                    && final(self).diags@ == old(self).diags@ && (st.kind matches StmtKind::Expr(e)
                    && ops_placed(e, toks, p, chain_end(toks, p)))
            }),
        decreases old(self).remaining(), 18int,
    {
        let start = self.span();
        let kind = match self.kind() {
            TokKind::Kw(Kw::Let) => {
                self.advance();
                let pat = self.parse_pattern();
                let ty = if self.eat_sym(Sym::Colon) {
                    Some(self.parse_type())
                } else {
                    None
                };
                self.expect_sym(Sym::Eq, "in let binding");
                let init = self.parse_expr();
                StmtKind::Let { pat, ty, init }
            },
            TokKind::Kw(Kw::Var) => {
                self.advance();
                let name = self.expect_ident("after 'var'");
                self.expect_sym(Sym::Colon, "after var name");
                let ty = self.parse_type();
                self.expect_sym(Sym::Eq, "in var binding");
                let init = self.parse_expr();
                StmtKind::Var { name, ty, init }
            },
            TokKind::Kw(Kw::For) => {
                self.advance();
                let pat = self.parse_pattern();
                self.expect_kw(Kw::In, "in for loop");
                let iter = self.parse_expr();
                self.expect_sym(Sym::Colon, "before for body");
                let body = self.parse_block();
                StmtKind::For { pat, iter, body }
            },
            TokKind::Kw(Kw::While) => {
                self.advance();
                let cond = self.parse_expr();
                self.expect_sym(Sym::Colon, "before while body");
                let body = self.parse_block();
                StmtKind::While { cond, body }
            },
            TokKind::Kw(Kw::Return) => {
                self.advance();
                if self.is_newline() || self.is_dedent_or_eof() {
                    StmtKind::Return(None)
                } else {
                    StmtKind::Return(Some(self.parse_expr()))
                }
            },
            _ => {
                let e = self.parse_expr();
                let ghost e0 = e;
                let ghost m = self.pos as int;
                let k = match self.assign_op() {
                    Some(op) => {
                        self.advance();
                        let rhs = self.parse_expr();
                        match expr_to_lvalue(e) {
                            Ok(lhs) => StmtKind::Assign { lhs, op, rhs },
                            Err(e) => {
                                self.error(
                                    str_to_string("left-hand side of assignment is not an l-value"),
                                );
                                proof {
                                    let d = self.diags@[self.diags@.len() - 1];
                                    assert(d.severity == Severity::Error && d.code
                                        == DiagCode::Parse);
                                }
                                StmtKind::Expr(e)
                            },
                        }
                    },
                    None => StmtKind::Expr(e),
                };
                proof {
                    assert(ops_placed(e0, self.toks@, old(self).pos as int, m));
                    assert(assign_built(e0, self.toks@[m].kind, k));
                    if chain_from(self.toks@, old(self).pos as int) {
                        lemma_chain_end_bound(self.toks@, old(self).pos as int);
                        assert(m == chain_end(self.toks@, old(self).pos as int));
                        assert(k == StmtKind::Expr(e0));
                    }
                }
                k
            },
        };
        self.eat_newline();
        Stmt { kind, span: start.merge(self.span()) }
    }

    /// The assignment operator under the cursor, if any.
    fn assign_op(&self) -> (r: Option<AssignOp>)
        requires
            self.wf(),
        ensures
            r == assign_op_of(self.cur_kind()),
    {
        match self.kind() {
            TokKind::Sym(Sym::Eq) => Some(AssignOp::Eq),
            TokKind::Sym(Sym::PlusEq) => Some(AssignOp::Add),
            TokKind::Sym(Sym::MinusEq) => Some(AssignOp::Sub),
            TokKind::Sym(Sym::StarEq) => Some(AssignOp::Mul),
            TokKind::Sym(Sym::SlashEq) => Some(AssignOp::Div),
            TokKind::Sym(Sym::PercentEq) => Some(AssignOp::Rem),
            TokKind::Sym(Sym::CaretEq) => Some(AssignOp::Xor),
            TokKind::Sym(Sym::AmpEq) => Some(AssignOp::And),
            TokKind::Sym(Sym::PipeEq) => Some(AssignOp::Or),
            _ => None,
        }
    }

    // ---- types ----

    fn parse_type(&mut self) -> (t: Type)
        requires
            old(self).wf(),
        ensures
            Parser::step(*old(self), *final(self)),
            plain_type(old(self).toks@, old(self).pos as int) ==> final(self).pos == old(self).pos
                + plain_type_len(old(self).toks@, old(self).pos as int) && final(self).diags@ == old(
                self,
            ).diags@,
            ({
                let toks = old(self).toks@;
                let p = old(self).pos as int;
                let k = toks[p].kind;
                let name = ident_name(toks, p);
                &&& t.span == merge_spec(toks[p].span, toks[final(self).pos as int].span)
                &&& k == TokKind::Sym(Sym::Amp) ==> (t.kind matches TypeKind::Ref { mutable, .. }
                    && mutable == (toks[p + 1].kind is Ident && toks[p + 1].kind->Ident_0@
                    == "mut"@))
                &&& k == TokKind::Kw(Kw::Own) ==> t.kind is Own
                &&& k == TokKind::Kw(Kw::Secret) ==> t.kind is Secret
                &&& k == TokKind::Sym(Sym::LBrace) ==> (t.kind matches TypeKind::Refine {
                    var,
                    base,
                    ..
                } && var@ == ident_name(toks, p + 1) && base == refine_base(toks, p))
                &&& named_type_start(k) ==> if name == "mod"@ {
                    t.kind matches TypeKind::Base(BaseType::Mod(_))
                } else if name == "bv"@ {
                    t.kind matches TypeKind::Base(BaseType::Bv(_))
                } else if toks[ident_end(toks, p)].kind == TokKind::Sym(Sym::LBracket) {
                    t.kind matches TypeKind::App(nm, _) && nm@ == name
                } else {
                    match base_type_spec(name) {
                        Some(b) => t.kind == TypeKind::Base(b),
                        None => t.kind matches TypeKind::App(nm, args) && nm@ == name && args@.len()
                            == 0,
                    }
                }
            }),
        decreases old(self).remaining(), 17int,
    {
        proof {
            reveal_strlit("mod");
            reveal_strlit("bv");
            reveal_strlit("<error>");
        }
        let start = self.span();
        // ref types
        if self.eat_sym(Sym::Amp) {
            let mutable = self.eat_kw_word("mut");
            let inner = Box::new(self.parse_type());
            return Type { kind: TypeKind::Ref { mutable, inner }, span: start.merge(self.span()) };
        }
        if self.eat_kw(Kw::Own) {
            let inner = Box::new(self.parse_type());
            return Type { kind: TypeKind::Own(inner), span: start.merge(self.span()) };
        }
        if self.eat_kw(Kw::Secret) {
            self.expect_sym(Sym::LBracket, "after 'secret'");
            let inner = Box::new(self.parse_type());
            self.expect_sym(Sym::RBracket, "to close secret[...]");
            return Type { kind: TypeKind::Secret(inner), span: start.merge(self.span()) };
        }
        if self.is_sym(Sym::LBrace) {
            return self.parse_refinement(start);
        }
        // app_type / base_type
        let name = self.expect_ident("in type");
        // mod[q] / bv[n] base types
        let is_mod = string_eq_str(&name, "mod");
        if is_mod || string_eq_str(&name, "bv") {
            let ctx = if is_mod {
                "after 'mod'"
            } else {
                "after 'bv'"
            };
            self.expect_sym(Sym::LBracket, ctx);
            let e = self.parse_expr();
            self.expect_sym(Sym::RBracket, "to close type index");
            let base = if is_mod {
                BaseType::Mod(Box::new(e))
            } else {
                BaseType::Bv(Box::new(e))
            };
            return Type { kind: TypeKind::Base(base), span: start.merge(self.span()) };
        }
        // type args?
        if self.is_sym(Sym::LBracket) {
            self.advance();
            let mut args: Vec<TypeArg> = Vec::new();
            while !self.is_sym(Sym::RBracket) && !self.at_eof()
                invariant
                    Parser::step(*old(self), *self),
                    self.pos > old(self).pos,
                decreases self.toks@.len() - self.pos,
            {
                args.push(self.parse_type_arg());
                if !self.eat_sym(Sym::Comma) {
                    break;
                }
            }
            self.expect_sym(Sym::RBracket, "to close type arguments");
            return Type { kind: TypeKind::App(name, args), span: start.merge(self.span()) };
        }
        // bare base type or nullary user type
        let kind = match base_type_of(&name) {
            Some(b) => TypeKind::Base(b),
            None => TypeKind::App(name, Vec::new()),
        };
        Type { kind, span: start.merge(self.span()) }
    }

    /// `{ var : base | pred }`; the cursor is on `{`.
    fn parse_refinement(&mut self, start: Span) -> (t: Type)
        requires
            old(self).wf(),
            !(old(self).cur_kind() is Eof),
        ensures
            Parser::step(*old(self), *final(self)),
            t.span == merge_spec(start, final(self).toks@[final(self).pos as int].span),
            t.kind matches TypeKind::Refine { var, base, .. } && var@ == ident_name(
                old(self).toks@,
                old(self).pos + 1,
            ) && base == refine_base(old(self).toks@, old(self).pos as int),
        decreases old(self).remaining(), 1int,
    {
        self.advance(); // {
        let var = self.expect_ident("in refinement");
        self.expect_sym(Sym::Colon, "in refinement");
        let base_name = self.expect_ident("base type in refinement");
        let base = match base_type_of(&base_name) {
            Some(b) => b,
            None => BaseType::Int,
        };
        self.expect_sym(Sym::Pipe, "in refinement (| predicate)");
        let pred = Box::new(self.parse_expr());
        self.expect_sym(Sym::RBrace, "to close refinement");
        Type { kind: TypeKind::Refine { var, base, pred }, span: start.merge(self.span()) }
    }

    /// A type argument: integer literals and lowercase non-base names are
    /// type-level terms; base names, uppercase names, `&`, `secret`, `{` start types.
    fn parse_type_arg(&mut self) -> (a: TypeArg)
        requires
            old(self).wf(),
        ensures
            Parser::step(*old(self), *final(self)),
            a is Ty == type_arg_is_type(old(self).cur_kind()),
        decreases old(self).remaining(), 18int,
    {
        let as_type = match self.kind() {
            TokKind::Int(..) | TokKind::Sym(Sym::Minus) => false,
            TokKind::Ident(name) => {
                let is_base = base_type_of(name).is_some() || string_eq_str(name, "mod")
                    || string_eq_str(name, "bv");
                is_base || starts_uppercase(name)
            },
            _ => true,
        };
        if as_type {
            TypeArg::Ty(self.parse_type())
        } else {
            TypeArg::Term(self.parse_expr())
        }
    }

    fn expect_indent(&mut self, ctx: &str)
        requires
            old(self).wf(),
        ensures
            Parser::step(*old(self), *final(self)),
            old(self).cur_kind() is Indent ==> final(self).pos == old(self).pos + 1
                && final(self).diags@ == old(self).diags@,
            !(old(self).cur_kind() is Indent) ==> final(self).pos == old(self).pos
                && has_error(final(self).diags@),
    {
        match self.kind() {
            TokKind::Indent => self.advance(),
            _ => {
                let m = cat("expected an indented block for ", ctx);
                self.error(m);
            },
        }
    }

    fn eat_dedent(&mut self)
        requires
            old(self).wf(),
        ensures
            Parser::step(*old(self), *final(self)),
            final(self).diags@ == old(self).diags@,
            final(self).pos == (if old(self).cur_kind() is Dedent {
                old(self).pos + 1
            } else {
                old(self).pos as int
            }),
    {
        match self.kind() {
            TokKind::Dedent => self.advance(),
            _ => {},
        }
    }
}

/// The comparison operator a token stands for in a constraint.
pub open spec fn cmp_op_of(k: TokKind) -> Option<CmpOp> {
    match k {
        TokKind::Sym(Sym::EqEq) => Some(CmpOp::Eq),
        TokKind::Sym(Sym::Ne) => Some(CmpOp::Ne),
        TokKind::Sym(Sym::Lt) => Some(CmpOp::Lt),
        TokKind::Sym(Sym::Le) => Some(CmpOp::Le),
        TokKind::Sym(Sym::Gt) => Some(CmpOp::Gt),
        TokKind::Sym(Sym::Ge) => Some(CmpOp::Ge),
        _ => None,
    }
}

/// The comparison operator a token stands for in an expression.
pub open spec fn cmp_binop_of(k: TokKind) -> Option<BinOp> {
    match k {
        TokKind::Sym(Sym::EqEq) => Some(BinOp::Eq),
        TokKind::Sym(Sym::Ne) => Some(BinOp::Ne),
        TokKind::Sym(Sym::Lt) => Some(BinOp::Lt),
        TokKind::Sym(Sym::Le) => Some(BinOp::Le),
        TokKind::Sym(Sym::Gt) => Some(BinOp::Gt),
        TokKind::Sym(Sym::Ge) => Some(BinOp::Ge),
        _ => None,
    }
}

/// The binary expression `l op r`, spanning both operands.
fn bin(op: BinOp, l: Expr, r: Expr) -> (e: Expr)
    ensures
        e.kind == ExprKind::Bin(op, Box::new(l), Box::new(r)),
        e.span == crate::span::merge_spec(l.span, r.span),
{
    let span = l.span.merge(r.span);
    Expr { kind: ExprKind::Bin(op, Box::new(l), Box::new(r)), span }
}

/// The literal expression `l` at `span`.
fn lit(l: Lit, span: Span) -> (e: Expr)
    ensures
        e.kind == ExprKind::Lit(l),
        e.span == span,
{
    Expr { kind: ExprKind::Lit(l), span }
}

/// The assignment operator a token stands for.
pub open spec fn assign_op_of(k: TokKind) -> Option<AssignOp> {
    match k {
        TokKind::Sym(Sym::Eq) => Some(AssignOp::Eq),
        TokKind::Sym(Sym::PlusEq) => Some(AssignOp::Add),
        TokKind::Sym(Sym::MinusEq) => Some(AssignOp::Sub),
        TokKind::Sym(Sym::StarEq) => Some(AssignOp::Mul),
        TokKind::Sym(Sym::SlashEq) => Some(AssignOp::Div),
        TokKind::Sym(Sym::PercentEq) => Some(AssignOp::Rem),
        TokKind::Sym(Sym::CaretEq) => Some(AssignOp::Xor),
        TokKind::Sym(Sym::AmpEq) => Some(AssignOp::And),
        TokKind::Sym(Sym::PipeEq) => Some(AssignOp::Or),
        _ => None,
    }
}

/// The l-value an expression denotes: a variable, or an index or field of an
/// l-value, seen through parentheses.
pub open spec fn lvalue_of(e: Expr) -> Option<LValue>
    decreases e,
{
    match e.kind {
        ExprKind::Var(n) => Some(LValue::Var(n)),
        ExprKind::Index(base, idx) => match lvalue_of(*base) {
            Some(lv) => Some(LValue::Index(Box::new(lv), idx)),
            None => None,
        },
        ExprKind::Field(base, f) => match lvalue_of(*base) {
            Some(lv) => Some(LValue::Field(Box::new(lv), f)),
            None => None,
        },
        ExprKind::Paren(inner) => lvalue_of(*inner),
        _ => None,
    }
}

/// Converts an expression to the l-value it denotes, or hands it back unchanged.
fn expr_to_lvalue(e: Expr) -> (r: Result<LValue, Expr>)
    ensures
        match r {
            Ok(lv) => lvalue_of(e) == Some(lv),
            Err(back) => lvalue_of(e) is None && back == e,
        },
    decreases e,
{
    let ghost e0 = e;
    let Expr { kind, span } = e;
    match kind {
        ExprKind::Var(n) => Ok(LValue::Var(n)),
        ExprKind::Index(base, idx) => match expr_to_lvalue(*base) {
            Ok(lv) => Ok(LValue::Index(Box::new(lv), idx)),
            Err(b) => Err(Expr { kind: ExprKind::Index(Box::new(b), idx), span }),
        },
        ExprKind::Field(base, f) => match expr_to_lvalue(*base) {
            Ok(lv) => Ok(LValue::Field(Box::new(lv), f)),
            Err(b) => Err(Expr { kind: ExprKind::Field(Box::new(b), f), span }),
        },
        ExprKind::Paren(inner) => match expr_to_lvalue(*inner) {
            Ok(lv) => Ok(lv),
            Err(b) => Err(Expr { kind: ExprKind::Paren(Box::new(b)), span }),
        },
        other => Err(Expr { kind: other, span }),
    }
}

/// The digits of a binary literal `0b...`, if `s` is one.
fn strip_binary_prefix(s: &String) -> (r: Option<String>)
    ensures
        match r {
            Some(t) => s@.len() >= 2 && s@[0] == '0' && s@[1] == 'b' && t@ == s@.skip(2),
            None => !(s@.len() >= 2 && s@[0] == '0' && s@[1] == 'b'),
        },
{
    let cs = str_chars(s.as_str());
    if cs.len() >= 2 && cs[0] == '0' && cs[1] == 'b' {
        let mut t = String::new();
        let mut i: usize = 2;
        while i < cs.len()
            invariant
                cs@ == s@,
                2 <= i <= cs@.len(),
                t@ == cs@.subrange(2, i as int),
            decreases cs.len() - i,
        {
            crate::text::push_char(&mut t, cs[i]);
            i = i + 1;
            assert(t@ =~= cs@.subrange(2, i as int));
        }
        assert(t@ =~= s@.skip(2));
        Some(t)
    } else {
        None
    }
}

/// Whether `name` begins with an uppercase letter.
fn starts_uppercase(name: &String) -> (b: bool)
    ensures
        b == (name@.len() > 0 && crate::text::unicode_uppercase(name@[0])),
{
    let cs = str_chars(name.as_str());
    cs.len() > 0 && is_uppercase(cs[0])
}

/// The value of a run of decimal digits.
pub open spec fn digits_value(ds: Seq<char>) -> nat
    decreases ds.len(),
{
    if ds.len() == 0 {
        0
    } else {
        digits_value(ds.drop_last()) * 10 + ((ds.last() as u32) - ('0' as u32)) as nat
    }
}

/// The digit part of an unsigned decimal: the text after an optional `+`.
pub open spec fn unsigned_digits(cs: Seq<char>) -> Seq<char> {
    if cs.len() > 0 && cs[0] == '+' {
        cs.drop_first()
    } else {
        cs
    }
}

/// Every character is an ASCII digit.
pub open spec fn all_ascii_digits(ds: Seq<char>) -> bool {
    forall|i: int| 0 <= i < ds.len() ==> crate::text::ascii_digit(#[trigger] ds[i])
}

/// What `str::parse::<u64>` gives: an optional `+`, then one or more ASCII
/// digits whose value fits in a `u64`.
pub open spec fn u64_parse_spec(cs: Seq<char>) -> Option<u64> {
    let ds = unsigned_digits(cs);
    if ds.len() > 0 && all_ascii_digits(ds) && digits_value(ds) <= u64::MAX {
        Some(digits_value(ds) as u64)
    } else {
        None
    }
}

proof fn lemma_digits_value_grows(ds: Seq<char>, i: int, j: int)
    requires
        0 <= i <= j <= ds.len(),
        forall|k: int| 0 <= k < ds.len() ==> crate::text::ascii_digit(#[trigger] ds[k]),
    ensures
        digits_value(ds.take(i)) <= digits_value(ds.take(j)),
    decreases j - i,
{
    if i < j {
        lemma_digits_value_grows(ds, i, j - 1);
        assert(ds.take(j).drop_last() =~= ds.take(j - 1));
    }
}

/// Parses an unsigned decimal as `str::parse::<u64>` does.
fn parse_u64(s: &String) -> (r: Option<u64>)
    ensures
        r == u64_parse_spec(s@),
{
    let cs = str_chars(s.as_str());
    let start: usize = if cs.len() > 0 && cs[0] == '+' {
        1
    } else {
        0
    };
    let ghost ds = cs@.skip(start as int);
    proof {
        if cs@.len() > 0 && cs@[0] == '+' {
            assert(ds =~= cs@.drop_first());
        } else {
            assert(ds =~= cs@);
        }
    }
    if start >= cs.len() {
        assert(ds.len() == 0);
        return None;
    }
    let mut i: usize = start;
    while i < cs.len()
        invariant
            cs@ == s@,
            start <= i <= cs@.len(),
            ds == cs@.skip(start as int),
            ds == unsigned_digits(cs@),
            forall|k: int| 0 <= k < i - start ==> crate::text::ascii_digit(#[trigger] ds[k]),
        decreases cs.len() - i,
    {
        if !crate::text::is_ascii_digit(cs[i]) {
            assert(ds[i - start] == cs@[i as int]);
            assert(!crate::text::ascii_digit(ds[i - start]));
            assert(!all_ascii_digits(ds));
            return None;
        }
        assert(ds[i - start] == cs@[i as int]);
        i = i + 1;
    }
    let mut v: u64 = 0;
    let mut i: usize = start;
    while i < cs.len()
        invariant
            cs@ == s@,
            start <= i <= cs@.len(),
            ds == cs@.skip(start as int),
            ds == unsigned_digits(cs@),
            ds.len() == cs@.len() - start,
            forall|k: int| 0 <= k < ds.len() ==> crate::text::ascii_digit(#[trigger] ds[k]),
            v == digits_value(ds.take(i - start)),
        decreases cs.len() - i,
    {
        let k: usize = i - start;
        assert(ds[k as int] == cs@[i as int]);
        assert(crate::text::ascii_digit(ds[k as int]));
        let d = (cs[i] as u32 - '0' as u32) as u64;
        assert(ds.take(k + 1).drop_last() =~= ds.take(k as int));
        assert(ds.take(k + 1).last() == cs@[i as int]);
        assert(digits_value(ds.take(k + 1)) == v * 10 + d);
        let next = match v.checked_mul(10) {
            Some(m) => m.checked_add(d),
            None => None,
        };
        match next {
            Some(nv) => {
                v = nv;
            },
            None => {
                proof {
                    lemma_digits_value_grows(ds, k + 1, ds.len() as int);
                    assert(ds.take(ds.len() as int) =~= ds);
                }
                return None;
            },
        }
        i = i + 1;
    }
    assert(ds.take(ds.len() as int) =~= ds);
    Some(v)
}

/// The base type a type name stands for, if any.
pub open spec fn base_type_spec(name: Seq<char>) -> Option<BaseType> {
    if name == "i8"@ {
        Some(BaseType::I(8))
    } else if name == "i16"@ {
        Some(BaseType::I(16))
    } else if name == "i32"@ {
        Some(BaseType::I(32))
    } else if name == "i64"@ {
        Some(BaseType::I(64))
    } else if name == "u8"@ {
        Some(BaseType::U(8))
    } else if name == "u16"@ {
        Some(BaseType::U(16))
    } else if name == "u32"@ {
        Some(BaseType::U(32))
    } else if name == "u64"@ {
        Some(BaseType::U(64))
    } else if name == "int"@ {
        Some(BaseType::Int)
    } else if name == "nat"@ {
        Some(BaseType::Nat)
    } else if name == "rat"@ {
        Some(BaseType::Rat)
    } else if name == "bool"@ {
        Some(BaseType::Bool)
    } else if name == "char"@ {
        Some(BaseType::Char)
    } else if name == "str"@ {
        Some(BaseType::Str)
    } else if name == "f32"@ {
        Some(BaseType::F32)
    } else if name == "f64"@ {
        Some(BaseType::F64)
    } else if name == "Vec"@ {
        Some(BaseType::Vec)
    } else if name == "Fin"@ {
        Some(BaseType::Fin)
    } else if name == "Mat"@ {
        Some(BaseType::Mat)
    } else {
        None
    }
}

/// The base type named `name`, if any.
fn base_type_of(name: &String) -> (r: Option<BaseType>)
    ensures
        r == base_type_spec(name@),
{
    let cs = str_chars(name.as_str());
    let cs = cs.as_slice();
    if chars_eq_str(cs, "i8") {
        Some(BaseType::I(8))
    } else if chars_eq_str(cs, "i16") {
        Some(BaseType::I(16))
    } else if chars_eq_str(cs, "i32") {
        Some(BaseType::I(32))
    } else if chars_eq_str(cs, "i64") {
        Some(BaseType::I(64))
    } else if chars_eq_str(cs, "u8") {
        Some(BaseType::U(8))
    } else if chars_eq_str(cs, "u16") {
        Some(BaseType::U(16))
    } else if chars_eq_str(cs, "u32") {
        Some(BaseType::U(32))
    } else if chars_eq_str(cs, "u64") {
        Some(BaseType::U(64))
    } else if chars_eq_str(cs, "int") {
        Some(BaseType::Int)
    } else if chars_eq_str(cs, "nat") {
        Some(BaseType::Nat)
    } else if chars_eq_str(cs, "rat") {
        Some(BaseType::Rat)
    } else if chars_eq_str(cs, "bool") {
        Some(BaseType::Bool)
    } else if chars_eq_str(cs, "char") {
        Some(BaseType::Char)
    } else if chars_eq_str(cs, "str") {
        Some(BaseType::Str)
    } else if chars_eq_str(cs, "f32") {
        Some(BaseType::F32)
    } else if chars_eq_str(cs, "f64") {
        Some(BaseType::F64)
    } else if chars_eq_str(cs, "Vec") {
        Some(BaseType::Vec)
    } else if chars_eq_str(cs, "Fin") {
        Some(BaseType::Fin)
    } else if chars_eq_str(cs, "Mat") {
        Some(BaseType::Mat)
    } else {
        None
    }
}

} // verus!
