//! Lexer with Python-style layout.
//!
//! Synthesises `Indent` / `Dedent` / `Newline` tokens from indentation. Spaces
//! only (tabs are an error). Newlines inside brackets `()[]{}` are joined
//! (implicit continuation). Comments `# ...` run to end of line. Diagnostics are
//! collected; the lexer never panics on user input.

use vstd::prelude::*;
use crate::ast::NumSuffix;
use crate::span::{any_error, has_error, lemma_error_kept, DiagCode, Diagnostic, Severity, Span};
use crate::text::{
    ascii_digit, char_len_utf8, chars_eq_str, debug_char, is_alphabetic, is_alphanumeric,
    is_ascii_digit, lemma_utf8_prefix, push_char, push_str, str_chars, str_to_string,
    string_from_chars, unicode_alphabetic, unicode_numeric,
};

verus! {

#[derive(Clone, Copy, Debug, PartialEq, Eq, Structural)]
pub enum Keyword {
    Module,
    Import,
    Total,
    Fn,
    Data,
    Codata,
    Type,
    Const,
    Let,
    Var,
    For,
    While,
    Return,
    Match,
    In,
    And,
    Or,
    Not,
    Own,
    Move,
    Secret,
    True,
    False,
    IO,
    Div,
    Alloc,
    Rand,
    Unsafe,
    Sum,
    Prod,
    Count,
    Fold,
}

#[derive(Clone, Copy, Debug, PartialEq, Eq, Structural)]
pub enum Sym {
    LParen,
    RParen,
    LBracket,
    RBracket,
    LBrace,
    RBrace,
    Colon,
    Comma,
    Dot,
    DotDot,
    DotDotEq,
    Arrow,
    FatArrow,
    At,
    Eq,
    EqEq,
    Ne,
    Lt,
    Le,
    Gt,
    Ge,
    Plus,
    Minus,
    Star,
    StarStar,
    Slash,
    SlashSlash,
    Percent,
    Caret,
    Amp,
    Pipe,
    Shl,
    Shr,
    Tilde,
    PlusEq,
    MinusEq,
    StarEq,
    SlashEq,
    PercentEq,
    CaretEq,
    AmpEq,
    PipeEq,
}

#[derive(Clone, Debug, PartialEq, Eq)]
pub enum TokKind {
    Ident(String),
    Int(String, Option<NumSuffix>),
    Float(String),
    Str(String),
    Char(char),
    Kw(Keyword),
    Sym(Sym),
    Indent,
    Dedent,
    Newline,
    Eof,
}

#[derive(Clone, Debug, PartialEq, Eq)]
pub struct Token {
    pub kind: TokKind,
    pub span: Span,
}

/// The source text of a keyword.
pub open spec fn kw_text(k: Keyword) -> Seq<char> {
    match k {
        Keyword::Module => seq!['m', 'o', 'd', 'u', 'l', 'e'],
        Keyword::Import => seq!['i', 'm', 'p', 'o', 'r', 't'],
        Keyword::Total => seq!['t', 'o', 't', 'a', 'l'],
        Keyword::Fn => seq!['f', 'n'],
        Keyword::Data => seq!['d', 'a', 't', 'a'],
        Keyword::Codata => seq!['c', 'o', 'd', 'a', 't', 'a'],
        Keyword::Type => seq!['t', 'y', 'p', 'e'],
        Keyword::Const => seq!['c', 'o', 'n', 's', 't'],
        Keyword::Let => seq!['l', 'e', 't'],
        Keyword::Var => seq!['v', 'a', 'r'],
        Keyword::For => seq!['f', 'o', 'r'],
        Keyword::While => seq!['w', 'h', 'i', 'l', 'e'],
        Keyword::Return => seq!['r', 'e', 't', 'u', 'r', 'n'],
        Keyword::Match => seq!['m', 'a', 't', 'c', 'h'],
        Keyword::In => seq!['i', 'n'],
        Keyword::And => seq!['a', 'n', 'd'],
        Keyword::Or => seq!['o', 'r'],
        Keyword::Not => seq!['n', 'o', 't'],
        Keyword::Own => seq!['o', 'w', 'n'],
        Keyword::Move => seq!['m', 'o', 'v', 'e'],
        Keyword::Secret => seq!['s', 'e', 'c', 'r', 'e', 't'],
        Keyword::True => seq!['t', 'r', 'u', 'e'],
        Keyword::False => seq!['f', 'a', 'l', 's', 'e'],
        Keyword::IO => seq!['I', 'O'],
        Keyword::Div => seq!['D', 'i', 'v'],
        Keyword::Alloc => seq!['A', 'l', 'l', 'o', 'c'],
        Keyword::Rand => seq!['R', 'a', 'n', 'd'],
        Keyword::Unsafe => seq!['U', 'n', 's', 'a', 'f', 'e'],
        Keyword::Sum => seq!['s', 'u', 'm'],
        Keyword::Prod => seq!['p', 'r', 'o', 'd'],
        Keyword::Count => seq!['c', 'o', 'u', 'n', 't'],
        Keyword::Fold => seq!['f', 'o', 'l', 'd'],
    }
}

/// Reverse map: a keyword's source text. Used where keywords double as contextual
/// identifiers (module path segments like `core.fold`, field names).
pub fn keyword_str(k: Keyword) -> (s: &'static str)
    ensures
        s@ == kw_text(k),
{
    match k {
        Keyword::Module => {
            proof { reveal_strlit("module"); }
            "module"
        }
        Keyword::Import => {
            proof { reveal_strlit("import"); }
            "import"
        }
        Keyword::Total => {
            proof { reveal_strlit("total"); }
            "total"
        }
        Keyword::Fn => {
            proof { reveal_strlit("fn"); }
            "fn"
        }
        Keyword::Data => {
            proof { reveal_strlit("data"); }
            "data"
        }
        Keyword::Codata => {
            proof { reveal_strlit("codata"); }
            "codata"
        }
        Keyword::Type => {
            proof { reveal_strlit("type"); }
            "type"
        }
        Keyword::Const => {
            proof { reveal_strlit("const"); }
            "const"
        }
        Keyword::Let => {
            proof { reveal_strlit("let"); }
            "let"
        }
        Keyword::Var => {
            proof { reveal_strlit("var"); }
            "var"
        }
        Keyword::For => {
            proof { reveal_strlit("for"); }
            "for"
        }
        Keyword::While => {
            proof { reveal_strlit("while"); }
            "while"
        }
        Keyword::Return => {
            proof { reveal_strlit("return"); }
            "return"
        }
        Keyword::Match => {
            proof { reveal_strlit("match"); }
            "match"
        }
        Keyword::In => {
            proof { reveal_strlit("in"); }
            "in"
        }
        Keyword::And => {
            proof { reveal_strlit("and"); }
            "and"
        }
        Keyword::Or => {
            proof { reveal_strlit("or"); }
            "or"
        }
        Keyword::Not => {
            proof { reveal_strlit("not"); }
            "not"
        }
        Keyword::Own => {
            proof { reveal_strlit("own"); }
            "own"
        }
        Keyword::Move => {
            proof { reveal_strlit("move"); }
            "move"
        }
        Keyword::Secret => {
            proof { reveal_strlit("secret"); }
            "secret"
        }
        Keyword::True => {
            proof { reveal_strlit("true"); }
            "true"
        }
        Keyword::False => {
            proof { reveal_strlit("false"); }
            "false"
        }
        Keyword::IO => {
            proof { reveal_strlit("IO"); }
            "IO"
        }
        Keyword::Div => {
            proof { reveal_strlit("Div"); }
            "Div"
        }
        Keyword::Alloc => {
            proof { reveal_strlit("Alloc"); }
            "Alloc"
        }
        Keyword::Rand => {
            proof { reveal_strlit("Rand"); }
            "Rand"
        }
        Keyword::Unsafe => {
            proof { reveal_strlit("Unsafe"); }
            "Unsafe"
        }
        Keyword::Sum => {
            proof { reveal_strlit("sum"); }
            "sum"
        }
        Keyword::Prod => {
            proof { reveal_strlit("prod"); }
            "prod"
        }
        Keyword::Count => {
            proof { reveal_strlit("count"); }
            "count"
        }
        Keyword::Fold => {
            proof { reveal_strlit("fold"); }
            "fold"
        }
    }
}

/// Distinct keywords are spelled differently, so a keyword's text names it back:
/// looking up `keyword_str(k)` gives `k` again.
pub proof fn lemma_kw_text_injective(a: Keyword, b: Keyword)
    ensures
        kw_text(a) == kw_text(b) ==> a == b,
{
    if kw_text(a) == kw_text(b) {
        assert(kw_text(a).len() == kw_text(b).len());
        assert(kw_text(a)[0] == kw_text(b)[0]);
        assert(kw_text(a)[1] == kw_text(b)[1]);
        if kw_text(a).len() > 2 {
            assert(kw_text(a)[2] == kw_text(b)[2]);
        }
        if kw_text(a).len() > 3 {
            assert(kw_text(a)[3] == kw_text(b)[3]);
        }
    }
}

/// Every keyword, in declaration order.
fn all_keywords() -> (v: Vec<Keyword>)
    ensures
        forall|k: Keyword| v@.contains(k),
{
    let v = vec![
        Keyword::Module, Keyword::Import, Keyword::Total, Keyword::Fn, Keyword::Data, Keyword::Codata, Keyword::Type, Keyword::Const, Keyword::Let, Keyword::Var, Keyword::For, Keyword::While, Keyword::Return, Keyword::Match, Keyword::In, Keyword::And, Keyword::Or, Keyword::Not, Keyword::Own, Keyword::Move, Keyword::Secret, Keyword::True, Keyword::False, Keyword::IO, Keyword::Div, Keyword::Alloc, Keyword::Rand, Keyword::Unsafe, Keyword::Sum, Keyword::Prod, Keyword::Count, Keyword::Fold,
    ];
    assert forall|k: Keyword| v@.contains(k) by {
        match k {
            Keyword::Module => assert(v@[0] == k),
            Keyword::Import => assert(v@[1] == k),
            Keyword::Total => assert(v@[2] == k),
            Keyword::Fn => assert(v@[3] == k),
            Keyword::Data => assert(v@[4] == k),
            Keyword::Codata => assert(v@[5] == k),
            Keyword::Type => assert(v@[6] == k),
            Keyword::Const => assert(v@[7] == k),
            Keyword::Let => assert(v@[8] == k),
            Keyword::Var => assert(v@[9] == k),
            Keyword::For => assert(v@[10] == k),
            Keyword::While => assert(v@[11] == k),
            Keyword::Return => assert(v@[12] == k),
            Keyword::Match => assert(v@[13] == k),
            Keyword::In => assert(v@[14] == k),
            Keyword::And => assert(v@[15] == k),
            Keyword::Or => assert(v@[16] == k),
            Keyword::Not => assert(v@[17] == k),
            Keyword::Own => assert(v@[18] == k),
            Keyword::Move => assert(v@[19] == k),
            Keyword::Secret => assert(v@[20] == k),
            Keyword::True => assert(v@[21] == k),
            Keyword::False => assert(v@[22] == k),
            Keyword::IO => assert(v@[23] == k),
            Keyword::Div => assert(v@[24] == k),
            Keyword::Alloc => assert(v@[25] == k),
            Keyword::Rand => assert(v@[26] == k),
            Keyword::Unsafe => assert(v@[27] == k),
            Keyword::Sum => assert(v@[28] == k),
            Keyword::Prod => assert(v@[29] == k),
            Keyword::Count => assert(v@[30] == k),
            Keyword::Fold => assert(v@[31] == k),
        }
    }
    v
}

/// The keyword spelled by `s`, if any.
fn keyword_of(s: &[char]) -> (r: Option<Keyword>)
    ensures
        r matches Some(k) ==> kw_text(k) == s@,
        r is None ==> forall|k: Keyword| kw_text(k) != s@,
{
    let all = all_keywords();
    let mut i: usize = 0;
    while i < all.len()
        invariant
            i <= all.len(),
            forall|k: Keyword| all@.contains(k),
            forall|j: int| 0 <= j < i ==> kw_text(#[trigger] all@[j]) != s@,
        decreases all.len() - i,
    {
        let k = all[i];
        if chars_eq_str(s, keyword_str(k)) {
            return Some(k);
        }
        i = i + 1;
    }
    assert forall|k: Keyword| kw_text(k) != s@ by {
        assert(all@.contains(k));
        let j = choose|j: int| 0 <= j < all@.len() && all@[j] == k;
        assert(kw_text(all@[j]) != s@);
    }
    None
}

// ---- token streams ----

/// How a token changes the layout depth: `Indent` opens a level, `Dedent` closes one.
pub open spec fn layout_delta(k: TokKind) -> int {
    match k {
        TokKind::Indent => 1,
        TokKind::Dedent => -1,
        _ => 0,
    }
}

/// Net layout depth after a token sequence (`Indent`s minus `Dedent`s).
pub open spec fn layout_balance(toks: Seq<Token>) -> int
    decreases toks.len(),
{
    if toks.len() == 0 {
        0
    } else {
        layout_balance(toks.drop_last()) + layout_delta(toks.last().kind)
    }
}

proof fn lemma_balance_push(toks: Seq<Token>, t: Token)
    ensures
        layout_balance(toks.push(t)) == layout_balance(toks) + layout_delta(t.kind),
{
    assert(toks.push(t).drop_last() =~= toks);
}

/// Some diagnostic of `ds` is a layout error.
pub open spec fn has_layout_error(ds: Seq<Diagnostic>) -> bool {
    exists|i: int|
        0 <= i < ds.len() && #[trigger] ds[i].severity == Severity::Error && ds[i].code
            == DiagCode::Layout
}

/// An error stays recorded as diagnostics are added.
broadcast proof fn lemma_error_survives(a: Seq<Diagnostic>, b: Seq<Diagnostic>)
    requires
        has_error(a),
    ensures
        #[trigger] a.is_prefix_of(b) ==> has_error(b),
{
    if a.is_prefix_of(b) {
        lemma_error_kept(a, b);
    }
}

/// A layout error stays recorded as diagnostics are added.
proof fn lemma_layout_error_kept(a: Seq<Diagnostic>, b: Seq<Diagnostic>)
    requires
        has_layout_error(a),
        a.is_prefix_of(b),
    ensures
        has_layout_error(b),
{
    let i = choose|i: int|
        0 <= i < a.len() && #[trigger] a[i].severity == Severity::Error && a[i].code
            == DiagCode::Layout;
    assert(b[i] == a[i]);
}

/// No prefix of `toks` closes more blocks than it has opened.
pub open spec fn prefix_balanced(toks: Seq<Token>) -> bool {
    forall|i: int| 0 <= i <= toks.len() ==> layout_balance(#[trigger] toks.take(i)) >= 0
}

proof fn lemma_prefix_push(toks: Seq<Token>, t: Token)
    requires
        prefix_balanced(toks),
        layout_balance(toks) + layout_delta(t.kind) >= 0,
    ensures
        prefix_balanced(toks.push(t)),
{
    assert forall|i: int| 0 <= i <= toks.push(t).len() implies layout_balance(
        #[trigger] toks.push(t).take(i),
    ) >= 0 by {
        if i <= toks.len() {
            assert(toks.push(t).take(i) =~= toks.take(i));
        } else {
            assert(toks.push(t).take(i) =~= toks.push(t));
            lemma_balance_push(toks, t);
        }
    }
}

/// A token stream as the lexer hands it to the parser: it ends with the one
/// `Eof` token, and its `Indent`s and `Dedent`s balance, no prefix having more
/// `Dedent`s than `Indent`s.
pub open spec fn well_formed_tokens(toks: Seq<Token>) -> bool {
    &&& toks.len() >= 1
    &&& toks.last().kind is Eof
    &&& forall|i: int| 0 <= i < toks.len() - 1 ==> !(#[trigger] toks[i].kind is Eof)
    &&& layout_balance(toks) == 0
    &&& prefix_balanced(toks)
}

// ---- the lexer state machine ----

struct Lexer {
    chars: Vec<char>,
    /// Byte offset of `chars[i]`; one more entry for the end of input.
    byte_offsets: Vec<u64>,
    src_len: usize,
    pos: usize,
    line: u32,
    col: u32,
    file: u32,
    indent_stack: Vec<usize>,
    bracket_depth: i32,
    line_had_tokens: bool,
    out: Vec<Token>,
    diags: Vec<Diagnostic>,
}

/// Every field but the layout balance is in range.
spec fn lexer_core(l: Lexer) -> bool {
    &&& l.chars@.len() < 0x7fff_ffff
    &&& l.byte_offsets@.len() == l.chars@.len() + 1
    &&& l.pos <= l.chars@.len()
    &&& l.line <= l.pos + 1
    &&& l.col <= l.pos + 1
    &&& 0 <= l.bracket_depth <= l.pos
    &&& l.indent_stack@.len() >= 1
    &&& l.indent_stack@[0] == 0
    &&& forall|i: int|
        0 <= i < l.out@.len() ==> !(#[trigger] l.out@[i].kind is Eof) && l.out@[i].span.file == l.file
    &&& prefix_balanced(l.out@)
    &&& newlines_after_content(l.out@)
    &&& l.line_had_tokens ==> l.out@.len() > 0 && !is_layout(l.out@.last().kind)
}

spec fn lexer_wf(l: Lexer) -> bool {
    &&& lexer_core(l)
    &&& layout_balance(l.out@) == l.indent_stack@.len() - 1
}

/// `b` is a later state of `a` over the same input; tokens and diagnostics are
/// only added.
spec fn lexer_step(a: Lexer, b: Lexer) -> bool {
    &&& lexer_wf(b)
    &&& b.chars@ == a.chars@
    &&& b.byte_offsets@ == a.byte_offsets@
    &&& b.src_len == a.src_len
    &&& b.file == a.file
    &&& b.pos >= a.pos
    &&& a.diags@.is_prefix_of(b.diags@)
    &&& a.out@.is_prefix_of(b.out@)
}

/// A character that continues a word: `_`, a letter or a digit.
pub open spec fn word_char(c: char) -> bool {
    if c <= '\x7f' {
        c == '_' || ascii_letter(c) || ascii_digit(c)
    } else {
        unicode_alphabetic(c) || unicode_numeric(c)
    }
}

/// An ASCII letter.
pub open spec fn ascii_letter(c: char) -> bool {
    ('a' <= c && c <= 'z') || ('A' <= c && c <= 'Z')
}

/// A character that starts a word: `_` or a letter.
pub open spec fn word_start(c: char) -> bool {
    if c <= '\x7f' {
        c == '_' || ascii_letter(c)
    } else {
        unicode_alphabetic(c)
    }
}

/// Whether `c` continues a word (ASCII characters are told apart directly;
/// among them exactly the letters and digits are alphanumeric).
fn is_word_char(c: char) -> (b: bool)
    ensures
        b == word_char(c),
{
    if c <= '\x7f' {
        c == '_' || ('a' <= c && c <= 'z') || ('A' <= c && c <= 'Z') || ('0' <= c && c <= '9')
    } else {
        is_alphanumeric(c)
    }
}

/// Whether `c` starts a word.
fn is_word_start(c: char) -> (b: bool)
    ensures
        b == word_start(c),
{
    if c <= '\x7f' {
        c == '_' || ('a' <= c && c <= 'z') || ('A' <= c && c <= 'Z')
    } else {
        is_alphabetic(c)
    }
}

/// How many word characters follow position `p`.
pub open spec fn word_run(chars: Seq<char>, p: int) -> nat
    decreases chars.len() - p,
{
    if 0 <= p < chars.len() && word_char(chars[p]) {
        1 + word_run(chars, p + 1)
    } else {
        0
    }
}

/// The word (maximal run of word characters) that starts at `p`.
pub open spec fn word_at(chars: Seq<char>, p: int) -> Seq<char> {
    chars.subrange(p, p + word_run(chars, p))
}

/// The word at `p` stays within the input.
proof fn lemma_word_run_bound(chars: Seq<char>, p: int)
    requires
        0 <= p <= chars.len(),
    ensures
        p + word_run(chars, p) <= chars.len(),
    decreases chars.len() - p,
{
    if p < chars.len() && word_char(chars[p]) {
        lemma_word_run_bound(chars, p + 1);
    }
}

/// The integer suffix that a word spells, if it spells one.
pub open spec fn num_suffix_of(w: Seq<char>) -> Option<NumSuffix> {
    if w == "i8"@ {
        Some(NumSuffix::I(8))
    } else if w == "i16"@ {
        Some(NumSuffix::I(16))
    } else if w == "i32"@ {
        Some(NumSuffix::I(32))
    } else if w == "i64"@ {
        Some(NumSuffix::I(64))
    } else if w == "u8"@ {
        Some(NumSuffix::U(8))
    } else if w == "u16"@ {
        Some(NumSuffix::U(16))
    } else if w == "u32"@ {
        Some(NumSuffix::U(32))
    } else if w == "u64"@ {
        Some(NumSuffix::U(64))
    } else if w == "nat"@ {
        Some(NumSuffix::Nat)
    } else {
        None
    }
}

/// A digit that `take_digits` accepts: `0`/`1` with `binary`, else an ASCII digit.
pub open spec fn digit_ok(c: char, binary: bool) -> bool {
    if binary {
        c == '0' || c == '1'
    } else {
        ascii_digit(c)
    }
}

/// How many accepted digits follow position `p`.
pub open spec fn digit_run(chars: Seq<char>, p: int, binary: bool) -> nat
    decreases chars.len() - p,
{
    if 0 <= p < chars.len() && digit_ok(chars[p], binary) {
        1 + digit_run(chars, p + 1, binary)
    } else {
        0
    }
}

/// Whether `c` is indentation whitespace (a space or a tab).
pub open spec fn blank(c: char) -> bool {
    c == ' ' || c == '\t'
}

/// Where the content of the next logical line starts, scanning from `p`:
/// indentation, blank lines and comment-only lines are passed over (`in_comment`
/// says that the scan is inside a comment). The end of the input when no
/// content follows.
pub open spec fn content_start(chars: Seq<char>, p: int, in_comment: bool) -> int
    decreases chars.len() - p,
{
    if p < 0 || p >= chars.len() {
        p
    } else if in_comment {
        if chars[p] == '\n' {
            content_start(chars, p + 1, false)
        } else {
            content_start(chars, p + 1, true)
        }
    } else if blank(chars[p]) || chars[p] == '\n' {
        content_start(chars, p + 1, false)
    } else if chars[p] == '#' {
        content_start(chars, p + 1, true)
    } else {
        p
    }
}

/// Whether a tab stands in indentation before the content that
/// `content_start` finds from `p` (tabs inside comments do not count).
pub open spec fn tab_seen(chars: Seq<char>, p: int, in_comment: bool) -> bool
    decreases chars.len() - p,
{
    if p < 0 || p >= chars.len() {
        false
    } else if in_comment {
        if chars[p] == '\n' {
            tab_seen(chars, p + 1, false)
        } else {
            tab_seen(chars, p + 1, true)
        }
    } else if chars[p] == '\t' {
        true
    } else if chars[p] == ' ' || chars[p] == '\n' {
        tab_seen(chars, p + 1, false)
    } else if chars[p] == '#' {
        tab_seen(chars, p + 1, true)
    } else {
        false
    }
}

/// The number of spaces in the run of indentation that ends at `q`, looking no
/// further back than `lo`.
pub open spec fn spaces_before(chars: Seq<char>, lo: int, q: int) -> nat
    decreases q - lo,
{
    if q > lo && 0 < q <= chars.len() && blank(chars[q - 1]) {
        spaces_before(chars, lo, q - 1) + (if chars[q - 1] == ' ' {
            1nat
        } else {
            0nat
        })
    } else {
        0
    }
}

/// The indentation stack after closing every level deeper than `ind`.
pub open spec fn pop_to(st: Seq<usize>, ind: int) -> Seq<usize>
    decreases st.len(),
{
    if st.len() > 0 && st.last() > ind {
        pop_to(st.drop_last(), ind)
    } else {
        st
    }
}

/// The spaces counted from the start of an indentation run are all its spaces.
proof fn lemma_spaces_from_run_start(chars: Seq<char>, lo: int, s: int, q: int)
    requires
        lo <= s <= q <= chars.len(),
        0 <= lo,
        s == lo || chars[s - 1] == '\n',
        forall|i: int| s <= i < q ==> blank(#[trigger] chars[i]),
    ensures
        spaces_before(chars, lo, q) == spaces_before(chars, s, q),
    decreases q - s,
{
    if q > s {
        lemma_spaces_from_run_start(chars, lo, s, q - 1);
    }
}

/// Popping to `ind` leaves a prefix of the stack.
proof fn lemma_pop_to_prefix(st: Seq<usize>, ind: int)
    ensures
        pop_to(st, ind as int).len() <= st.len(),
        pop_to(st, ind as int) == st.subrange(0, pop_to(st, ind as int).len() as int),
    decreases st.len(),
{
    if st.len() > 0 && st.last() > ind {
        lemma_pop_to_prefix(st.drop_last(), ind);
        assert(st.drop_last().subrange(0, pop_to(st, ind as int).len() as int) =~= st.subrange(
            0,
            pop_to(st, ind as int).len() as int,
        ));
    } else {
        assert(st.subrange(0, st.len() as int) =~= st);
    }
}

/// Whether position `i` holds `c`.
pub open spec fn char_is(cs: Seq<char>, i: int, c: char) -> bool {
    0 <= i < cs.len() && cs[i] == c
}

/// The operator or punctuation symbol at position `p` and its length in
/// characters, the longest one that matches (`<=` is one `Le`, `..=` one
/// `DotDotEq`); `None` when no symbol starts there.
pub open spec fn symbol_at(cs: Seq<char>, p: int) -> Option<(Sym, nat)> {
    let c = cs[p];
    if c == '(' {
        Some((Sym::LParen, 1nat))
    } else if c == ')' {
        Some((Sym::RParen, 1nat))
    } else if c == '[' {
        Some((Sym::LBracket, 1nat))
    } else if c == ']' {
        Some((Sym::RBracket, 1nat))
    } else if c == '{' {
        Some((Sym::LBrace, 1nat))
    } else if c == '}' {
        Some((Sym::RBrace, 1nat))
    } else if c == ':' {
        Some((Sym::Colon, 1nat))
    } else if c == ',' {
        Some((Sym::Comma, 1nat))
    } else if c == '@' {
        Some((Sym::At, 1nat))
    } else if c == '~' {
        Some((Sym::Tilde, 1nat))
    } else if c == '.' {
        if char_is(cs, p + 1, '.') {
            if char_is(cs, p + 2, '=') {
                Some((Sym::DotDotEq, 3nat))
            } else {
                Some((Sym::DotDot, 2nat))
            }
        } else {
            Some((Sym::Dot, 1nat))
        }
    } else if c == '-' {
        if char_is(cs, p + 1, '>') {
            Some((Sym::Arrow, 2nat))
        } else if char_is(cs, p + 1, '=') {
            Some((Sym::MinusEq, 2nat))
        } else {
            Some((Sym::Minus, 1nat))
        }
    } else if c == '=' {
        if char_is(cs, p + 1, '=') {
            Some((Sym::EqEq, 2nat))
        } else if char_is(cs, p + 1, '>') {
            Some((Sym::FatArrow, 2nat))
        } else {
            Some((Sym::Eq, 1nat))
        }
    } else if c == '!' {
        if char_is(cs, p + 1, '=') {
            Some((Sym::Ne, 2nat))
        } else {
            None
        }
    } else if c == '<' {
        if char_is(cs, p + 1, '=') {
            Some((Sym::Le, 2nat))
        } else if char_is(cs, p + 1, '<') {
            Some((Sym::Shl, 2nat))
        } else {
            Some((Sym::Lt, 1nat))
        }
    } else if c == '>' {
        if char_is(cs, p + 1, '=') {
            Some((Sym::Ge, 2nat))
        } else if char_is(cs, p + 1, '>') {
            Some((Sym::Shr, 2nat))
        } else {
            Some((Sym::Gt, 1nat))
        }
    } else if c == '+' {
        if char_is(cs, p + 1, '=') {
            Some((Sym::PlusEq, 2nat))
        } else {
            Some((Sym::Plus, 1nat))
        }
    } else if c == '*' {
        if char_is(cs, p + 1, '*') {
            Some((Sym::StarStar, 2nat))
        } else if char_is(cs, p + 1, '=') {
            Some((Sym::StarEq, 2nat))
        } else {
            Some((Sym::Star, 1nat))
        }
    } else if c == '/' {
        if char_is(cs, p + 1, '/') {
            Some((Sym::SlashSlash, 2nat))
        } else if char_is(cs, p + 1, '=') {
            Some((Sym::SlashEq, 2nat))
        } else {
            Some((Sym::Slash, 1nat))
        }
    } else if c == '%' {
        if char_is(cs, p + 1, '=') {
            Some((Sym::PercentEq, 2nat))
        } else {
            Some((Sym::Percent, 1nat))
        }
    } else if c == '^' {
        if char_is(cs, p + 1, '=') {
            Some((Sym::CaretEq, 2nat))
        } else {
            Some((Sym::Caret, 1nat))
        }
    } else if c == '&' {
        if char_is(cs, p + 1, '=') {
            Some((Sym::AmpEq, 2nat))
        } else {
            Some((Sym::Amp, 1nat))
        }
    } else if c == '|' {
        if char_is(cs, p + 1, '=') {
            Some((Sym::PipeEq, 2nat))
        } else {
            Some((Sym::Pipe, 1nat))
        }
    } else {
        None
    }
}

/// Whether a token kind is a layout token (`Newline`, `Indent`, `Dedent`).
pub open spec fn is_layout(k: TokKind) -> bool {
    k is Newline || k is Indent || k is Dedent
}

/// The bracket depth after token kind `k` from depth `d`: an opening bracket
/// goes one deeper, a closing one back out (never below zero).
pub open spec fn depth_step(d: int, k: TokKind) -> int {
    match k {
        TokKind::Sym(Sym::LParen) | TokKind::Sym(Sym::LBracket) | TokKind::Sym(Sym::LBrace) => d + 1,
        TokKind::Sym(Sym::RParen) | TokKind::Sym(Sym::RBracket) | TokKind::Sym(Sym::RBrace) => if d
            - 1 < 0 {
            0
        } else {
            d - 1
        },
        _ => d,
    }
}

/// The bracket depth after a token sequence.
pub open spec fn depth_of(toks: Seq<Token>) -> int
    decreases toks.len(),
{
    if toks.len() == 0 {
        0
    } else {
        depth_step(depth_of(toks.drop_last()), toks.last().kind)
    }
}

/// Every layout token of `toks` stands outside all brackets.
pub open spec fn top_layout(toks: Seq<Token>) -> bool
    decreases toks.len(),
{
    if toks.len() == 0 {
        true
    } else {
        top_layout(toks.drop_last()) && (is_layout(toks.last().kind) ==> depth_of(toks.drop_last())
            == 0)
    }
}

/// Every `Newline` ends a line of content: it directly follows a token that is
/// not a layout token (so no stream starts with a `Newline`, and no two
/// `Newline`s are adjacent).
pub open spec fn newlines_after_content(toks: Seq<Token>) -> bool {
    forall|i: int|
        0 <= i < toks.len() && (#[trigger] toks[i].kind is Newline) ==> i > 0 && !is_layout(
            toks[i - 1].kind,
        )
}

proof fn lemma_newline_push(s: Seq<Token>, t: Token)
    requires
        newlines_after_content(s),
        t.kind is Newline ==> s.len() > 0 && !is_layout(s.last().kind),
    ensures
        newlines_after_content(s.push(t)),
{
    assert forall|i: int|
        0 <= i < s.push(t).len() && (#[trigger] s.push(t)[i].kind is Newline) implies i > 0
        && !is_layout(s.push(t)[i - 1].kind) by {
        if i < s.len() {
            assert(s.push(t)[i] == s[i]);
            assert(s.push(t)[i - 1] == s[i - 1]);
        } else {
            assert(s.push(t)[i - 1] == s.last());
        }
    }
}

/// Newlines inside brackets are joined: a layout token that some later content
/// token (not `Eof`) follows stands outside all brackets.
pub open spec fn joined_in_brackets(toks: Seq<Token>) -> bool {
    forall|i: int, j: int|
        0 <= i < j < toks.len() && is_layout(#[trigger] toks[i].kind) && !is_layout(
            #[trigger] toks[j].kind,
        ) && !(toks[j].kind is Eof) ==> depth_of(toks.take(i)) == 0
}

proof fn lemma_depth_push(s: Seq<Token>, t: Token)
    ensures
        depth_of(s.push(t)) == depth_step(depth_of(s), t.kind),
        top_layout(s.push(t)) == (top_layout(s) && (is_layout(t.kind) ==> depth_of(s) == 0)),
{
    assert(s.push(t).drop_last() =~= s);
}

/// Appending layout tokens at depth zero keeps the depth zero and every layout
/// token outside brackets.
proof fn lemma_append_layout(s: Seq<Token>, full: Seq<Token>)
    requires
        s.len() <= full.len(),
        full.subrange(0, s.len() as int) == s,
        forall|i: int| s.len() <= i < full.len() ==> is_layout(#[trigger] full[i].kind),
        top_layout(s),
        depth_of(s) == 0,
    ensures
        top_layout(full),
        depth_of(full) == 0,
    decreases full.len(),
{
    if full.len() > s.len() {
        let f = full.drop_last();
        assert(f.subrange(0, s.len() as int) =~= full.subrange(0, s.len() as int));
        assert forall|i: int| s.len() <= i < f.len() implies is_layout(#[trigger] f[i].kind) by {
            assert(f[i] == full[i]);
        }
        lemma_append_layout(s, f);
        assert(is_layout(full[full.len() - 1].kind));
    } else {
        assert(full =~= s);
    }
}

/// In a sequence whose layout tokens all stand outside brackets, each layout
/// token's prefix has depth zero.
proof fn lemma_top_layout_index(s: Seq<Token>, i: int)
    requires
        top_layout(s),
        0 <= i < s.len(),
        is_layout(s[i].kind),
    ensures
        depth_of(s.take(i)) == 0,
    decreases s.len(),
{
    if i == s.len() - 1 {
        assert(s.take(i) =~= s.drop_last());
    } else {
        assert(s.drop_last()[i] == s[i]);
        lemma_top_layout_index(s.drop_last(), i);
        assert(s.drop_last().take(i) =~= s.take(i));
    }
}

/// `src` holds no content: only blank lines, spaces and comment lines, with no
/// tab in indentation.
pub open spec fn blank_source(src: Seq<char>) -> bool {
    content_start(src, 0, false) >= src.len() && !tab_seen(src, 0, false)
}

/// The first content line of `src` is indented (its indentation has spaces).
pub open spec fn leading_indent(src: Seq<char>) -> bool {
    let q = content_start(src, 0, false);
    q < src.len() && spaces_before(src, 0, q) > 0
}

/// A token kind as plain values (texts as character sequences).
pub enum TokView {
    Ident(Seq<char>),
    Int(Seq<char>, Option<NumSuffix>),
    Float(Seq<char>),
    Str(Seq<char>),
    Char(char),
    Kw(Keyword),
    Sym(Sym),
    Indent,
    Dedent,
    Newline,
    Eof,
}

/// The plain-value form of a token kind.
pub open spec fn kind_view(k: TokKind) -> TokView {
    match k {
        TokKind::Ident(s) => TokView::Ident(s@),
        TokKind::Int(s, suf) => TokView::Int(s@, suf),
        TokKind::Float(s) => TokView::Float(s@),
        TokKind::Str(s) => TokView::Str(s@),
        TokKind::Char(c) => TokView::Char(c),
        TokKind::Kw(k) => TokView::Kw(k),
        TokKind::Sym(s) => TokView::Sym(s),
        TokKind::Indent => TokView::Indent,
        TokKind::Dedent => TokView::Dedent,
        TokKind::Newline => TokView::Newline,
        TokKind::Eof => TokView::Eof,
    }
}

/// The token kinds of a token sequence.
pub open spec fn kinds_of(toks: Seq<Token>) -> Seq<TokView> {
    toks.map_values(|t: Token| kind_view(t.kind))
}

/// The number literal at `p` (a digit) and where it ends: `0b` and binary digits;
/// decimal digits, then either `.` and digits with an optional `f32`/`f64`
/// suffix, or an optional integer suffix. The token's text is the source text it
/// covers, without an integer suffix.
pub open spec fn number_at(cs: Seq<char>, p: int) -> (TokView, int) {
    if char_is(cs, p, '0') && char_is(cs, p + 1, 'b') {
        let e = p + 2 + digit_run(cs, p + 2, true);
        (TokView::Int(cs.subrange(p, e), None), e)
    } else {
        let e1 = p + 1 + digit_run(cs, p + 1, false);
        if char_is(cs, e1, '.') && e1 + 1 < cs.len() && ascii_digit(cs[e1 + 1]) {
            let e2 = e1 + 1 + digit_run(cs, e1 + 1, false);
            let w = word_at(cs, e2);
            if w == "f32"@ || w == "f64"@ {
                (TokView::Float(cs.subrange(p, e2 + w.len())), e2 + w.len())
            } else {
                (TokView::Float(cs.subrange(p, e2)), e2)
            }
        } else {
            let w = word_at(cs, e1);
            match num_suffix_of(w) {
                Some(s) => (TokView::Int(cs.subrange(p, e1), Some(s)), e1 + w.len()),
                None => (TokView::Int(cs.subrange(p, e1), None), e1),
            }
        }
    }
}

/// The character an escape `\c` in a string literal stands for.
pub open spec fn str_escape(c: char) -> char {
    if c == 'n' {
        '\n'
    } else if c == 't' {
        '\t'
    } else if c == '0' {
        '\0'
    } else {
        c
    }
}

/// The rest of a string literal read from `q` (after the opening quote), with
/// `acc` read so far: its text, where it ends, and whether it is unterminated
/// (the line or the input ends first).
pub open spec fn string_from(cs: Seq<char>, q: int, acc: Seq<char>) -> (Seq<char>, int, bool)
    decreases cs.len() - q,
{
    if q < 0 || q >= cs.len() {
        (acc, q, true)
    } else if cs[q] == '"' {
        (acc, q + 1, false)
    } else if cs[q] == '\\' {
        if q + 1 >= cs.len() {
            (acc, q + 1, true)
        } else {
            string_from(cs, q + 2, acc.push(str_escape(cs[q + 1])))
        }
    } else if cs[q] == '\n' {
        (acc, q, true)
    } else {
        string_from(cs, q + 1, acc.push(cs[q]))
    }
}

/// The character literal whose quote is at `p`: its character, where it ends,
/// and whether it is malformed (unterminated or without its closing quote).
pub open spec fn char_at(cs: Seq<char>, p: int) -> (char, int, bool) {
    let q = p + 1;
    let (ch, r, bad) = if q < cs.len() {
        if cs[q] == '\\' {
            if q + 1 < cs.len() {
                (str_escape(cs[q + 1]), q + 2, false)
            } else {
                ('\0', q + 1, true)
            }
        } else {
            (cs[q], q + 1, false)
        }
    } else {
        ('\0', q, true)
    };
    if char_is(cs, r, '\'') {
        (ch, r + 1, bad)
    } else {
        (ch, r, true)
    }
}

/// Where a comment that starts at `p` ends: at the next newline (not consumed)
/// or the end of the input.
pub open spec fn comment_end(cs: Seq<char>, p: int) -> int
    decreases cs.len() - p,
{
    if 0 <= p < cs.len() && cs[p] != '\n' {
        comment_end(cs, p + 1)
    } else {
        p
    }
}

/// The word at `p` as a token: the keyword it spells, or an identifier.
pub open spec fn word_token(w: Seq<char>) -> TokView {
    if exists|k: Keyword| kw_text(k) == w {
        TokView::Kw(choose|k: Keyword| kw_text(k) == w)
    } else {
        TokView::Ident(w)
    }
}

/// The lexer's state as plain values: the cursor, the indentation stack, the
/// bracket depth, whether the line has content tokens, the token kinds emitted
/// so far, and whether an error was recorded.
pub struct LexState {
    pub pos: int,
    pub stack: Seq<usize>,
    pub depth: int,
    pub lht: bool,
    pub toks: Seq<TokView>,
    pub err: bool,
}

/// `n` dedents.
pub open spec fn dedents(n: nat) -> Seq<TokView> {
    Seq::new(n, |i: int| TokView::Dedent)
}

/// The layout at the start of a logical line (see `handle_line_start`): skip to
/// the content, then open a block, close blocks, or leave the level as is; an
/// error for a tab in the indentation or a dedent to a level never opened.
pub open spec fn line_start(cs: Seq<char>, s: LexState) -> LexState {
    let q = content_start(cs, s.pos, false);
    let ind = spaces_before(cs, s.pos, q);
    let bad = tab_seen(cs, s.pos, false) || (q < cs.len() && ind < s.stack.last() && pop_to(
        s.stack,
        ind as int,
    ).last() != ind);
    if q >= cs.len() {
        LexState { pos: q, err: s.err || bad, ..s }
    } else if ind > s.stack.last() {
        LexState {
            pos: q,
            stack: s.stack.push(ind as usize),
            toks: s.toks.push(TokView::Indent),
            err: s.err || bad,
            ..s
        }
    } else {
        let st = pop_to(s.stack, ind as int);
        LexState {
            pos: q,
            stack: st,
            toks: s.toks + dedents((s.stack.len() - st.len()) as nat),
            err: s.err || bad,
            ..s
        }
    }
}

/// Emits a content token.
pub open spec fn emit(s: LexState, t: TokView, pos: int, err: bool) -> LexState {
    LexState { pos, lht: true, toks: s.toks.push(t), err: s.err || err, ..s }
}

/// One step of the lexer at the character under the cursor.
pub open spec fn lex_step(cs: Seq<char>, s: LexState) -> LexState {
    let p = s.pos;
    let c = cs[p];
    if c == ' ' {
        LexState { pos: p + 1, ..s }
    } else if c == '\t' {
        LexState { pos: p + 1, err: true, ..s }
    } else if c == '\n' {
        if s.depth == 0 {
            let s1 = if s.lht {
                LexState { pos: p + 1, lht: false, toks: s.toks.push(TokView::Newline), ..s }
            } else {
                LexState { pos: p + 1, lht: false, ..s }
            };
            line_start(cs, s1)
        } else {
            LexState { pos: p + 1, ..s }
        }
    } else {
        lex_token(cs, s)
    }
}

/// A step at a character that is neither a space, a tab nor a newline: a
/// comment, or a token.
pub open spec fn lex_token(cs: Seq<char>, s: LexState) -> LexState {
    let p = s.pos;
    let c = cs[p];
    if c == '#' {
        LexState { pos: comment_end(cs, p), ..s }
    } else if c == '"' {
        let (t, e, bad) = string_from(cs, p + 1, Seq::empty());
        emit(s, TokView::Str(t), e, bad)
    } else if c == '\'' {
        let (ch, e, bad) = char_at(cs, p);
        emit(s, TokView::Char(ch), e, bad)
    } else if word_start(c) {
        let w = word_at(cs, p);
        emit(s, word_token(w), p + w.len(), false)
    } else if ascii_digit(c) {
        let (t, e) = number_at(cs, p);
        emit(s, t, e, false)
    } else {
        match symbol_at(cs, p) {
            Some((sy, n)) => LexState {
                depth: depth_step(s.depth, TokKind::Sym(sy)),
                ..emit(s, TokView::Sym(sy), p + n, false)
            },
            None => LexState { pos: p + 1, err: true, ..s },
        }
    }
}

/// The lexer's main loop over the input from state `s`.
pub open spec fn lex_loop(cs: Seq<char>, s: LexState) -> LexState
    decreases cs.len() - s.pos,
{
    if 0 <= s.pos < cs.len() {
        let n = lex_step(cs, s);
        if s.pos < n.pos <= cs.len() {
            lex_loop(cs, n)
        } else {
            n
        }
    } else {
        s
    }
}

/// The state after the first line start.
pub open spec fn lex_start(cs: Seq<char>) -> LexState {
    line_start(
        cs,
        LexState { pos: 0, stack: seq![0usize], depth: 0, lht: false, toks: seq![], err: false },
    )
}

/// The state after the whole input.
pub open spec fn lex_end(cs: Seq<char>) -> LexState {
    lex_loop(cs, lex_start(cs))
}

/// The token kinds `lex` produces for `cs`: the tokens of the main loop, a final
/// `Newline` when the last line has content, a `Dedent` for each open block,
/// and `Eof`.
pub open spec fn lex_kinds(cs: Seq<char>) -> Seq<TokView> {
    let s = lex_end(cs);
    s.toks + (if s.lht {
        seq![TokView::Newline]
    } else {
        seq![]
    }) + dedents((s.stack.len() - 1) as nat) + seq![TokView::Eof]
}

/// Lexing `cs` records an error: a tab in the source outside comments and
/// literals, a character that starts no token, or a malformed literal or layout.
pub open spec fn lex_fails(cs: Seq<char>) -> bool {
    lex_end(cs).err
}

/// The lexer's state as plain values.
spec fn abs_state(l: Lexer) -> LexState {
    LexState {
        pos: l.pos as int,
        stack: l.indent_stack@,
        depth: l.bracket_depth as int,
        lht: l.line_had_tokens,
        toks: kinds_of(l.out@),
        err: has_error(l.diags@),
    }
}

proof fn lemma_kinds_push(o: Seq<Token>, t: Token)
    ensures
        kinds_of(o.push(t)) == kinds_of(o).push(kind_view(t.kind)),
{
    assert(kinds_of(o.push(t)) =~= kinds_of(o).push(kind_view(t.kind)));
}

/// One token added after `o`.
proof fn lemma_emitted(o: Seq<Token>, f: Seq<Token>)
    requires
        o.is_prefix_of(f),
        f.len() == o.len() + 1,
    ensures
        f == o.push(f.last()),
        kinds_of(f) == kinds_of(o).push(kind_view(f.last().kind)),
        depth_of(f) == depth_step(depth_of(o), f.last().kind),
        top_layout(f) == (top_layout(o) && (is_layout(f.last().kind) ==> depth_of(o) == 0)),
{
    assert(f.subrange(0, o.len() as int) =~= o);
    assert(f =~= o.push(f.last()));
    lemma_depth_push(o, f.last());
    lemma_kinds_push(o, f.last());
}

/// Tokens added after `o` that are all `Dedent`s.
proof fn lemma_kinds_dedents(o: Seq<Token>, f: Seq<Token>, n: nat)
    requires
        f.len() == o.len() + n,
        f.subrange(0, o.len() as int) == o,
        forall|i: int| o.len() <= i < f.len() ==> (#[trigger] f[i]).kind is Dedent,
    ensures
        kinds_of(f) == kinds_of(o) + dedents(n),
{
    assert forall|i: int| 0 <= i < f.len() implies #[trigger] kinds_of(f)[i] == (kinds_of(o)
        + dedents(n))[i] by {
        if i < o.len() {
            assert(f[i] == f.subrange(0, o.len() as int)[i]);
        }
    }
    assert(kinds_of(f) =~= kinds_of(o) + dedents(n));
}

proof fn lemma_word_run_letters(w: Seq<char>, i: int)
    requires
        forall|j: int| 0 <= j < w.len() ==> ascii_letter(#[trigger] w[j]),
        0 <= i <= w.len(),
    ensures
        word_run(w.push('\n'), i) == w.len() - i,
    decreases w.len() - i,
{
    let cs = w.push('\n');
    if i < w.len() {
        assert(cs[i] == w[i]);
        assert(ascii_letter(w[i]));
        lemma_word_run_letters(w, i + 1);
    } else {
        assert(cs[i] == '\n');
    }
}

/// A line holding one word of ASCII letters lexes to that word's token, a
/// `Newline` and `Eof`, with no error.
pub proof fn lemma_word_line(w: Seq<char>)
    requires
        w.len() > 0,
        forall|j: int| 0 <= j < w.len() ==> ascii_letter(#[trigger] w[j]),
    ensures
        !lex_fails(w.push('\n')),
        lex_kinds(w.push('\n')) == seq![word_token(w), TokView::Newline, TokView::Eof],
{
    let cs = w.push('\n');
    let n = w.len() as int;
    assert(cs[0] == w[0]);
    assert(ascii_letter(w[0]));
    assert(cs[n] == '\n');
    let init = LexState { pos: 0, stack: seq![0usize], depth: 0, lht: false, toks: seq![], err: false };
    assert(content_start(cs, 0, false) == 0);
    assert(!tab_seen(cs, 0, false));
    assert(spaces_before(cs, 0, 0) == 0);
    assert(pop_to(seq![0usize], 0) == seq![0usize]);
    assert(dedents(0) =~= Seq::<TokView>::empty());
    let s0 = lex_start(cs);
    assert(s0.toks =~= Seq::<TokView>::empty());
    assert(s0 == init);
    lemma_word_run_letters(w, 0);
    assert(word_at(cs, 0) =~= w);
    let s1 = lex_step(cs, s0);
    assert(s1 == LexState { pos: n, lht: true, toks: seq![word_token(w)], ..init });
    assert(lex_loop(cs, s0) == lex_loop(cs, s1));
    assert(content_start(cs, n + 1, false) == n + 1);
    assert(!tab_seen(cs, n + 1, false));
    let s2 = lex_step(cs, s1);
    let s1n = LexState { pos: n + 1, lht: false, toks: s1.toks.push(TokView::Newline), ..s1 };
    assert(s2 == line_start(cs, s1n));
    assert(s1n.toks =~= seq![word_token(w), TokView::Newline]);
    assert(spaces_before(cs, n + 1, n + 1) == 0);
    assert(s2 == LexState { pos: n + 1, toks: seq![word_token(w), TokView::Newline], ..init });
    assert(lex_loop(cs, s1) == lex_loop(cs, s2));
    assert(lex_loop(cs, s2) == s2);
    assert(lex_end(cs) == s2);
    assert(lex_kinds(cs) =~= seq![word_token(w), TokView::Newline, TokView::Eof]);
}

/// Every keyword is spelled in ASCII letters.
proof fn lemma_kw_letters(k: Keyword)
    ensures
        kw_text(k).len() > 0,
        forall|j: int| 0 <= j < kw_text(k).len() ==> ascii_letter(#[trigger] kw_text(k)[j]),
{
}

/// A keyword's source text alone on a line lexes to that keyword: `keyword_str`
/// and the lexer's keyword table agree.
pub proof fn lemma_keyword_lexes(k: Keyword)
    ensures
        !lex_fails(kw_text(k).push('\n')),
        lex_kinds(kw_text(k).push('\n')) == seq![
            TokView::Kw(k),
            TokView::Newline,
            TokView::Eof,
        ],
{
    lemma_kw_letters(k);
    lemma_word_line(kw_text(k));
    let c = choose|c: Keyword| kw_text(c) == kw_text(k);
    assert(kw_text(k) == kw_text(k));
    lemma_kw_text_injective(c, k);
}

/// The zero-width span at the lexer's cursor.
spec fn cursor_span(l: Lexer) -> Span {
    Span {
        file: l.file,
        lo: l.byte_offsets@[l.pos as int] as u32,
        hi: l.byte_offsets@[l.pos as int] as u32,
        line: l.line,
        col: l.col,
    }
}

impl Lexer {
    fn new(src: &str, file: u32) -> (l: Lexer)
        requires
            src@.len() < 0x7fff_ffff,
        ensures
            lexer_wf(l),
            l.chars@ == src@,
            l.pos == 0,
            l.file == file,
            l.out@.len() == 0,
            l.diags@.len() == 0,
            l.indent_stack@.len() == 1,
    {
        let chars = str_chars(src);
        let n = src.len();
        let mut byte_offsets: Vec<u64> = Vec::new();
        let mut b: u64 = 0;
        let mut i: usize = 0;
        while i < chars.len()
            invariant
                chars@ == src@,
                chars@.len() < 0x7fff_ffff,
                i <= chars@.len(),
                byte_offsets@.len() == i,
                b <= 4 * i,
            decreases chars.len() - i,
        {
            byte_offsets.push(b);
            b = b + char_len_utf8(chars[i]) as u64;
            i = i + 1;
        }
        byte_offsets.push(b);
        let l = Lexer {
            chars,
            byte_offsets,
            src_len: n,
            pos: 0,
            line: 1,
            col: 1,
            file,
            indent_stack: vec![0],
            bracket_depth: 0,
            line_had_tokens: false,
            out: Vec::new(),
            diags: Vec::new(),
        };
        proof {
            assert(l.indent_stack@[0] == 0);
        }
        l
    }

    /// Whether the character `k` places ahead of the cursor is `c`.
    fn at(&self, k: usize, c: char) -> (b: bool)
        requires
            lexer_wf(*self),
            k <= 2,
        ensures
            b == (self.pos + k < self.chars@.len() && self.chars@[self.pos + k] == c),
    {
        self.pos + k < self.chars.len() && self.chars[self.pos + k] == c
    }

    fn byte(&self) -> (b: u32)
        requires
            lexer_wf(*self),
        ensures
            b == self.byte_offsets@[self.pos as int] as u32,
    {
        self.byte_offsets[self.pos] as u32
    }

    /// Consumes one character, keeping line and column up to date.
    fn advance(&mut self) -> (r: Option<char>)
        requires
            lexer_wf(*old(self)),
        ensures
            lexer_step(*old(self), *final(self)),
            final(self).out@ == old(self).out@,
            final(self).indent_stack@ == old(self).indent_stack@,
            final(self).bracket_depth == old(self).bracket_depth,
            final(self).line_had_tokens == old(self).line_had_tokens,
            final(self).diags@ == old(self).diags@,
            old(self).pos < old(self).chars@.len() ==> final(self).pos == old(self).pos + 1
                && r == Some(old(self).chars@[old(self).pos as int]),
            old(self).pos >= old(self).chars@.len() ==> final(self).pos == old(self).pos
                && r is None,
    {
        if self.pos >= self.chars.len() {
            return None;
        }
        let c = self.chars[self.pos];
        self.pos = self.pos + 1;
        if c == '\n' {
            self.line = self.line + 1;
            self.col = 1;
        } else {
            self.col = self.col + 1;
        }
        Some(c)
    }

    /// Consumes `n` characters that are known to be there.
    fn advance_n(&mut self, n: usize)
        requires
            lexer_wf(*old(self)),
            old(self).pos + n <= old(self).chars@.len(),
        ensures
            lexer_step(*old(self), *final(self)),
            final(self).pos == old(self).pos + n,
            final(self).out@ == old(self).out@,
            final(self).indent_stack@ == old(self).indent_stack@,
            final(self).bracket_depth == old(self).bracket_depth,
            final(self).line_had_tokens == old(self).line_had_tokens,
            final(self).diags@ == old(self).diags@,
    {
        let mut k: usize = 0;
        while k < n
            invariant
                lexer_step(*old(self), *self),
                k <= n,
                self.pos == old(self).pos + k,
                old(self).pos + n <= old(self).chars@.len(),
                self.out@ == old(self).out@,
                self.diags@ == old(self).diags@,
                self.indent_stack@ == old(self).indent_stack@,
                self.bracket_depth == old(self).bracket_depth,
                self.line_had_tokens == old(self).line_had_tokens,
            decreases n - k,
        {
            self.advance();
            k = k + 1;
        }
    }

    /// Emits a content token that began at (`lo`, `line`, `col`).
    fn push(&mut self, kind: TokKind, lo: u32, line: u32, col: u32)
        requires
            lexer_wf(*old(self)),
            !(kind is Eof),
            !is_layout(kind),
        ensures
            lexer_step(*old(self), *final(self)),
            final(self).pos == old(self).pos,
            final(self).indent_stack@ == old(self).indent_stack@,
            final(self).bracket_depth == old(self).bracket_depth,
            final(self).line_had_tokens,
            final(self).diags@ == old(self).diags@,
            final(self).out@.len() == old(self).out@.len() + 1,
            final(self).out@.drop_last() == old(self).out@,
            final(self).out@.last().kind == kind,
    {
        let span = Span::new(self.file, lo, self.byte(), line, col);
        proof {
            lemma_balance_push(self.out@, Token { kind, span });
            lemma_prefix_push(self.out@, Token { kind, span });
            lemma_newline_push(self.out@, Token { kind, span });
        }
        self.out.push(Token { kind, span });
        self.line_had_tokens = true;
    }

    /// Emits a layout token (`Indent`, `Dedent` or `Newline`) at the cursor.
    fn push_layout(&mut self, kind: TokKind)
        requires
            lexer_core(*old(self)),
            is_layout(kind),
            kind is Newline ==> old(self).line_had_tokens,
            layout_balance(old(self).out@) + layout_delta(kind) >= 0,
        ensures
            lexer_core(*final(self)),
            layout_balance(final(self).out@) == layout_balance(old(self).out@) + layout_delta(kind),
            final(self).chars@ == old(self).chars@,
            final(self).byte_offsets@ == old(self).byte_offsets@,
            final(self).src_len == old(self).src_len,
            final(self).file == old(self).file,
            final(self).pos == old(self).pos,
            final(self).indent_stack@ == old(self).indent_stack@,
            final(self).bracket_depth == old(self).bracket_depth,
            !final(self).line_had_tokens,
            final(self).diags@ == old(self).diags@,
            final(self).line == old(self).line,
            final(self).col == old(self).col,
            final(self).out@.len() == old(self).out@.len() + 1,
            final(self).out@.drop_last() == old(self).out@,
            final(self).out@.last().kind == kind,
    {
        let b = self.byte_offsets[self.pos] as u32;
        let span = Span::new(self.file, b, b, self.line, self.col);
        proof {
            lemma_balance_push(self.out@, Token { kind, span });
            lemma_prefix_push(self.out@, Token { kind, span });
            lemma_newline_push(self.out@, Token { kind, span });
        }
        self.out.push(Token { kind, span });
        self.line_had_tokens = false;
    }

    /// Records an error at the cursor.
    fn err(&mut self, code: DiagCode, msg: String)
        requires
            lexer_wf(*old(self)),
        ensures
            lexer_step(*old(self), *final(self)),
            final(self).diags@.len() == old(self).diags@.len() + 1,
            final(self).diags@.drop_last() == old(self).diags@,
            final(self).diags@.last().severity == Severity::Error,
            final(self).diags@.last().code == code,
            final(self).diags@.last().span == cursor_span(*old(self)),
            final(self).diags@.last().message@ == msg@,
            final(self).diags@.last().notes@.len() == 0,
            final(self).diags@.last().help.is_none(),
            final(self).line == old(self).line,
            final(self).col == old(self).col,
            final(self).pos == old(self).pos,
            final(self).out@ == old(self).out@,
            final(self).indent_stack@ == old(self).indent_stack@,
            final(self).bracket_depth == old(self).bracket_depth,
            final(self).line_had_tokens == old(self).line_had_tokens,
    {
        let b = self.byte();
        let span = Span::new(self.file, b, b, self.line, self.col);
        self.diags.push(Diagnostic::error(code, span, msg));
    }

    /// Handles indentation at the start of a logical line (outside brackets):
    /// skips blank and comment-only lines, then emits `Indent` / `Dedent`.
    #[verifier::rlimit(100)]
    #[verifier::spinoff_prover]
    fn handle_line_start(&mut self)
        requires
            lexer_wf(*old(self)),
            !old(self).line_had_tokens,
        ensures
            lexer_step(*old(self), *final(self)),
            final(self).bracket_depth == old(self).bracket_depth,
            final(self).line_had_tokens == old(self).line_had_tokens,
            old(self).diags@.is_prefix_of(final(self).diags@),
            final(self).out@.len() >= old(self).out@.len(),
            final(self).out@.subrange(0, old(self).out@.len() as int) == old(self).out@,
            forall|i: int|
                old(self).out@.len() <= i < final(self).out@.len() ==> is_layout(
                    #[trigger] final(self).out@[i].kind,
                ),
            ({
                let cs = old(self).chars@;
                let q = content_start(cs, old(self).pos as int, false);
                let ind = spaces_before(cs, old(self).pos as int, q);
                let st = old(self).indent_stack@;
                let n = old(self).out@.len();
                &&& final(self).pos == q
                &&& q >= cs.len() ==> final(self).indent_stack@ == st && final(self).out@
                    == old(self).out@
                &&& q < cs.len() && ind > st.last() ==> {
                    &&& final(self).indent_stack@ == st.push(ind as usize)
                    &&& final(self).out@.len() == n + 1
                    &&& final(self).out@.drop_last() == old(self).out@
                    &&& final(self).out@.last().kind is Indent
                }
                &&& q < cs.len() && ind <= st.last() ==> {
                    &&& final(self).indent_stack@ == pop_to(st, ind as int)
                    &&& final(self).out@.len() == n + (st.len() - pop_to(st, ind as int).len())
                    &&& final(self).out@.subrange(0, n as int) == old(self).out@
                    &&& forall|i: int|
                        n <= i < final(self).out@.len() ==> (#[trigger] final(self).out@[i]).kind is Dedent
                }
                &&& (!tab_seen(cs, old(self).pos as int, false) && !(q < cs.len() && ind < st.last()
                    && pop_to(st, ind as int).last() != ind)) ==> final(self).diags@ == old(
                    self,
                ).diags@
                &&& !(!tab_seen(cs, old(self).pos as int, false) && !(q < cs.len() && ind
                    < st.last() && pop_to(st, ind as int).last() != ind)) ==> has_layout_error(
                    final(self).diags@,
                )
            }),
    {
        let ghost cs = self.chars@;
        let ghost p_start = self.pos as int;
        let ghost target = content_start(cs, p_start, false);
        let ghost mut tabbed = false;
        loop
            invariant
                (tabbed || tab_seen(cs, self.pos as int, false)) == tab_seen(cs, p_start, false),
                !tabbed ==> self.diags@ == old(self).diags@,
                tabbed ==> has_layout_error(self.diags@),
                lexer_step(*old(self), *self),
                self.bracket_depth == old(self).bracket_depth,
                self.line_had_tokens == old(self).line_had_tokens,
                !old(self).line_had_tokens,
                cs == old(self).chars@,
                p_start == old(self).pos,
                target == content_start(cs, p_start, false),
                content_start(cs, self.pos as int, false) == target,
                self.pos == p_start || cs[self.pos - 1] == '\n' || self.pos >= cs.len() || cs[self.pos as int] == '\n',
                self.indent_stack@ == old(self).indent_stack@,
                self.out@ == old(self).out@,
                old(self).diags@.is_prefix_of(self.diags@),
            decreases self.chars@.len() - self.pos,
        {
            // measure indentation
            let p_iter = self.pos;
            let mut indent: usize = 0;
            while self.pos < self.chars.len() && (self.chars[self.pos] == ' '
                || self.chars[self.pos] == '\t')
                invariant
                    (tabbed || tab_seen(cs, self.pos as int, false)) == tab_seen(cs, p_start, false),
                    !tabbed ==> self.diags@ == old(self).diags@,
                    tabbed ==> has_layout_error(self.diags@),
                    lexer_step(*old(self), *self),
                    self.bracket_depth == old(self).bracket_depth,
                    self.line_had_tokens == old(self).line_had_tokens,
                    !old(self).line_had_tokens,
                    indent <= self.pos,
                    self.pos >= p_iter,
                    cs == old(self).chars@,
                    p_start == old(self).pos,
                    target == content_start(cs, p_start, false),
                    content_start(cs, self.pos as int, false) == target,
                    p_iter == p_start || cs[p_iter - 1] == '\n' || p_iter >= cs.len() || cs[p_iter as int] == '\n',
                    forall|i: int| p_iter <= i < self.pos ==> blank(#[trigger] cs[i]),
                    indent == spaces_before(cs, p_iter as int, self.pos as int),
                    self.indent_stack@ == old(self).indent_stack@,
                    self.out@ == old(self).out@,
                    old(self).diags@.is_prefix_of(self.diags@),
                decreases self.chars@.len() - self.pos,
            {
                if self.chars[self.pos] == ' ' {
                    let ghost q = self.pos as int;
                    indent = indent + 1;
                    self.advance();
                    proof {
                        assert(cs[q] == ' ');
                    }
                } else {
                    let ghost before = self.diags@;
                    self.err(
                        DiagCode::Layout,
                        str_to_string(
                            "tabs are not allowed for indentation (use spaces)",
                        ),
                    );
                    proof {
                        assert(before.is_prefix_of(self.diags@));
                        tabbed = true;
                        assert(self.diags@[self.diags@.len() - 1].severity == Severity::Error);
                    }
                    self.advance();
                }
            }
            if self.pos >= self.chars.len() {
                // end of input: no layout tokens
                return;
            }
            let c = self.chars[self.pos];
            if c == '\n' {
                // blank line: skip, no layout tokens
                self.advance();
                continue;
            }
            if c == '#' {
                // comment-only line
                let p0 = self.pos;
                while self.pos < self.chars.len() && self.chars[self.pos] != '\n'
                    invariant
                        self.pos > p0 ==> (tabbed || tab_seen(cs, self.pos as int, true)) == tab_seen(
                            cs,
                            p_start,
                            false,
                        ),
                        self.pos == p0 ==> (tabbed || tab_seen(cs, self.pos as int, false)) == tab_seen(
                            cs,
                            p_start,
                            false,
                        ),
                        !tabbed ==> self.diags@ == old(self).diags@,
                        tabbed ==> has_layout_error(self.diags@),
                        lexer_step(*old(self), *self),
                        self.bracket_depth == old(self).bracket_depth,
                        self.line_had_tokens == old(self).line_had_tokens,
                        !old(self).line_had_tokens,
                        self.pos >= p0,
                        p0 >= p_iter,
                        p0 < self.chars@.len(),
                        self.chars@[p0 as int] == '#',
                        cs == old(self).chars@,
                        p_start == old(self).pos,
                        target == content_start(cs, p_start, false),
                        self.pos > p0 ==> content_start(cs, self.pos as int, true) == target,
                        self.pos == p0 ==> content_start(cs, self.pos as int, false) == target,
                        self.indent_stack@ == old(self).indent_stack@,
                        self.out@ == old(self).out@,
                        old(self).diags@.is_prefix_of(self.diags@),
                    decreases self.chars@.len() - self.pos,
                {
                    self.advance();
                }
                continue;
            }
            // real content: emit INDENT / DEDENT
            proof {
                lemma_spaces_from_run_start(cs, p_start, p_iter as int, self.pos as int);
                assert(!tab_seen(cs, self.pos as int, false));
                assert(tabbed == tab_seen(cs, p_start, false));
            }
            let ghost st = self.indent_stack@;
            let ghost n = self.out@.len();
            let top = self.indent_stack[self.indent_stack.len() - 1];
            if indent > top {
                self.indent_stack.push(indent);
                self.push_layout(TokKind::Indent);
            } else if indent < top {
                while self.indent_stack[self.indent_stack.len() - 1] > indent
                    invariant
                        lexer_step(*old(self), *self),
                        self.bracket_depth == old(self).bracket_depth,
                        self.line_had_tokens == old(self).line_had_tokens,
                        !old(self).line_had_tokens,
                        self.pos == target,
                        st == old(self).indent_stack@,
                        n == old(self).out@.len(),
                        pop_to(self.indent_stack@, indent as int) == pop_to(st, indent as int),
                        self.indent_stack@.len() <= st.len(),
                        self.out@.len() == n + (st.len() - self.indent_stack@.len()),
                        self.out@.subrange(0, n as int) == old(self).out@,
                        forall|i: int| n <= i < self.out@.len() ==> (#[trigger] self.out@[i]).kind is Dedent,
                        old(self).diags@.is_prefix_of(self.diags@),
                        tabbed == tab_seen(cs, p_start, false),
                        !tabbed ==> self.diags@ == old(self).diags@,
                        tabbed ==> has_layout_error(self.diags@),
                    decreases self.indent_stack@.len(),
                {
                    let ghost before = self.out@;
                    self.indent_stack.pop();
                    self.push_layout(TokKind::Dedent);
                    proof {
                        assert(self.out@.subrange(0, n as int) =~= before.subrange(0, n as int));
                        assert forall|i: int| n <= i < self.out@.len() implies (#[trigger] self.out@[i]).kind is Dedent by {
                            if i < before.len() {
                                assert(self.out@[i] == before[i]);
                            }
                        }
                    }
                }
                if self.indent_stack[self.indent_stack.len() - 1] != indent {
                    let ghost before = self.diags@;
                    self.err(
                        DiagCode::Layout,
                        str_to_string(
                            "inconsistent dedent does not match any outer indentation level",
                        ),
                    );
                    proof {
                        assert(before.is_prefix_of(self.diags@));
                        assert(self.diags@[self.diags@.len() - 1].severity == Severity::Error);
                    }
                }
            } else {
                proof {
                    assert(self.out@.subrange(0, n as int) =~= self.out@);
                }
            }
            return;
        }
    }

    /// The start of a logical line, as the plain-value state machine has it.
    fn start_line(&mut self)
        requires
            lexer_wf(*old(self)),
            !old(self).line_had_tokens,
        ensures
            lexer_step(*old(self), *final(self)),
            final(self).bracket_depth == old(self).bracket_depth,
            final(self).line_had_tokens == old(self).line_had_tokens,
            final(self).out@.len() >= old(self).out@.len(),
            final(self).out@.subrange(0, old(self).out@.len() as int) == old(self).out@,
            forall|i: int|
                old(self).out@.len() <= i < final(self).out@.len() ==> is_layout(
                    #[trigger] final(self).out@[i].kind,
                ),
            abs_state(*final(self)) == line_start(old(self).chars@, abs_state(*old(self))),
            tab_seen(old(self).chars@, old(self).pos as int, false) ==> has_layout_error(
                final(self).diags@,
            ),
            final(self).diags@ == old(self).diags@ || has_layout_error(final(self).diags@),
    {
        let ghost cs = self.chars@;
        let ghost a = abs_state(*self);
        let ghost o = self.out@;
        let ghost d = self.diags@;
        self.handle_line_start();
        proof {
            let q = content_start(cs, a.pos, false);
            let ind = spaces_before(cs, a.pos, q);
            let st = a.stack;
            let bad = tab_seen(cs, a.pos, false) || (q < cs.len() && ind < st.last() && pop_to(
                st,
                ind as int,
            ).last() != ind);
            if has_error(d) {
                lemma_error_kept(d, self.diags@);
            }
            if bad {
                let i = choose|i: int|
                    0 <= i < self.diags@.len() && #[trigger] self.diags@[i].severity
                        == Severity::Error && self.diags@[i].code == DiagCode::Layout;
                assert(self.diags@[i].severity == Severity::Error);
            }
            assert(has_error(self.diags@) == (a.err || bad));
            if q >= cs.len() {
                assert(self.out@ == o);
            } else if ind > st.last() {
                assert(self.out@ =~= o.push(self.out@.last()));
                lemma_kinds_push(o, self.out@.last());
            } else {
                lemma_kinds_dedents(o, self.out@, (st.len() - pop_to(st, ind as int).len()) as nat);
            }
            assert(abs_state(*self) == line_start(cs, a));
        }
    }

    /// Lexes an identifier or keyword starting at the cursor.
    fn lex_ident_or_kw(&mut self)
        requires
            lexer_wf(*old(self)),
            old(self).pos < old(self).chars@.len(),
            word_start(old(self).chars@[old(self).pos as int]),
        ensures
            lexer_step(*old(self), *final(self)),
            final(self).pos > old(self).pos,
            final(self).indent_stack@ == old(self).indent_stack@,
            final(self).bracket_depth == old(self).bracket_depth,
            ({
                let w = word_at(old(self).chars@, old(self).pos as int);
                &&& final(self).pos == old(self).pos + w.len()
                &&& final(self).diags@ == old(self).diags@
                &&& final(self).out@.len() == old(self).out@.len() + 1
                &&& final(self).out@.drop_last() == old(self).out@
                &&& forall|k: Keyword| kw_text(k) == w ==> final(self).out@.last().kind == TokKind::Kw(k)
                &&& (forall|k: Keyword| kw_text(k) != w) ==> (final(self).out@.last().kind matches TokKind::Ident(s) && s@ == w)
                &&& kind_view(final(self).out@.last().kind) == word_token(w)
            }),
            final(self).line_had_tokens,
    {
        let lo = self.byte();
        let line = self.line;
        let col = self.col;
        let p0 = self.pos;
        let mut w: Vec<char> = Vec::new();
        while self.pos < self.chars.len() && is_word_char(self.chars[self.pos])
            invariant
                lexer_step(*old(self), *self),
                self.pos >= p0,
                p0 == old(self).pos,
                self.out@ == old(self).out@,
                self.diags@ == old(self).diags@,
                self.indent_stack@ == old(self).indent_stack@,
                self.bracket_depth == old(self).bracket_depth,
                w@ == self.chars@.subrange(p0 as int, self.pos as int),
                word_run(self.chars@, p0 as int) == (self.pos - p0) + word_run(
                    self.chars@,
                    self.pos as int,
                ),
            decreases self.chars@.len() - self.pos,
        {
            w.push(self.chars[self.pos]);
            self.advance();
            proof {
                assert(w@ =~= self.chars@.subrange(p0 as int, self.pos as int));
            }
        }
        proof {
            assert(w@ == word_at(old(self).chars@, old(self).pos as int));
        }
        let found = keyword_of(w.as_slice());
        let kind = match found {
            Some(k) => TokKind::Kw(k),
            None => TokKind::Ident(string_from_chars(&w)),
        };
        self.push(kind, lo, line, col);
        proof {
            if let Some(k0) = found {
                assert forall|k: Keyword| kw_text(k) == w@ implies self.out@.last().kind
                    == TokKind::Kw(k) by {
                    lemma_kw_text_injective(k, k0);
                }
                let kc = choose|k: Keyword| kw_text(k) == w@;
                assert(kw_text(kc) == w@);
            }
        }
    }

    /// Looks at the word at the cursor (letters, digits, `_`) without consuming it.
    fn probe_word(&self) -> (w: Vec<char>)
        requires
            lexer_wf(*self),
        ensures
            w@ == word_at(self.chars@, self.pos as int),
            self.pos + w@.len() <= self.chars@.len(),
    {
        let mut probe = self.pos;
        let mut w: Vec<char> = Vec::new();
        while probe < self.chars.len() && is_word_char(self.chars[probe])
            invariant
                lexer_wf(*self),
                self.pos <= probe <= self.chars@.len(),
                w@ == self.chars@.subrange(self.pos as int, probe as int),
                word_run(self.chars@, self.pos as int) == (probe - self.pos) + word_run(
                    self.chars@,
                    probe as int,
                ),
            decreases self.chars@.len() - probe,
        {
            w.push(self.chars[probe]);
            probe = probe + 1;
            proof {
                assert(w@ =~= self.chars@.subrange(self.pos as int, probe as int));
            }
        }
        w
    }

    /// Consumes an `f32` / `f64` suffix if the word at the cursor is one.
    fn try_lex_float_suffix(&mut self) -> (r: Option<String>)
        requires
            lexer_wf(*old(self)),
        ensures
            lexer_step(*old(self), *final(self)),
            final(self).out@ == old(self).out@,
            final(self).indent_stack@ == old(self).indent_stack@,
            final(self).bracket_depth == old(self).bracket_depth,
            final(self).line_had_tokens == old(self).line_had_tokens,
            final(self).diags@ == old(self).diags@,
            ({
                let w = word_at(old(self).chars@, old(self).pos as int);
                if w == "f32"@ || w == "f64"@ {
                    r matches Some(s) && s@ == w && final(self).pos == old(self).pos + w.len()
                } else {
                    r is None && *final(self) == *old(self)
                }
            }),
    {
        let w = self.probe_word();
        if chars_eq_str(w.as_slice(), "f32") || chars_eq_str(w.as_slice(), "f64") {
            self.advance_n(w.len());
            Some(string_from_chars(&w))
        } else {
            None
        }
    }

    /// Consumes an integer suffix (`i8` .. `u64`, `nat`) if the word at the cursor is one.
    fn try_lex_num_suffix(&mut self) -> (r: Option<NumSuffix>)
        requires
            lexer_wf(*old(self)),
        ensures
            lexer_step(*old(self), *final(self)),
            final(self).out@ == old(self).out@,
            final(self).indent_stack@ == old(self).indent_stack@,
            final(self).bracket_depth == old(self).bracket_depth,
            final(self).line_had_tokens == old(self).line_had_tokens,
            final(self).diags@ == old(self).diags@,
            r == num_suffix_of(word_at(old(self).chars@, old(self).pos as int)),
            r is Some ==> final(self).pos == old(self).pos + word_at(
                old(self).chars@,
                old(self).pos as int,
            ).len(),
            r is None ==> *final(self) == *old(self),
    {
        let w = self.probe_word();
        let ws = w.as_slice();
        let suf = if chars_eq_str(ws, "i8") {
            NumSuffix::I(8)
        } else if chars_eq_str(ws, "i16") {
            NumSuffix::I(16)
        } else if chars_eq_str(ws, "i32") {
            NumSuffix::I(32)
        } else if chars_eq_str(ws, "i64") {
            NumSuffix::I(64)
        } else if chars_eq_str(ws, "u8") {
            NumSuffix::U(8)
        } else if chars_eq_str(ws, "u16") {
            NumSuffix::U(16)
        } else if chars_eq_str(ws, "u32") {
            NumSuffix::U(32)
        } else if chars_eq_str(ws, "u64") {
            NumSuffix::U(64)
        } else if chars_eq_str(ws, "nat") {
            NumSuffix::Nat
        } else {
            return None;
        };
        self.advance_n(w.len());
        Some(suf)
    }

    /// Whether the cursor is on a digit (with `binary`, on `0` or `1`).
    fn digit_at_cursor(&self, binary: bool) -> (b: bool)
        requires
            lexer_wf(*self),
        ensures
            b == (self.pos < self.chars@.len() && digit_ok(self.chars@[self.pos as int], binary)),
    {
        if self.pos >= self.chars.len() {
            false
        } else if binary {
            self.chars[self.pos] == '0' || self.chars[self.pos] == '1'
        } else {
            is_ascii_digit(self.chars[self.pos])
        }
    }

    /// Consumes characters while they are ASCII digits (or, with `binary`, `0`/`1`),
    /// appending them to `s`.
    fn take_digits(&mut self, s: &mut String, binary: bool)
        requires
            lexer_wf(*old(self)),
        ensures
            lexer_step(*old(self), *final(self)),
            final(self).out@ == old(self).out@,
            final(self).indent_stack@ == old(self).indent_stack@,
            final(self).bracket_depth == old(self).bracket_depth,
            final(self).line_had_tokens == old(self).line_had_tokens,
            final(self).diags@ == old(self).diags@,
            final(self).pos == old(self).pos + digit_run(
                old(self).chars@,
                old(self).pos as int,
                binary,
            ),
            final(s)@ == old(s)@ + old(self).chars@.subrange(
                old(self).pos as int,
                final(self).pos as int,
            ),
    {
        while self.digit_at_cursor(binary)
            invariant
                lexer_step(*old(self), *self),
                self.out@ == old(self).out@,
                self.indent_stack@ == old(self).indent_stack@,
                self.bracket_depth == old(self).bracket_depth,
                self.line_had_tokens == old(self).line_had_tokens,
                self.diags@ == old(self).diags@,
                digit_run(old(self).chars@, old(self).pos as int, binary) == (self.pos - old(
                    self,
                ).pos) + digit_run(self.chars@, self.pos as int, binary),
                s@ == old(s)@ + old(self).chars@.subrange(
                    old(self).pos as int,
                    self.pos as int,
                ),
            decreases self.chars@.len() - self.pos,
        {
            push_char(s, self.chars[self.pos]);
            self.advance();
            proof {
                assert(s@ =~= old(s)@ + old(self).chars@.subrange(
                    old(self).pos as int,
                    self.pos as int,
                ));
            }
        }
    }

    /// Lexes a number: a binary literal `0b..`, a float `d+.d+` with an optional
    /// `f32`/`f64` suffix, or a decimal integer with an optional suffix.
    #[verifier::rlimit(100)]
    #[verifier::spinoff_prover]
    fn lex_number(&mut self)
        requires
            lexer_wf(*old(self)),
            old(self).pos < old(self).chars@.len(),
            ascii_digit(old(self).chars@[old(self).pos as int]),
        ensures
            lexer_step(*old(self), *final(self)),
            final(self).pos > old(self).pos,
            final(self).indent_stack@ == old(self).indent_stack@,
            final(self).bracket_depth == old(self).bracket_depth,
            final(self).out@.len() == old(self).out@.len() + 1,
            final(self).out@.drop_last() == old(self).out@,
            final(self).out@.last().kind is Int || final(self).out@.last().kind is Float,
            kind_view(final(self).out@.last().kind) == number_at(
                old(self).chars@,
                old(self).pos as int,
            ).0,
            final(self).pos == number_at(old(self).chars@, old(self).pos as int).1,
            final(self).diags@ == old(self).diags@,
            final(self).line_had_tokens,
    {
        let ghost cs = self.chars@;
        let ghost p = self.pos as int;
        let lo = self.byte();
        let line = self.line;
        let col = self.col;
        let mut s = String::new();
        // binary literal 0b...
        if self.at(0, '0') && self.at(1, 'b') {
            push_char(&mut s, '0');
            push_char(&mut s, 'b');
            self.advance_n(2);
            self.take_digits(&mut s, true);
            proof {
                assert(char_is(cs, p, '0') && char_is(cs, p + 1, 'b'));
                assert(self.pos == p + 2 + digit_run(cs, p + 2, true));
                assert(s@ =~= cs.subrange(p, self.pos as int));
                assert(number_at(cs, p) == (TokView::Int(s@, None), self.pos as int));
            }
            self.push(TokKind::Int(s, None), lo, line, col);
            return;
        }
        push_char(&mut s, self.chars[self.pos]);
        self.advance();
        self.take_digits(&mut s, false);
        proof {
            assert(s@ =~= cs.subrange(p, self.pos as int));
            assert(!(char_is(cs, p, '0') && char_is(cs, p + 1, 'b')));
        }
        self.lex_decimal_rest(s, lo, line, col, Ghost(p));
    }

    /// Finishes a decimal number whose digits `s` (from `p` to the cursor) have
    /// been read: a fraction with an optional float suffix, or an integer suffix.
    #[verifier::rlimit(60)]
    #[verifier::spinoff_prover]
    fn lex_decimal_rest(&mut self, s: String, lo: u32, line: u32, col: u32, Ghost(p): Ghost<int>)
        requires
            lexer_wf(*old(self)),
            0 <= p < old(self).pos,
            old(self).pos == p + 1 + digit_run(old(self).chars@, p + 1, false),
            !(char_is(old(self).chars@, p, '0') && char_is(old(self).chars@, p + 1, 'b')),
            s@ == old(self).chars@.subrange(p, old(self).pos as int),
        ensures
            lexer_step(*old(self), *final(self)),
            final(self).indent_stack@ == old(self).indent_stack@,
            final(self).bracket_depth == old(self).bracket_depth,
            final(self).out@.len() == old(self).out@.len() + 1,
            final(self).out@.drop_last() == old(self).out@,
            final(self).out@.last().kind is Int || final(self).out@.last().kind is Float,
            kind_view(final(self).out@.last().kind) == number_at(old(self).chars@, p).0,
            final(self).pos == number_at(old(self).chars@, p).1,
            final(self).pos >= old(self).pos,
            final(self).diags@ == old(self).diags@,
            final(self).line_had_tokens,
    {
        let ghost cs = self.chars@;
        let ghost e1 = self.pos as int;
        let mut s = s;
        // float: digit+ '.' digit+   (but not '..' range)
        if self.at(0, '.') && self.pos + 1 < self.chars.len() && is_ascii_digit(
            self.chars[self.pos + 1],
        ) {
            self.lex_fraction(s, lo, line, col, Ghost(p));
            return;
        }
        // integer suffix
        proof {
            assert(!(char_is(cs, e1, '.') && e1 + 1 < cs.len() && ascii_digit(cs[e1 + 1])));
        }
        let suffix = self.try_lex_num_suffix();
        self.push(TokKind::Int(s, suffix), lo, line, col);
    }

    /// Finishes a float whose integer digits `s` (from `p` to the cursor, which
    /// is on `.` followed by a digit) have been read.
    #[verifier::rlimit(60)]
    #[verifier::spinoff_prover]
    fn lex_fraction(&mut self, s: String, lo: u32, line: u32, col: u32, Ghost(p): Ghost<int>)
        requires
            lexer_wf(*old(self)),
            0 <= p < old(self).pos,
            old(self).pos == p + 1 + digit_run(old(self).chars@, p + 1, false),
            !(char_is(old(self).chars@, p, '0') && char_is(old(self).chars@, p + 1, 'b')),
            s@ == old(self).chars@.subrange(p, old(self).pos as int),
            char_is(old(self).chars@, old(self).pos as int, '.'),
            old(self).pos + 1 < old(self).chars@.len(),
            ascii_digit(old(self).chars@[old(self).pos + 1]),
        ensures
            lexer_step(*old(self), *final(self)),
            final(self).indent_stack@ == old(self).indent_stack@,
            final(self).bracket_depth == old(self).bracket_depth,
            final(self).out@.len() == old(self).out@.len() + 1,
            final(self).out@.drop_last() == old(self).out@,
            final(self).out@.last().kind is Float,
            kind_view(final(self).out@.last().kind) == number_at(old(self).chars@, p).0,
            final(self).pos == number_at(old(self).chars@, p).1,
            final(self).pos >= old(self).pos,
            final(self).diags@ == old(self).diags@,
            final(self).line_had_tokens,
    {
        let ghost cs = self.chars@;
        let ghost e1 = self.pos as int;
        let mut s = s;
        push_char(&mut s, '.');
        self.advance();
        self.take_digits(&mut s, false);
        proof {
            assert(s@ =~= cs.subrange(p, self.pos as int));
        }
        let ghost e2 = self.pos as int;
        proof {
            assert(char_is(cs, e1, '.') && e1 + 1 < cs.len() && ascii_digit(cs[e1 + 1]));
            assert(e2 == e1 + 1 + digit_run(cs, e1 + 1, false));
        }
        // optional f32/f64 suffix
        let suffix = self.try_lex_float_suffix();
        if let Some(suf) = suffix {
            let ghost before = s@;
            push_str(&mut s, suf.as_str());
            proof {
                let w = word_at(cs, e2);
                lemma_word_run_bound(cs, e2);
                assert(suf@ == w);
                assert(before == cs.subrange(p, e2));
                assert(s@ == before + suf@);
                assert(self.pos == e2 + w.len());
                assert(cs.subrange(p, e2 + w.len()) =~= cs.subrange(p, e2) + cs.subrange(
                    e2,
                    e2 + w.len(),
                ));
                assert(s@ =~= cs.subrange(p, self.pos as int));
            }
        }
        self.push(TokKind::Float(s), lo, line, col);
    }

    /// Lexes a string literal with escapes `\n \t \\ \" \0`.
    fn lex_string(&mut self)
        requires
            lexer_wf(*old(self)),
            old(self).pos < old(self).chars@.len(),
        ensures
            lexer_step(*old(self), *final(self)),
            final(self).pos > old(self).pos,
            final(self).indent_stack@ == old(self).indent_stack@,
            final(self).bracket_depth == old(self).bracket_depth,
            final(self).out@.len() == old(self).out@.len() + 1,
            final(self).out@.drop_last() == old(self).out@,
            final(self).out@.last().kind is Str,
            ({
                let (t, e, bad) = string_from(old(self).chars@, old(self).pos + 1, Seq::empty());
                &&& kind_view(final(self).out@.last().kind) == TokView::Str(t)
                &&& final(self).pos == e
                &&& has_error(final(self).diags@) == (has_error(old(self).diags@) || bad)
            }),
            final(self).line_had_tokens,
    {
        let ghost target = string_from(self.chars@, self.pos + 1, Seq::empty());
        let lo = self.byte();
        let line = self.line;
        let col = self.col;
        self.advance(); // opening quote
        let p1 = self.pos;
        let mut s = String::new();
        while self.pos < self.chars.len()
            invariant
                lexer_step(*old(self), *self),
                self.pos >= p1,
                p1 == old(self).pos + 1,
                self.indent_stack@ == old(self).indent_stack@,
                self.bracket_depth == old(self).bracket_depth,
                self.out@ == old(self).out@,
                self.diags@ == old(self).diags@,
                target == string_from(old(self).chars@, old(self).pos + 1, Seq::empty()),
                string_from(self.chars@, self.pos as int, s@) == target,
            ensures
                lexer_step(*old(self), *self),
                self.indent_stack@ == old(self).indent_stack@,
                self.bracket_depth == old(self).bracket_depth,
                self.out@ == old(self).out@,
                self.diags@ == old(self).diags@,
                target == (s@, self.pos as int, true),
            decreases self.chars@.len() - self.pos,
        {
            let c = self.chars[self.pos];
            if c == '"' {
                self.advance();
                self.push(TokKind::Str(s), lo, line, col);
                return;
            } else if c == '\\' {
                self.advance();
                match self.advance() {
                    Some('n') => push_char(&mut s, '\n'),
                    Some('t') => push_char(&mut s, '\t'),
                    Some('\\') => push_char(&mut s, '\\'),
                    Some('"') => push_char(&mut s, '"'),
                    Some('0') => push_char(&mut s, '\0'),
                    Some(other) => push_char(&mut s, other),
                    None => break,
                }
            } else if c == '\n' {
                break;
            } else {
                push_char(&mut s, c);
                self.advance();
            }
        }
        self.err(DiagCode::Lex, str_to_string("unterminated string literal"));
        proof {
            assert(self.diags@[self.diags@.len() - 1].severity == Severity::Error);
        }
        self.push(TokKind::Str(s), lo, line, col);
    }

    /// Lexes a character literal with escapes `\n \t \\ \' \0`.
    fn lex_char(&mut self)
        requires
            lexer_wf(*old(self)),
            old(self).pos < old(self).chars@.len(),
        ensures
            lexer_step(*old(self), *final(self)),
            final(self).pos > old(self).pos,
            final(self).indent_stack@ == old(self).indent_stack@,
            final(self).bracket_depth == old(self).bracket_depth,
            final(self).out@.len() == old(self).out@.len() + 1,
            final(self).out@.drop_last() == old(self).out@,
            final(self).out@.last().kind is Char,
            ({
                let (ch, e, bad) = char_at(old(self).chars@, old(self).pos as int);
                &&& kind_view(final(self).out@.last().kind) == TokView::Char(ch)
                &&& final(self).pos == e
                &&& has_error(final(self).diags@) == (has_error(old(self).diags@) || bad)
            }),
            final(self).line_had_tokens,
    {
        let lo = self.byte();
        let line = self.line;
        let col = self.col;
        self.advance(); // '
        let ch = if self.pos < self.chars.len() {
            let c = self.chars[self.pos];
            if c == '\\' {
                self.advance();
                match self.advance() {
                    Some('n') => '\n',
                    Some('t') => '\t',
                    Some('\\') => '\\',
                    Some('\'') => '\'',
                    Some('0') => '\0',
                    Some(o) => o,
                    None => {
                        self.err(DiagCode::Lex, str_to_string("unterminated char literal"));
                        '\0'
                    },
                }
            } else {
                self.advance();
                c
            }
        } else {
            self.err(DiagCode::Lex, str_to_string("unterminated char literal"));
            '\0'
        };
        if self.at(0, '\'') {
            self.advance();
        } else {
            self.err(DiagCode::Lex, str_to_string("expected closing ' in char literal"));
            proof {
                assert(self.diags@.last().severity == Severity::Error);
                assert(self.diags@[self.diags@.len() - 1].severity == Severity::Error);
            }
        }
        self.push(TokKind::Char(ch), lo, line, col);
    }

    /// Emits the `n`-character symbol `kind`, tracking bracket depth for implicit
    /// line joining.
    fn sym(&mut self, kind: Sym, n: usize)
        requires
            lexer_wf(*old(self)),
            1 <= n,
            old(self).pos + n <= old(self).chars@.len(),
        ensures
            lexer_step(*old(self), *final(self)),
            final(self).pos == old(self).pos + n,
            final(self).indent_stack@ == old(self).indent_stack@,
            final(self).diags@ == old(self).diags@,
            final(self).out@.len() == old(self).out@.len() + 1,
            final(self).out@.drop_last() == old(self).out@,
            final(self).out@.last().kind == TokKind::Sym(kind),
            final(self).bracket_depth == depth_step(old(self).bracket_depth as int, TokKind::Sym(kind)),
            final(self).line_had_tokens,
    {
        let lo = self.byte();
        let line = self.line;
        let col = self.col;
        self.advance_n(n);
        self.push(TokKind::Sym(kind), lo, line, col);
        match kind {
            Sym::LParen | Sym::LBracket | Sym::LBrace => {
                self.bracket_depth = self.bracket_depth + 1;
            },
            Sym::RParen | Sym::RBracket | Sym::RBrace => {
                self.bracket_depth = if self.bracket_depth - 1 < 0 {
                    0
                } else {
                    self.bracket_depth - 1
                };
            },
            _ => {},
        }
    }

    /// Lexes an operator or punctuation symbol (or reports an unexpected character).
    fn lex_symbol(&mut self)
        requires
            lexer_wf(*old(self)),
            old(self).pos < old(self).chars@.len(),
        ensures
            lexer_step(*old(self), *final(self)),
            final(self).pos > old(self).pos,
            final(self).indent_stack@ == old(self).indent_stack@,
            symbol_at(old(self).chars@, old(self).pos as int) matches Some((s, n)) ==> {
                &&& final(self).pos == old(self).pos + n
                &&& final(self).diags@ == old(self).diags@
                &&& final(self).out@.len() == old(self).out@.len() + 1
                &&& final(self).out@.drop_last() == old(self).out@
                &&& final(self).out@.last().kind == TokKind::Sym(s)
                &&& final(self).bracket_depth == depth_step(old(self).bracket_depth as int, TokKind::Sym(s))
                &&& final(self).line_had_tokens
            },
            symbol_at(old(self).chars@, old(self).pos as int) is None ==> {
                &&& final(self).pos == old(self).pos + 1
                &&& final(self).out@ == old(self).out@
                &&& final(self).diags@.len() == old(self).diags@.len() + 1
                &&& final(self).diags@.drop_last() == old(self).diags@
                &&& final(self).diags@.last().severity == Severity::Error
                &&& final(self).diags@.last().code == DiagCode::Lex
                &&& final(self).bracket_depth == old(self).bracket_depth
                &&& final(self).line_had_tokens == old(self).line_had_tokens
            },
    {
        let c = self.chars[self.pos];
        if c == '(' {
            self.sym(Sym::LParen, 1);
        } else if c == ')' {
            self.sym(Sym::RParen, 1);
        } else if c == '[' {
            self.sym(Sym::LBracket, 1);
        } else if c == ']' {
            self.sym(Sym::RBracket, 1);
        } else if c == '{' {
            self.sym(Sym::LBrace, 1);
        } else if c == '}' {
            self.sym(Sym::RBrace, 1);
        } else if c == ':' {
            self.sym(Sym::Colon, 1);
        } else if c == ',' {
            self.sym(Sym::Comma, 1);
        } else if c == '@' {
            self.sym(Sym::At, 1);
        } else if c == '~' {
            self.sym(Sym::Tilde, 1);
        } else if c == '.' {
            if self.at(1, '.') {
                if self.at(2, '=') {
                    self.sym(Sym::DotDotEq, 3);
                } else {
                    self.sym(Sym::DotDot, 2);
                }
            } else {
                self.sym(Sym::Dot, 1);
            }
        } else if c == '-' {
            if self.at(1, '>') {
                self.sym(Sym::Arrow, 2);
            } else if self.at(1, '=') {
                self.sym(Sym::MinusEq, 2);
            } else {
                self.sym(Sym::Minus, 1);
            }
        } else if c == '=' {
            if self.at(1, '=') {
                self.sym(Sym::EqEq, 2);
            } else if self.at(1, '>') {
                self.sym(Sym::FatArrow, 2);
            } else {
                self.sym(Sym::Eq, 1);
            }
        } else if c == '!' {
            if self.at(1, '=') {
                self.sym(Sym::Ne, 2);
            } else {
                self.err(
                    DiagCode::Lex,
                    str_to_string("unexpected '!' (did you mean '!=' or 'not'?)"),
                );
                self.advance();
            }
        } else if c == '<' {
            if self.at(1, '=') {
                self.sym(Sym::Le, 2);
            } else if self.at(1, '<') {
                self.sym(Sym::Shl, 2);
            } else {
                self.sym(Sym::Lt, 1);
            }
        } else if c == '>' {
            if self.at(1, '=') {
                self.sym(Sym::Ge, 2);
            } else if self.at(1, '>') {
                self.sym(Sym::Shr, 2);
            } else {
                self.sym(Sym::Gt, 1);
            }
        } else if c == '+' {
            if self.at(1, '=') {
                self.sym(Sym::PlusEq, 2);
            } else {
                self.sym(Sym::Plus, 1);
            }
        } else if c == '*' {
            if self.at(1, '*') {
                self.sym(Sym::StarStar, 2);
            } else if self.at(1, '=') {
                self.sym(Sym::StarEq, 2);
            } else {
                self.sym(Sym::Star, 1);
            }
        } else if c == '/' {
            if self.at(1, '/') {
                self.sym(Sym::SlashSlash, 2);
            } else if self.at(1, '=') {
                self.sym(Sym::SlashEq, 2);
            } else {
                self.sym(Sym::Slash, 1);
            }
        } else if c == '%' {
            if self.at(1, '=') {
                self.sym(Sym::PercentEq, 2);
            } else {
                self.sym(Sym::Percent, 1);
            }
        } else if c == '^' {
            if self.at(1, '=') {
                self.sym(Sym::CaretEq, 2);
            } else {
                self.sym(Sym::Caret, 1);
            }
        } else if c == '&' {
            if self.at(1, '=') {
                self.sym(Sym::AmpEq, 2);
            } else {
                self.sym(Sym::Amp, 1);
            }
        } else if c == '|' {
            if self.at(1, '=') {
                self.sym(Sym::PipeEq, 2);
            } else {
                self.sym(Sym::Pipe, 1);
            }
        } else {
            let mut msg = str_to_string("unexpected character ");
            let shown = debug_char(c);
            push_str(&mut msg, shown.as_str());
            self.err(DiagCode::Lex, msg);
            self.advance();
        }
    }

    /// A step of the main loop at a comment or a token.
    #[verifier::rlimit(100)]
    #[verifier::spinoff_prover]
    fn token_step(&mut self)
        requires
            lexer_wf(*old(self)),
            old(self).pos < old(self).chars@.len(),
            old(self).chars@[old(self).pos as int] != ' ',
            old(self).chars@[old(self).pos as int] != '\t',
            old(self).chars@[old(self).pos as int] != '\n',
            old(self).bracket_depth == depth_of(old(self).out@),
            top_layout(old(self).out@),
        ensures
            lexer_step(*old(self), *final(self)),
            final(self).pos > old(self).pos,
            final(self).bracket_depth == depth_of(final(self).out@),
            top_layout(final(self).out@),
            abs_state(*final(self)) == lex_token(old(self).chars@, abs_state(*old(self))),
    {
        let ghost o = self.out@;
        let ghost s0 = abs_state(*self);
        let ghost d0 = self.diags@;
        let ghost cs = self.chars@;
        let c = self.chars[self.pos];
        if c == '#' {
            let p0 = self.pos;
            while self.pos < self.chars.len() && self.chars[self.pos] != '\n'
                invariant
                    lexer_step(*old(self), *self),
                    cs == old(self).chars@,
                    self.out@ == o,
                    self.bracket_depth == depth_of(self.out@),
                    top_layout(self.out@),
                    self.pos >= p0,
                    p0 < self.chars@.len(),
                    self.chars@[p0 as int] == '#',
                    p0 == s0.pos,
                    self.diags@ == d0,
                    self.indent_stack@ == s0.stack,
                    self.line_had_tokens == s0.lht,
                    comment_end(self.chars@, self.pos as int) == comment_end(self.chars@, p0 as int),
                decreases self.chars@.len() - self.pos,
            {
                self.advance();
            }
            proof {
                assert(lex_token(cs, s0) == abs_state(*self));
            }
        } else if c == '"' {
            self.lex_string();
            proof {
                lemma_emitted(o, self.out@);
                assert(lex_token(cs, s0) == abs_state(*self));
            }
        } else if c == '\'' {
            self.lex_char();
            proof {
                lemma_emitted(o, self.out@);
                assert(lex_token(cs, s0) == abs_state(*self));
            }
        } else if is_word_start(c) {
            self.lex_ident_or_kw();
            proof {
                lemma_emitted(o, self.out@);
                assert(lex_token(cs, s0) == abs_state(*self));
            }
        } else if is_ascii_digit(c) {
            self.lex_number();
            proof {
                lemma_emitted(o, self.out@);
                assert(lex_token(cs, s0) == abs_state(*self));
            }
        } else {
            self.lex_symbol();
            proof {
                if self.out@.len() == o.len() + 1 {
                    lemma_emitted(o, self.out@);
                } else {
                    assert(self.diags@[self.diags@.len() - 1].severity == Severity::Error);
                }
                assert(lex_token(cs, s0) == abs_state(*self));
            }
        }
    }

    /// One step of the main loop at the character under the cursor.
    #[verifier::rlimit(100)]
    #[verifier::spinoff_prover]
    fn step(&mut self)
        requires
            lexer_wf(*old(self)),
            old(self).pos < old(self).chars@.len(),
            old(self).bracket_depth == depth_of(old(self).out@),
            top_layout(old(self).out@),
        ensures
            lexer_step(*old(self), *final(self)),
            final(self).pos > old(self).pos,
            final(self).bracket_depth == depth_of(final(self).out@),
            top_layout(final(self).out@),
            abs_state(*final(self)) == lex_step(old(self).chars@, abs_state(*old(self))),
    {
        let ghost o = self.out@;
        let ghost s0 = abs_state(*self);
        let ghost cs = self.chars@;
        let c = self.chars[self.pos];
        if c == ' ' {
            self.advance();
        } else if c == '\t' {
            // tab inside a line
            self.err(DiagCode::Layout, str_to_string("tab character in source (use spaces)"));
            self.advance();
            proof {
                assert(self.diags@[self.diags@.len() - 1].severity == Severity::Error);
            }
        } else if c == '\n' {
            self.advance();
            if self.bracket_depth == 0 {
                if self.line_had_tokens {
                    self.push_layout(TokKind::Newline);
                    proof {
                        assert(self.out@ =~= o.push(self.out@.last()));
                        lemma_depth_push(o, self.out@.last());
                        lemma_kinds_push(o, self.out@.last());
                    }
                }
                self.line_had_tokens = false;
                let ghost o2 = self.out@;
                proof {
                    let s1 = if s0.lht {
                        LexState {
                            pos: s0.pos + 1,
                            lht: false,
                            toks: s0.toks.push(TokView::Newline),
                            ..s0
                        }
                    } else {
                        LexState { pos: s0.pos + 1, lht: false, ..s0 }
                    };
                    assert(abs_state(*self) == s1);
                }
                self.start_line();
                proof {
                    lemma_append_layout(o2, self.out@);
                }
            }
        } else {
            self.token_step();
        }
        proof {
            assert(lex_step(cs, s0) == abs_state(*self));
            assert(s0.pos < abs_state(*self).pos <= cs.len());
        }
    }

    /// Closes the input: a final `Newline` when the last line has content, a
    /// `Dedent` for each open block, and `Eof`; the tokens if no error was
    /// recorded, else the diagnostics.
    #[verifier::rlimit(100)]
    #[verifier::spinoff_prover]
    fn finish(self) -> (r: Result<Vec<Token>, Vec<Diagnostic>>)
        requires
            lexer_wf(self),
            self.pos == self.chars@.len(),
            self.bracket_depth == depth_of(self.out@),
            top_layout(self.out@),
        ensures
            match r {
                Ok(toks) => well_formed_tokens(toks@) && forall|i: int|
                    0 <= i < toks@.len() ==> (#[trigger] toks@[i]).span.file == self.file,
                Err(ds) => ds@ == self.diags@,
            },
            (r is Err) == has_error(self.diags@),
            r matches Ok(toks) ==> toks@.len() > self.out@.len() && toks@.subrange(
                0,
                self.out@.len() as int,
            ) == self.out@,
            r matches Ok(toks) ==> joined_in_brackets(toks@),
            r matches Ok(toks) ==> newlines_after_content(toks@),
            r matches Ok(toks) ==> kinds_of(toks@) == kinds_of(self.out@) + (if self.line_had_tokens {
                seq![TokView::Newline]
            } else {
                seq![]
            }) + dedents((self.indent_stack@.len() - 1) as nat) + seq![TokView::Eof],
    {
        broadcast use lemma_error_survives;

        let mut lx = self;
        let ghost main_out = lx.out@;
        // final newline + dedents
        if lx.line_had_tokens {
            lx.push_layout(TokKind::Newline);
            proof {
                lemma_emitted(main_out, lx.out@);
            }
        }
        let ghost after_nl = lx.out@;
        proof {
            if !self.line_had_tokens {
                assert(after_nl == main_out);
            }
        }
        while lx.indent_stack.len() > 1
            invariant
                lexer_wf(lx),
                lx.file == self.file,
                lx.diags@ == self.diags@,
                lx.chars@ == self.chars@,
                1 <= lx.indent_stack@.len() <= self.indent_stack@.len(),
                lx.out@.len() == after_nl.len() + (self.indent_stack@.len() - lx.indent_stack@.len()),
                lx.out@.subrange(0, after_nl.len() as int) == after_nl,
                forall|i: int|
                    after_nl.len() <= i < lx.out@.len() ==> (#[trigger] lx.out@[i]).kind is Dedent,
            decreases lx.indent_stack@.len(),
        {
            let ghost o3 = lx.out@;
            lx.indent_stack.pop();
            lx.push_layout(TokKind::Dedent);
            proof {
                assert(lx.out@.subrange(0, after_nl.len() as int) =~= o3.subrange(
                    0,
                    after_nl.len() as int,
                ));
                assert forall|i: int| after_nl.len() <= i < lx.out@.len() implies (
                #[trigger] lx.out@[i]).kind is Dedent by {
                    if i < o3.len() {
                        assert(lx.out@[i] == o3[i]);
                    }
                }
            }
        }
        proof {
            assert(lx.out@.subrange(0, main_out.len() as int) =~= main_out) by {
                assert(after_nl.subrange(0, main_out.len() as int) =~= main_out);
                assert forall|i: int| 0 <= i < main_out.len() implies lx.out@[i] == main_out[i] by {
                    assert(lx.out@[i] == lx.out@.subrange(0, after_nl.len() as int)[i]);
                    assert(after_nl[i] == after_nl.subrange(0, main_out.len() as int)[i]);
                }
            }
            assert forall|i: int| main_out.len() <= i < lx.out@.len() implies is_layout(
                #[trigger] lx.out@[i].kind,
            ) by {
                if i < after_nl.len() {
                    assert(lx.out@[i] == lx.out@.subrange(0, after_nl.len() as int)[i]);
                    assert(after_nl[i] == after_nl.last());
                } else {
                    assert(lx.out@[i].kind is Dedent);
                }
            }
        }
        let b = lx.src_len as u32;
        let eof = Token { kind: TokKind::Eof, span: Span::new(lx.file, b, b, lx.line, lx.col) };
        proof {
            lemma_balance_push(lx.out@, eof);
            lemma_prefix_push(lx.out@, eof);
            lemma_newline_push(lx.out@, eof);
        }
        let ghost before = lx.out@;
        lx.out.push(eof);
        proof {
            assert(lx.out@.last() == eof);
            assert forall|i: int| 0 <= i < lx.out@.len() - 1 implies !(#[trigger] lx.out@[i].kind is Eof)
                && lx.out@[i].span.file == self.file by {
                assert(lx.out@[i] == before[i]);
            }
            assert(layout_balance(before) == 0);
            assert(layout_balance(lx.out@) == 0);
            assert(well_formed_tokens(lx.out@));
            assert forall|i: int, j: int|
                0 <= i < j < lx.out@.len() && is_layout(#[trigger] lx.out@[i].kind) && !is_layout(
                    #[trigger] lx.out@[j].kind,
                ) && !(lx.out@[j].kind is Eof) implies depth_of(lx.out@.take(i)) == 0 by {
                if j >= main_out.len() && j < before.len() {
                    assert(lx.out@[j] == before[j]);
                }
                assert(j < main_out.len());
                assert(lx.out@[i] == before[i]);
                assert(before[i] == main_out[i]);
                lemma_top_layout_index(main_out, i);
                assert(lx.out@.take(i) =~= main_out.take(i));
            }
            assert forall|i: int| 0 <= i < lx.out@.len() implies (#[trigger] lx.out@[i]).span.file
                == self.file by {
                if i < lx.out@.len() - 1 {
                    assert(lx.out@[i] == before[i]);
                    assert(!(before[i].kind is Eof));
                } else {
                    assert(lx.out@[i] == eof);
                    assert(eof.span.file == lx.file);
                }
            }
        }
        proof {
            let nd = (self.indent_stack@.len() - 1) as nat;
            lemma_kinds_dedents(after_nl, before, nd);
            lemma_kinds_push(before, eof);
            assert(lx.out@.subrange(0, main_out.len() as int) =~= main_out);
        }
        if any_error(&lx.diags) {
            Err(lx.diags)
        } else {
            Ok(lx.out)
        }
    }

    fn run(self) -> (r: Result<Vec<Token>, Vec<Diagnostic>>)
        requires
            lexer_wf(self),
            self.pos == 0,
            self.out@.len() == 0,
            self.diags@.len() == 0,
            self.indent_stack@.len() == 1,
        ensures
            match r {
                Ok(toks) => well_formed_tokens(toks@) && forall|i: int|
                    0 <= i < toks@.len() ==> (#[trigger] toks@[i]).span.file == self.file,
                Err(ds) => has_error(ds@),
            },
            tab_seen(self.chars@, 0, false) ==> (r matches Err(ds) && has_layout_error(ds@)),
            r matches Ok(toks) ==> (leading_indent(self.chars@) ==> toks@[0].kind is Indent),
            blank_source(self.chars@) ==> (r matches Ok(toks) && toks@.len() == 1),
            r matches Ok(toks) ==> joined_in_brackets(toks@),
            r matches Ok(toks) ==> newlines_after_content(toks@),
            (r is Err) == lex_fails(self.chars@),
            r matches Ok(toks) ==> kinds_of(toks@) == lex_kinds(self.chars@),
    {
        broadcast use lemma_error_survives;

        let mut lx = self;
        let ghost tab0 = tab_seen(self.chars@, 0, false);
        let ghost out0 = lx.out@;
        // initial line start
        lx.line_had_tokens = false;
        proof {
            assert(self.indent_stack@ =~= seq![0usize]);
            assert(kinds_of(lx.out@) =~= Seq::<TokView>::empty());
            assert(!has_error(lx.diags@));
            assert(abs_state(lx) == LexState {
                pos: 0,
                stack: seq![0usize],
                depth: 0,
                lht: false,
                toks: seq![],
                err: false,
            });
        }
        lx.start_line();
        proof {
            assert(abs_state(lx) == lex_start(self.chars@));
        }
        proof {
            assert(out0 =~= Seq::<Token>::empty());
            lemma_append_layout(out0, lx.out@);
        }
        let ghost lead = leading_indent(self.chars@);
        let ghost blank = blank_source(self.chars@);
        proof {
            assert(kinds_of(lx.out@).len() == lx.out@.len());
            if blank {
                assert(lx.diags@.len() == 0);
                assert(lx.out@.len() == 0);
                assert(lx.pos == lx.chars@.len());
            }
            if lead {
                assert(lx.out@.len() == 1);
            }
            if tab0 {
                let i = choose|i: int|
                    0 <= i < lx.diags@.len() && #[trigger] lx.diags@[i].severity == Severity::Error
                        && lx.diags@[i].code == DiagCode::Layout;
                assert(lx.diags@[i].severity == Severity::Error);
                assert(has_error(lx.diags@));
            }
        }
        while lx.pos < lx.chars.len()
            invariant
                lexer_wf(lx),
                lx.file == self.file,
                lx.chars@ == self.chars@,
                tab0 == tab_seen(self.chars@, 0, false),
                tab0 ==> has_layout_error(lx.diags@),
                lead == leading_indent(self.chars@),
                lead ==> lx.out@.len() >= 1 && lx.out@[0].kind is Indent,
                blank == blank_source(self.chars@),
                blank ==> lx.pos == lx.chars@.len() && lx.diags@.len() == 0 && lx.out@.len() == 0
                    && !lx.line_had_tokens && lx.indent_stack@.len() == 1,
                lx.bracket_depth == depth_of(lx.out@),
                top_layout(lx.out@),
                lex_loop(self.chars@, abs_state(lx)) == lex_end(self.chars@),
            decreases lx.chars@.len() - lx.pos,
        {
            let ghost s0 = abs_state(lx);
            let ghost d = lx.diags@;
            lx.step();
            proof {
                if tab0 {
                    lemma_layout_error_kept(d, lx.diags@);
                }
                assert(lex_loop(lx.chars@, s0) == lex_loop(lx.chars@, abs_state(lx)));
            }
        }
        proof {
            assert(abs_state(lx) == lex_end(self.chars@));
            if blank {
                assert(kinds_of(lx.out@).len() == lx.out@.len());
            }
        }
        lx.finish()
    }
}

/// Lexes `src` into a token stream with synthesised layout tokens. It fails
/// exactly when lexing records an error (`lex_fails`), and the kinds of the
/// tokens it returns are those of `lex_kinds`: words, numbers, literals and
/// symbols (longest match) as the source spells them, with `Indent`, `Dedent`
/// and `Newline` from the indentation. On success the stream ends with the one
/// `Eof` token and its `Indent`s and `Dedent`s balance, no prefix closing more
/// blocks than it opened; newlines inside brackets are joined (no layout token
/// before later content stands inside a bracket); every `Newline` ends a line
/// of content; every span carries `file`. On failure every diagnostic is
/// returned, at least one of them an error; a tab in the indentation of the
/// leading lines gives a layout error.
pub fn lex(src: &str, file: u32) -> (r: Result<Vec<Token>, Vec<Diagnostic>>)
    requires
        src@.len() < 0x7fff_ffff,
    ensures
        match r {
            Ok(toks) => well_formed_tokens(toks@) && forall|i: int|
                0 <= i < toks@.len() ==> (#[trigger] toks@[i]).span.file == file,
            Err(ds) => has_error(ds@),
        },
        tab_seen(src@, 0, false) ==> (r matches Err(ds) && has_layout_error(ds@)),
        r matches Ok(toks) ==> (leading_indent(src@) ==> toks@[0].kind is Indent),
        blank_source(src@) ==> (r matches Ok(toks) && toks@.len() == 1),
        r matches Ok(toks) ==> joined_in_brackets(toks@),
        r matches Ok(toks) ==> newlines_after_content(toks@),
        (r is Err) == lex_fails(src@),
        r matches Ok(toks) ==> kinds_of(toks@) == lex_kinds(src@),
{
    Lexer::new(src, file).run()
}

} // verus!
