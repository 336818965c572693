//! JEFF surface syntax: lexing and parsing a source text into a [`Program`].

use vstd::prelude::*;
use crate::ast::{Item, Program};
use crate::lexer::{
    blank_source, has_layout_error, kinds_of, leading_indent, lex, lex_fails, lex_kinds, tab_seen,
    Keyword, TokView, Token,
};
use crate::parser::{has_parse_error, items_at, simple_fns, skip_newlines, Parser};
use crate::span::{has_error, Diagnostic};

verus! {

/// The items stand in order in the token stream that lexing `src` gives, each
/// as its tokens announce it (see `items_at`).
pub open spec fn items_from_source(src: Seq<char>, items: Seq<Item>) -> bool {
    exists|toks: Seq<Token>, hs: Seq<int>|
        kinds_of(toks) == lex_kinds(src) && #[trigger] items_at(toks, hs, items)
}

/// The tokens lexed from `src` are functions
/// `[total] fn name(x: type, ..) [-> type]: atom (op atom)*` with plain-name
/// (or `secret[name]`) types, the body on the line or alone in an indented
/// block, each perhaps after one `@name` attribute line (see `simple_fns`), up
/// to the end of the input.
pub open spec fn simple_source(src: Seq<char>) -> bool {
    forall|ts: Seq<Token>| #[trigger] kinds_of(ts) == lex_kinds(src) ==> simple_fns(ts, 0)
}

/// Parses a source string into a [`Program`]. `file` is a source-map index used
/// in spans. Lexing and parsing each collect their diagnostics; a failure
/// returns all of them, at least one an error. A source that does not lex is
/// such a failure (with the lexer's diagnostics), a tab in the leading
/// indentation with a layout error, and an indented first line too (with a
/// parse error when the source lexes); a source with no content (blank and
/// comment lines only) parses to the empty program. On success the program's
/// items are those the lexed tokens announce, in order, and it has a module
/// exactly when the source starts with `module`. A source that is one
/// `module name` line parses, and so does a source of functions whose bodies
/// are single operator chains over atoms.
pub fn parse(src: &str, file: u32) -> (r: Result<Program, Vec<Diagnostic>>)
    requires
        src@.len() < 0x7fff_ffff,
    ensures
        r matches Ok(prog) ==> prog.span.file == file,
        r matches Ok(prog) ==> items_from_source(src@, prog.items@),
        !lex_fails(src@) && simple_source(src@) ==> r is Ok,
        r matches Ok(prog) ==> (prog.module is Some <==> lex_kinds(src@)[0] == TokView::Kw(
            Keyword::Module,
        )),
        r matches Err(ds) ==> has_error(ds@),
        lex_fails(src@) ==> r is Err,
        tab_seen(src@, 0, false) ==> (r matches Err(ds) && has_layout_error(ds@)),
        leading_indent(src@) ==> r is Err,
        leading_indent(src@) && !lex_fails(src@) ==> (r matches Err(ds) && has_parse_error(ds@)),
        blank_source(src@) ==> (r matches Ok(prog) && prog.module is None && prog.imports@.len()
            == 0 && prog.items@.len() == 0),
        !lex_fails(src@) && lex_kinds(src@).len() == 4 && lex_kinds(src@)[0] == TokView::Kw(
            Keyword::Module,
        ) && lex_kinds(src@)[1] is Ident && lex_kinds(src@)[2] is Newline ==> (r matches Ok(prog)
            && prog.module is Some && prog.imports@.len() == 0 && prog.items@.len() == 0),
{
    let toks = match lex(src, file) {
        Ok(toks) => toks,
        Err(ds) => {
            return Err(ds);
        },
    };
    proof {
        if toks@[0].kind is Newline {
            assert(false);
        }
        assert(skip_newlines(toks@, 0) == 0);
        assert(kinds_of(toks@)[0] == crate::lexer::kind_view(toks@[0].kind));
        if simple_source(src@) {
            assert(kinds_of(toks@) == lex_kinds(src@));
            assert(simple_fns(toks@, 0));
        }
        if lex_kinds(src@).len() == 4 && lex_kinds(src@)[0] == TokView::Kw(Keyword::Module)
            && lex_kinds(src@)[1] is Ident && lex_kinds(src@)[2] is Newline {
            let ts = toks@;
            assert(kinds_of(ts)[1] == crate::lexer::kind_view(ts[1].kind));
            assert(kinds_of(ts)[2] == crate::lexer::kind_view(ts[2].kind));
            assert(kinds_of(ts)[3] == crate::lexer::kind_view(ts[3].kind));
            assert(ts[1].kind is Ident);
            assert(ts[2].kind is Newline);
            assert(ts[3].kind is Eof);
            assert(crate::parser::dotted_ok(ts, 1));
            assert(crate::parser::dotted_end(ts, 1) == 2);
            assert(skip_newlines(ts, 3) == 3);
            assert(skip_newlines(ts, 2) == 3);
        }
    }
    let ghost ts = toks@;
    let r = Parser::new(toks, file).parse_program();
    proof {
        if r is Ok {
            let items = r->Ok_0.items@;
            let hs = choose|hs: Seq<int>| #[trigger] items_at(ts, hs, items);
            assert(kinds_of(ts) == lex_kinds(src@) && items_at(ts, hs, items));
        }
    }
    r
}

} // verus!
