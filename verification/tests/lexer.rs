use jeff::ast::NumSuffix;
use jeff::lexer::{keyword_str, lex, Keyword, Sym, TokKind};

fn kinds(src: &str) -> Vec<TokKind> {
    lex(src, 0).unwrap().into_iter().map(|t| t.kind).collect()
}

#[test]
fn layout_indent_dedent() {
    let src = "fn f():\n    return 1\n";
    let ks = kinds(src);
    assert!(ks.contains(&TokKind::Indent));
    assert!(ks.contains(&TokKind::Dedent));
    assert_eq!(ks.last(), Some(&TokKind::Eof));
}

#[test]
fn range_vs_float() {
    // 0..=n must be DotDotEq, not a float
    let ks = kinds("0..=n\n");
    assert!(ks.contains(&TokKind::Sym(Sym::DotDotEq)));
    // 3.5 is a float
    let ks2 = kinds("3.5\n");
    assert!(matches!(ks2[0], TokKind::Float(_)));
}

#[test]
fn bracket_continuation_joins_lines() {
    // newline inside parens does not produce NEWLINE/INDENT
    let src = "f(\n  1,\n  2)\n";
    let ks = kinds(src);
    let newlines = ks.iter().filter(|k| **k == TokKind::Newline).count();
    assert_eq!(newlines, 1); // only the final logical newline
}

#[test]
fn reduction_keywords() {
    let ks = kinds("sum i in 0..=n: i\n");
    assert_eq!(ks[0], TokKind::Kw(Keyword::Sum));
    assert!(ks.contains(&TokKind::Kw(Keyword::In)));
}

#[test]
fn keyword_text_names_the_keyword_back() {
    assert_eq!(keyword_str(Keyword::Fold), "fold");
    assert_eq!(keyword_str(Keyword::IO), "IO");
    let ks = kinds("fold IO folded\n");
    assert_eq!(ks[0], TokKind::Kw(Keyword::Fold));
    assert_eq!(ks[1], TokKind::Kw(Keyword::IO));
    assert_eq!(ks[2], TokKind::Ident("folded".to_string()));
}

#[test]
fn layout_tokens_balance_for_nested_blocks() {
    let src = "fn f():\n    match x:\n        0 => 1\n        _ => 2\n";
    let ks = kinds(src);
    let ind = ks.iter().filter(|k| **k == TokKind::Indent).count();
    let ded = ks.iter().filter(|k| **k == TokKind::Dedent).count();
    assert_eq!(ind, 2);
    assert_eq!(ded, 2);
    assert_eq!(ks.iter().filter(|k| **k == TokKind::Eof).count(), 1);
}

#[test]
fn numbers_suffixes_and_binary() {
    let ks = kinds("12u8 7nat 0b101 2.5f32\n");
    assert_eq!(ks[0], TokKind::Int("12".to_string(), Some(NumSuffix::U(8))));
    assert_eq!(ks[1], TokKind::Int("7".to_string(), Some(NumSuffix::Nat)));
    assert_eq!(ks[2], TokKind::Int("0b101".to_string(), None));
    assert_eq!(ks[3], TokKind::Float("2.5f32".to_string()));
}

#[test]
fn strings_chars_and_comments() {
    let ks = kinds("\"a\\nb\" 'x' # comment\n");
    assert_eq!(ks[0], TokKind::Str("a\nb".to_string()));
    assert_eq!(ks[1], TokKind::Char('x'));
    assert_eq!(ks[2], TokKind::Newline);
}

#[test]
fn lex_errors_are_collected() {
    // a tab in indentation, an unterminated string, a stray character
    assert!(lex("fn f():\n\treturn 1\n", 0).is_err());
    assert!(lex("\"open\n", 0).is_err());
    let ds = lex("a $ b ! c\n", 0).unwrap_err();
    assert_eq!(ds.len(), 2);
    assert!(ds.iter().all(|d| d.is_error()));
}

#[test]
fn spans_carry_file_and_position() {
    let toks = lex("ab cd\n", 7).unwrap();
    assert_eq!(toks[1].span.file, 7);
    assert_eq!(toks[1].span.lo, 3);
    assert_eq!(toks[1].span.hi, 5);
    assert_eq!(toks[1].span.col, 4);
}

#[test]
fn inconsistent_dedent_is_an_error() {
    // the last line dedents to a level that was never opened
    assert!(lex("fn f():\n    if x:\n        y\n  z\n", 0).is_err());
}

#[test]
fn blank_and_comment_lines_emit_no_layout() {
    let ks = kinds("a\n\n   # note\n      \nb\n");
    assert!(!ks.contains(&TokKind::Indent));
    assert!(!ks.contains(&TokKind::Dedent));
}

#[test]
fn tab_inside_a_comment_is_no_error() {
    let ks = kinds("a # x\ty\nb\n");
    assert_eq!(ks[0], TokKind::Ident("a".to_string()));
    assert!(!ks.contains(&TokKind::Indent));
}

#[test]
fn unknown_suffix_word_is_left_alone() {
    let ks = kinds("12abc 1.5f64x\n");
    assert_eq!(ks[0], TokKind::Int("12".to_string(), None));
    assert_eq!(ks[1], TokKind::Ident("abc".to_string()));
    assert_eq!(ks[2], TokKind::Float("1.5".to_string()));
    assert_eq!(ks[3], TokKind::Ident("f64x".to_string()));
}

#[test]
fn longest_symbol_match() {
    let ks = kinds("a <= b >> c\n");
    assert_eq!(
        ks,
        vec![
            TokKind::Ident("a".to_string()),
            TokKind::Sym(Sym::Le),
            TokKind::Ident("b".to_string()),
            TokKind::Sym(Sym::Shr),
            TokKind::Ident("c".to_string()),
            TokKind::Newline,
            TokKind::Eof
        ]
    );
}

#[test]
fn keyword_text_lexes_back_to_the_keyword() {
    let k = Keyword::Codata;
    let ks = kinds(&format!("{}\n", keyword_str(k)));
    assert_eq!(ks, vec![TokKind::Kw(k), TokKind::Newline, TokKind::Eof]);
}

#[test]
fn tab_in_indentation_is_a_layout_error() {
    let ds = lex("\tx\n", 0).unwrap_err();
    assert!(ds.iter().any(|d| d.is_error() && d.code == jeff::span::DiagCode::Layout));
}

#[test]
fn non_ascii_letters_start_words() {
    let ks = kinds("é1 x\n");
    assert_eq!(ks.len(), 4);
    assert!(matches!(&ks[0], TokKind::Ident(s) if s == "é1"));
    assert!(matches!(&ks[1], TokKind::Ident(s) if s == "x"));
}
