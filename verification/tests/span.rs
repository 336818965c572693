use jeff::span::{DiagCode, DiagSink, Diagnostic, Severity, Span};

#[test]
fn span_merge_covers_both() {
    let a = Span::new(0, 2, 5, 1, 3);
    let b = Span::new(0, 7, 10, 1, 8);
    let m = a.merge(b);
    assert_eq!(m.lo, 2);
    assert_eq!(m.hi, 10);
    assert_eq!((m.line, m.col), (1, 3));
}

#[test]
fn diag_codes_are_stable() {
    assert_eq!(DiagCode::SecretBranch.as_str(), "E0301");
    assert_eq!(DiagCode::SecretIndex.as_str(), "E0302");
    assert_eq!(DiagCode::Termination.as_str(), "E0401");
    assert_eq!(DiagCode::CollapseRequiredButBarrier.as_str(), "E0601");
}

#[test]
fn sink_reports_errors() {
    let mut s = DiagSink::new();
    assert!(!s.has_errors());
    s.push(Diagnostic::error(DiagCode::Parse, Span::dummy(), "boom".to_string()));
    assert!(s.has_errors());
    let r: Result<(), _> = s.into_result(());
    assert!(r.is_err());
}

#[test]
fn merge_takes_later_start_line_when_other_is_earlier() {
    let a = Span::new(3, 9, 12, 2, 4);
    let b = Span::new(3, 1, 5, 1, 2);
    let m = a.merge(b);
    assert_eq!(m, Span::new(3, 1, 12, 1, 2));
    assert_eq!(a.merge(a), a);
}

#[test]
fn span_renders_line_and_column() {
    assert_eq!(Span::new(0, 0, 0, 12, 305).to_text(), "12:305");
    assert_eq!(Span::synthetic(7), Span::new(7, 0, 0, 0, 0));
}

#[test]
fn warnings_do_not_make_a_sink_fail() {
    let mut s = DiagSink::new();
    s.push(Diagnostic::warning(DiagCode::RefinementFailed, Span::dummy(), "w".to_string()));
    assert!(!s.has_errors());
    assert_eq!(s.into_result(5), Ok(5));
    let d = Diagnostic::error(DiagCode::Lex, Span::dummy(), "m".to_string())
        .with_note("n1".to_string())
        .with_note("n2".to_string())
        .with_help("h".to_string());
    assert_eq!(d.notes, vec!["n1".to_string(), "n2".to_string()]);
    assert_eq!(d.help, Some("h".to_string()));
    assert_eq!(d.severity, Severity::Error);
    assert!(d.is_error());
    assert_eq!(DiagCode::UnrecognizedAttribute.as_str(), "W0901");
}
