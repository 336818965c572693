//! Source spans and diagnostics.
//!
//! A [`Span`] is a byte range `lo..hi` in source file `file`, with the 1-based
//! `line`/`col` of `lo` for rendering. Diagnostics carry a stable code, a span,
//! a message, notes and an optional help line; a [`DiagSink`] collects them.

use vstd::prelude::*;
use crate::text::{push_char, push_str, u64_to_string, decimal};

verus! {

/// A byte/line/column source location range.
#[derive(Clone, Copy, Debug, PartialEq, Eq, Hash, Structural)]
pub struct Span {
    pub file: u32,
    pub lo: u32,
    pub hi: u32,
    pub line: u32,
    pub col: u32,
}

/// The span covering both `a` and `b`: the smaller `lo` (with its line/col, `a`'s on a
/// tie), the larger `hi`, and `a`'s file.
pub open spec fn merge_spec(a: Span, b: Span) -> Span {
    Span {
        file: a.file,
        lo: if a.lo <= b.lo { a.lo } else { b.lo },
        hi: if a.hi >= b.hi { a.hi } else { b.hi },
        line: if a.lo <= b.lo { a.line } else { b.line },
        col: if a.lo <= b.lo { a.col } else { b.col },
    }
}

/// `"line:col"`, the rendering of a span.
pub open spec fn span_text(s: Span) -> Seq<char> {
    decimal(s.line as nat).push(':') + decimal(s.col as nat)
}

impl Span {
    pub fn new(file: u32, lo: u32, hi: u32, line: u32, col: u32) -> (s: Span)
        ensures
            s == (Span { file, lo, hi, line, col }),
    {
        Span { file, lo, hi, line, col }
    }

    /// A span for compiler-generated nodes: keeps the file, everything else zero.
    pub fn synthetic(file: u32) -> (s: Span)
        ensures
            s == (Span { file, lo: 0, hi: 0, line: 0, col: 0 }),
    {
        Span { file, lo: 0, hi: 0, line: 0, col: 0 }
    }

    /// The synthetic span of file 0.
    pub fn dummy() -> (s: Span)
        ensures
            s == (Span { file: 0, lo: 0, hi: 0, line: 0, col: 0 }),
    {
        Span::synthetic(0)
    }

    /// Smallest span covering both `self` and `other` (same file assumed).
    pub fn merge(self, other: Span) -> (s: Span)
        ensures
            s == merge_spec(self, other),
    {
        let (lo, line, col) = if self.lo <= other.lo {
            (self.lo, self.line, self.col)
        } else {
            (other.lo, other.line, other.col)
        };
        Span { file: self.file, lo, hi: if self.hi >= other.hi { self.hi } else { other.hi }, line, col }
    }

    /// Renders the span as `line:col`.
    pub fn to_text(&self) -> (res: String)
        ensures
            res@ == span_text(*self),
    {
        let mut s = u64_to_string(self.line as u64);
        push_char(&mut s, ':');
        let c = u64_to_string(self.col as u64);
        push_str(&mut s, c.as_str());
        s
    }
}

/// Merging covers both operands: the result starts no later and ends no earlier than
/// either span, and merging is idempotent.
pub proof fn lemma_merge_covers(a: Span, b: Span)
    ensures
        merge_spec(a, b).lo <= a.lo,
        merge_spec(a, b).lo <= b.lo,
        merge_spec(a, b).hi >= a.hi,
        merge_spec(a, b).hi >= b.hi,
        merge_spec(a, a) == a,
        merge_spec(a, b).lo == a.lo || merge_spec(a, b).lo == b.lo,
        merge_spec(a, b).hi == a.hi || merge_spec(a, b).hi == b.hi,
{
}

/// Merging is associative on the covered range.
pub proof fn lemma_merge_assoc(a: Span, b: Span, c: Span)
    ensures
        merge_spec(merge_spec(a, b), c).lo == merge_spec(a, merge_spec(b, c)).lo,
        merge_spec(merge_spec(a, b), c).hi == merge_spec(a, merge_spec(b, c)).hi,
        merge_spec(merge_spec(a, b), c).line == merge_spec(a, merge_spec(b, c)).line,
        merge_spec(merge_spec(a, b), c).col == merge_spec(a, merge_spec(b, c)).col,
        merge_spec(merge_spec(a, b), c).file == merge_spec(a, merge_spec(b, c)).file,
{
}

/// Diagnostic severity.
#[derive(Clone, Copy, Debug, PartialEq, Eq, Structural)]
pub enum Severity {
    Error,
    Warning,
    Note,
}

/// Stable diagnostic codes.
#[derive(Clone, Copy, Debug, PartialEq, Eq, Hash, Structural)]
pub enum DiagCode {
    Lex,
    Parse,
    Layout,
    TypeMismatch,
    Kind,
    Arity,
    UnknownName,
    SecretBranch,
    SecretIndex,
    IllegalDeclassify,
    Termination,
    GuardedCorecursion,
    UseAfterMove,
    UnconsumedLinear,
    CollapseRequiredButBarrier,
    RefinementFailed,
    LicenseViolation,
    UnrecognizedAttribute,
}

/// The stable `Exxxx`/`Wxxxx` text of each code.
pub open spec fn code_text(c: DiagCode) -> Seq<char> {
    match c {
        DiagCode::Lex => "E0101"@,
        DiagCode::Parse => "E0102"@,
        DiagCode::Layout => "E0103"@,
        DiagCode::TypeMismatch => "E0201"@,
        DiagCode::Kind => "E0202"@,
        DiagCode::Arity => "E0203"@,
        DiagCode::UnknownName => "E0204"@,
        DiagCode::SecretBranch => "E0301"@,
        DiagCode::SecretIndex => "E0302"@,
        DiagCode::IllegalDeclassify => "E0303"@,
        DiagCode::Termination => "E0401"@,
        DiagCode::GuardedCorecursion => "E0402"@,
        DiagCode::UseAfterMove => "E0501"@,
        DiagCode::UnconsumedLinear => "E0502"@,
        DiagCode::CollapseRequiredButBarrier => "E0601"@,
        DiagCode::RefinementFailed => "E0701"@,
        DiagCode::LicenseViolation => "E0901"@,
        DiagCode::UnrecognizedAttribute => "W0901"@,
    }
}

impl DiagCode {
    /// Render the stable code string.
    pub fn as_str(self) -> (s: &'static str)
        ensures
            s@ == code_text(self),
    {
        match self {
            DiagCode::Lex => "E0101",
            DiagCode::Parse => "E0102",
            DiagCode::Layout => "E0103",
            DiagCode::TypeMismatch => "E0201",
            DiagCode::Kind => "E0202",
            DiagCode::Arity => "E0203",
            DiagCode::UnknownName => "E0204",
            DiagCode::SecretBranch => "E0301",
            DiagCode::SecretIndex => "E0302",
            DiagCode::IllegalDeclassify => "E0303",
            DiagCode::Termination => "E0401",
            DiagCode::GuardedCorecursion => "E0402",
            DiagCode::UseAfterMove => "E0501",
            DiagCode::UnconsumedLinear => "E0502",
            DiagCode::CollapseRequiredButBarrier => "E0601",
            DiagCode::RefinementFailed => "E0701",
            DiagCode::LicenseViolation => "E0901",
            DiagCode::UnrecognizedAttribute => "W0901",
        }
    }
}

/// A user-facing diagnostic: what happened (message), why (notes), what to do (help).
#[derive(Clone, Debug, PartialEq, Eq)]
pub struct Diagnostic {
    pub severity: Severity,
    pub code: DiagCode,
    pub span: Span,
    pub message: String,
    pub notes: Vec<String>,
    pub help: Option<String>,
}

/// The text of each note, in order.
pub open spec fn notes_view(notes: Seq<String>) -> Seq<Seq<char>> {
    notes.map_values(|n: String| n@)
}

impl Diagnostic {
    pub fn error(code: DiagCode, span: Span, message: String) -> (d: Diagnostic)
        ensures
            d.severity == Severity::Error,
            d.code == code,
            d.span == span,
            d.message@ == message@,
            d.notes@.len() == 0,
            d.help.is_none(),
    {
        Diagnostic { severity: Severity::Error, code, span, message, notes: Vec::new(), help: None }
    }

    pub fn warning(code: DiagCode, span: Span, message: String) -> (d: Diagnostic)
        ensures
            d.severity == Severity::Warning,
            d.code == code,
            d.span == span,
            d.message@ == message@,
            d.notes@.len() == 0,
            d.help.is_none(),
    {
        Diagnostic { severity: Severity::Warning, code, span, message, notes: Vec::new(), help: None }
    }

    /// Appends a note.
    pub fn with_note(self, note: String) -> (d: Diagnostic)
        ensures
            d.severity == self.severity,
            d.code == self.code,
            d.span == self.span,
            d.message == self.message,
            d.notes@ == self.notes@.push(note),
            d.help == self.help,
    {
        let mut d = self;
        d.notes.push(note);
        d
    }

    /// Sets the help line.
    pub fn with_help(self, help: String) -> (d: Diagnostic)
        ensures
            d.severity == self.severity,
            d.code == self.code,
            d.span == self.span,
            d.message == self.message,
            d.notes == self.notes,
            d.help == Some(help),
    {
        let mut d = self;
        d.help = Some(help);
        d
    }

    pub fn is_error(&self) -> (b: bool)
        ensures
            b == (self.severity == Severity::Error),
    {
        match self.severity {
            Severity::Error => true,
            _ => false,
        }
    }
}

/// Whether any diagnostic in `ds` is an error.
pub open spec fn has_error(ds: Seq<Diagnostic>) -> bool {
    exists|i: int| 0 <= i < ds.len() && #[trigger] ds[i].severity == Severity::Error
}

/// An error recorded earlier stays recorded when more diagnostics are added.
pub proof fn lemma_error_kept(a: Seq<Diagnostic>, b: Seq<Diagnostic>)
    requires
        a.is_prefix_of(b),
        has_error(a),
    ensures
        has_error(b),
{
    let i = choose|i: int| 0 <= i < a.len() && #[trigger] a[i].severity == Severity::Error;
    assert(b[i] == a[i]);
}

/// A collection of diagnostics, gathered without stopping at the first error.
#[derive(Clone, Debug)]
pub struct DiagSink {
    pub diags: Vec<Diagnostic>,
}

impl DiagSink {
    pub fn new() -> (s: DiagSink)
        ensures
            s.diags@.len() == 0,
    {
        DiagSink { diags: Vec::new() }
    }

    pub fn push(&mut self, d: Diagnostic)
        ensures
            final(self).diags@ == old(self).diags@.push(d),
    {
        self.diags.push(d);
    }

    pub fn has_errors(&self) -> (b: bool)
        ensures
            b == has_error(self.diags@),
    {
        any_error(&self.diags)
    }

    /// `Ok(ok)` when no error was collected, else all diagnostics.
    pub fn into_result<T>(self, ok: T) -> (r: Result<T, Vec<Diagnostic>>)
        ensures
            !has_error(self.diags@) ==> r == Ok::<T, Vec<Diagnostic>>(ok),
            has_error(self.diags@) ==> (r matches Err(ds) && ds@ == self.diags@),
    {
        if self.has_errors() {
            Err(self.diags)
        } else {
            Ok(ok)
        }
    }
}

/// Whether any diagnostic in `ds` is an error.
pub fn any_error(ds: &Vec<Diagnostic>) -> (b: bool)
    ensures
        b == has_error(ds@),
{
    let mut i: usize = 0;
    while i < ds.len()
        invariant
            i <= ds.len(),
            forall|j: int| 0 <= j < i ==> ds@[j].severity != Severity::Error,
        decreases ds.len() - i,
    {
        if ds[i].is_error() {
            return true;
        }
        i = i + 1;
    }
    false
}

/// The word for a severity in a rendered diagnostic.
pub open spec fn severity_text(s: Severity) -> Seq<char> {
    match s {
        Severity::Error => "error"@,
        Severity::Warning => "warning"@,
        Severity::Note => "note"@,
    }
}

/// The `= note:` lines of a rendered diagnostic, in order.
pub open spec fn notes_text(notes: Seq<Seq<char>>) -> Seq<char>
    decreases notes.len(),
{
    if notes.len() == 0 {
        seq![]
    } else {
        notes_text(notes.drop_last()) + "\n  = note: "@ + notes.last()
    }
}

/// A diagnostic as shown to a user:
/// `severity[code]: message`, the span line, the notes and the help.
pub open spec fn render_spec(d: Diagnostic) -> Seq<char> {
    severity_text(d.severity) + "["@ + code_text(d.code) + "]: "@ + d.message@ + "\n  --> "@
        + span_text(d.span) + notes_text(notes_view(d.notes@)) + match d.help {
        Some(h) => "\n  = help: "@ + h@,
        None => seq![],
    }
}

impl Diagnostic {
    /// Renders the diagnostic for a terminal.
    pub fn render(&self) -> (s: String)
        ensures
            s@ == render_spec(*self),
    {
        let sev = match self.severity {
            Severity::Error => "error",
            Severity::Warning => "warning",
            Severity::Note => "note",
        };
        let mut s = crate::text::str_to_string(sev);
        push_str(&mut s, "[");
        push_str(&mut s, self.code.as_str());
        push_str(&mut s, "]: ");
        push_str(&mut s, self.message.as_str());
        push_str(&mut s, "\n  --> ");
        push_str(&mut s, self.span.to_text().as_str());
        let ghost head = s@;
        let mut i: usize = 0;
        while i < self.notes.len()
            invariant
                i <= self.notes@.len(),
                s@ == head + notes_text(notes_view(self.notes@).take(i as int)),
            decreases self.notes.len() - i,
        {
            assert(notes_view(self.notes@).take(i + 1).drop_last() =~= notes_view(self.notes@).take(
                i as int,
            ));
            push_str(&mut s, "\n  = note: ");
            push_str(&mut s, self.notes[i].as_str());
            i = i + 1;
            assert(s@ =~= head + notes_text(notes_view(self.notes@).take(i as int)));
        }
        assert(notes_view(self.notes@).take(self.notes@.len() as int) =~= notes_view(self.notes@));
        match &self.help {
            Some(h) => {
                push_str(&mut s, "\n  = help: ");
                push_str(&mut s, h.as_str());
            },
            None => {},
        }
        assert(s@ =~= render_spec(*self));
        s
    }
}

} // verus!
