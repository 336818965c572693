//! Driver-level reports: the constant-time audit report of a module, and
//! recognition of stdlib kernel-call functions.

use vstd::prelude::*;
use crate::ast::{Expr, ExprKind, FnDecl, Item, Program, StmtKind};
use crate::span::{code_text, has_error, span_text, Diagnostic};
use crate::lexer::{blank_source, leading_indent, lex_fails, tab_seen};
use crate::syntax::{items_from_source, parse, simple_source};
use crate::text::{push_char, push_str, str_to_string, string_eq_str};
use crate::types::{
    audit_fn, block_sinks, has_secret_inputs, is_constant_time, taint_of, type_is_secret_spec,
    SinkSpec,
};

verus! {

// ---- the constant-time audit report ----

/// `s` left-aligned in a field of 16 characters (padded with spaces).
pub open spec fn pad16(s: Seq<char>) -> Seq<char> {
    if s.len() >= 16 {
        s
    } else {
        s + Seq::new((16 - s.len()) as nat, |i: int| ' ')
    }
}

/// `code at line:col` for each violation, joined with `"; "`.
pub open spec fn detail_spec(ss: Seq<SinkSpec>) -> Seq<char>
    decreases ss.len(),
{
    if ss.len() == 0 {
        seq![]
    } else {
        let last = code_text(ss.last().0) + " at "@ + span_text(ss.last().1);
        if ss.len() == 1 {
            last
        } else {
            detail_spec(ss.drop_last()) + "; "@ + last
        }
    }
}

/// The function takes a `secret[T]` input.
pub open spec fn has_secret_input_spec(f: FnDecl) -> bool {
    exists|i: int| 0 <= i < f.params@.len() && type_is_secret_spec(#[trigger] f.params@[i].ty)
}

/// The function is marked `@constant_time`.
pub open spec fn constant_time_spec(f: FnDecl) -> bool {
    exists|i: int| 0 <= i < f.attrs@.len() && (#[trigger] f.attrs@[i]).name@ == "constant_time"@
}

/// The report line of one audited function.
pub open spec fn audit_line(f: FnDecl) -> Seq<char> {
    let ss = block_sinks(f.body, taint_of(f));
    let ct = if constant_time_spec(f) {
        "@constant_time "@
    } else {
        ""@
    };
    if ss.len() == 0 {
        "fn "@ + pad16(f.name@) + " OK    "@ + ct + "no secret-dependent branch/index (source/IR model)\n"@
    } else {
        "fn "@ + pad16(f.name@) + " FAIL  "@ + ct + detail_spec(ss) + "\n"@
    }
}

/// The report over a module's items: one line per function with secret inputs.
pub open spec fn audit_report_spec(items: Seq<Item>) -> Seq<char>
    decreases items.len(),
{
    if items.len() == 0 {
        seq![]
    } else {
        audit_report_spec(items.drop_last()) + match items.last() {
            Item::Fn(f) => if has_secret_input_spec(f) {
                audit_line(f)
            } else {
                seq![]
            },
            _ => seq![],
        }
    }
}

/// The item is not a function with secret inputs that fails the audit.
pub open spec fn item_passes(it: Item) -> bool {
    match it {
        Item::Fn(f) => has_secret_input_spec(f) ==> block_sinks(f.body, taint_of(f)).len() == 0,
        _ => true,
    }
}

/// Every function with secret inputs passes the audit.
pub open spec fn audit_all_ok(items: Seq<Item>) -> bool {
    forall|i: int| 0 <= i < items.len() ==> item_passes(#[trigger] items[i])
}

proof fn lemma_all_ok_push(pre: Seq<Item>, it: Item)
    ensures
        audit_all_ok(pre.push(it)) == (audit_all_ok(pre) && item_passes(it)),
{
    let post = pre.push(it);
    if audit_all_ok(post) {
        assert forall|i: int| 0 <= i < pre.len() implies item_passes(#[trigger] pre[i]) by {
            assert(post[i] == pre[i]);
        }
        assert(item_passes(post[pre.len() as int]));
    }
    if audit_all_ok(pre) && item_passes(it) {
        assert forall|i: int| 0 <= i < post.len() implies item_passes(#[trigger] post[i]) by {
            if i < pre.len() {
                assert(post[i] == pre[i]);
            }
        }
    }
}

fn pad16_into(out: &mut String, s: &String)
    ensures
        final(out)@ == old(out)@ + pad16(s@),
{
    let cs = crate::text::string_chars(s);
    push_str(out, s.as_str());
    let mut k: usize = cs.len();
    let ghost base = out@;
    while k < 16
        invariant
            cs@ == s@,
            cs@.len() <= k <= 16 || (k == cs@.len() && k >= 16),
            out@ == base + Seq::new((k - cs@.len()) as nat, |i: int| ' '),
        decreases 16 - k,
    {
        push_char(out, ' ');
        k = k + 1;
        assert(out@ =~= base + Seq::new((k - cs@.len()) as nat, |i: int| ' '));
    }
    proof {
        if s@.len() >= 16 {
            assert(out@ =~= old(out)@ + s@);
        } else {
            assert(out@ =~= old(out)@ + pad16(s@));
        }
    }
}

/// The audit report of a parsed module and whether every function with secret
/// inputs passed. FAIL means a secret may reach a branch or index; OK means no
/// such flow in the source-level model.
pub fn audit_report(program: &Program) -> (r: (String, bool))
    ensures
        r.0@ == audit_report_spec(program.items@),
        r.1 == audit_all_ok(program.items@),
{
    let mut out = String::new();
    let mut all_ok = true;
    let mut i: usize = 0;
    while i < program.items.len()
        invariant
            i <= program.items@.len(),
            out@ == audit_report_spec(program.items@.take(i as int)),
            all_ok == audit_all_ok(program.items@.take(i as int)),
        decreases program.items.len() - i,
    {
        let ghost pre = program.items@.take(i as int);
        assert(program.items@.take(i + 1).drop_last() =~= pre);
        assert(program.items@.take(i + 1).last() == program.items@[i as int]);
        match &program.items[i] {
            Item::Fn(f) => {
                if has_secret_inputs(f) {
                    let diags = audit_fn(f);
                    let ghost ss = block_sinks(f.body, taint_of(*f));
                    let ct = if is_constant_time(f) {
                        "@constant_time "
                    } else {
                        ""
                    };
                    let ghost line_start = out@;
                    push_str(&mut out, "fn ");
                    pad16_into(&mut out, &f.name);
                    if diags.len() == 0 {
                        push_str(&mut out, " OK    ");
                        push_str(&mut out, ct);
                        push_str(&mut out, "no secret-dependent branch/index (source/IR model)\n");
                        assert(out@ =~= line_start + audit_line(*f));
                    } else {
                        all_ok = false;
                        push_str(&mut out, " FAIL  ");
                        push_str(&mut out, ct);
                        let ghost before_detail = out@;
                        let mut j: usize = 0;
                        while j < diags.len()
                            invariant
                                crate::types::diags_match(diags@, ss),
                                j <= diags@.len(),
                                out@ == before_detail + detail_spec(ss.take(j as int)),
                            decreases diags.len() - j,
                        {
                            let d = &diags[j];
                            assert(crate::types::diag_of_sink(diags@[j as int], ss[j as int]));
                            assert(ss.take(j + 1).drop_last() =~= ss.take(j as int));
                            if j > 0 {
                                push_str(&mut out, "; ");
                            }
                            push_str(&mut out, d.code.as_str());
                            push_str(&mut out, " at ");
                            let sp = d.span.to_text();
                            push_str(&mut out, sp.as_str());
                            assert(out@ =~= before_detail + detail_spec(ss.take(j + 1)));
                            j = j + 1;
                        }
                        assert(ss.take(ss.len() as int) =~= ss);
                        push_str(&mut out, "\n");
                        assert(out@ =~= line_start + audit_line(*f));
                    }
                    proof {
                        assert(has_secret_input_spec(*f));
                    }
                } else {
                    assert(audit_report_spec(program.items@.take(i + 1)) =~= audit_report_spec(pre));
                }
            },
            _ => {
                assert(audit_report_spec(program.items@.take(i + 1)) =~= audit_report_spec(pre));
            },
        }
        proof {
            assert(program.items@.take(i + 1) =~= pre.push(program.items@[i as int]));
            lemma_all_ok_push(pre, program.items@[i as int]);
        }
        i = i + 1;
    }
    assert(program.items@.take(program.items@.len() as int) =~= program.items@);
    (out, all_ok)
}

/// Parses a module and reports its constant-time audit, or returns the parse
/// diagnostics. See [`audit_report`]: the report is that of a program whose
/// items the source announces, in order.
pub fn const_time_audit(src: &str) -> (r: Result<(String, bool), Vec<Diagnostic>>)
    requires
        src@.len() < 0x7fff_ffff,
    ensures
        r matches Err(ds) ==> has_error(ds@),
        r matches Ok((report, ok)) ==> exists|p: Program|
            p.span.file == 0 && items_from_source(src@, p.items@) && report@ == audit_report_spec(
                p.items@,
            ) && ok == audit_all_ok(p.items@),
        tab_seen(src@, 0, false) || leading_indent(src@) || lex_fails(src@) ==> r is Err,
        !lex_fails(src@) && simple_source(src@) ==> r is Ok,
        blank_source(src@) ==> (r matches Ok((report, ok)) && report@ == audit_report_spec(
            Seq::<Item>::empty(),
        ) && ok == audit_all_ok(Seq::<Item>::empty())),
{
    let program = match parse(src, 0) {
        Ok(p) => p,
        Err(ds) => {
            return Err(ds);
        },
    };
    let (report, ok) = audit_report(&program);
    Ok((report, ok))
}

// ---- kernel-call functions ----

/// `e` without enclosing parentheses.
pub open spec fn unwrap_paren_spec(e: Expr) -> Expr
    decreases e,
{
    match e.kind {
        ExprKind::Paren(inner) => unwrap_paren_spec(*inner),
        _ => e,
    }
}

/// The callee name of a function whose body is the single call `name(args..)`.
pub open spec fn single_call_name(f: FnDecl) -> Option<Seq<char>> {
    if f.body.stmts@.len() != 1 {
        None
    } else {
        let e = match f.body.stmts@[0].kind {
            StmtKind::Expr(e) => Some(e),
            StmtKind::Return(Some(e)) => Some(e),
            _ => None,
        };
        match e {
            Some(e) => match unwrap_paren_spec(e).kind {
                ExprKind::Call(callee, _) => match callee.kind {
                    ExprKind::Var(name) => Some(name@),
                    _ => None,
                },
                _ => None,
            },
            None => None,
        }
    }
}

/// The stdlib kernels a function body can call directly.
pub open spec fn is_kernel_name(s: Seq<char>) -> bool {
    s == "prony"@ || s == "sparse_fft"@ || s == "welch_etf"@ || s == "planted_clique"@ || s
        == "persistent_homology"@ || s == "list_decode"@ || s == "frequency_moment"@ || s
        == "heavy_hitters"@ || s == "point_mass_mixture"@
}

fn unwrap_paren(e: &Expr) -> (r: &Expr)
    ensures
        *r == unwrap_paren_spec(*e),
    decreases e,
{
    match &e.kind {
        ExprKind::Paren(a) => unwrap_paren(a),
        _ => e,
    }
}

/// Whether `f` is a kernel-call function: its body is a single call of a stdlib
/// kernel, so the driver routes it to the kernel path.
pub fn is_kernel_fn(f: &FnDecl) -> (b: bool)
    ensures
        b == (single_call_name(*f) matches Some(n) && is_kernel_name(n)),
{
    if f.body.stmts.len() != 1 {
        return false;
    }
    let e = match &f.body.stmts[0].kind {
        StmtKind::Expr(e) => e,
        StmtKind::Return(Some(e)) => e,
        _ => return false,
    };
    match &unwrap_paren(e).kind {
        ExprKind::Call(callee, _) => match &callee.kind {
            ExprKind::Var(name) => {
                string_eq_str(name, "prony") || string_eq_str(name, "sparse_fft")
                    || string_eq_str(name, "welch_etf") || string_eq_str(name, "planted_clique")
                    || string_eq_str(name, "persistent_homology") || string_eq_str(
                    name,
                    "list_decode",
                ) || string_eq_str(name, "frequency_moment") || string_eq_str(
                    name,
                    "heavy_hitters",
                ) || string_eq_str(name, "point_mass_mixture")
            },
            _ => false,
        },
        _ => false,
    }
}

} // verus!
