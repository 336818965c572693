//! Secret-taint constant-time audit.
//!
//! A `secret[T]` value may flow through data-oblivious operations (arithmetic,
//! constant-time select/compare) but must never reach a data-dependent branch or
//! a data-dependent memory index, because either leaks the secret through timing.
//!
//! What a function that passes this audit has, for every `secret[T]` input:
//!   1. No secret-dependent control flow: no `match` on a secret scrutinee with a
//!      refutable / multi-arm shape, and no `while` whose condition is
//!      secret-derived. (`if` does not exist in JEFF surface syntax; branching is
//!      `match`.)
//!   2. No secret-dependent memory addressing: no `v[i]` whose index `i` is
//!      secret-derived. (Indexing a secret array by a public index, e.g. `sk[0]`,
//!      is fine: the address is public, only the loaded value is secret.)
//!
//! Out of model (not prevented here): data-operand timing and frequency/power
//! effects, data memory-dependent prefetchers, cache and microarchitectural
//! contention and speculation, variable-latency instructions on operand values,
//! and a backend turning a branchless select back into a branch. Constant-time
//! here means constant-time in this model: a necessary, not sufficient, condition
//! for side-channel resistance.
//!
//! Soundness stance: the taint set over-approximates (no false negatives; false
//! positives are allowed). `declassify(e)` is the one audited escape hatch: it
//! clears taint.
//!
//! In the contracts below the taint set of a function is the least set of names
//! that holds its secret parameters and is closed under its binding sites
//! ([`fn_closed`]); every diagnostic is one sink of [`block_sinks`].

use vstd::prelude::*;
use crate::ast::{
    Arm, Block, Constraint, CmpOp, Domain, Expr, ExprKind, FnDecl, Ident, Item, LValue, Param,
    Pattern, PatternKind, Program, Stmt, StmtKind, Type, TypeKind,
};
use crate::span::{DiagCode, Diagnostic, Severity, Span};
use crate::text::{push_str, str_to_string, string_eq, string_eq_str};

verus! {

// ---- names ----

/// The texts of a list of names.
pub open spec fn texts(v: Seq<String>) -> Seq<Seq<char>> {
    v.map_values(|s: String| s@)
}

/// The set of texts of a list of names.
pub open spec fn name_set(v: Seq<String>) -> Set<Seq<char>> {
    texts(v).to_set()
}

/// Every name of `vs` is in `t`.
pub open spec fn all_in(vs: Seq<Seq<char>>, t: Set<Seq<char>>) -> bool {
    forall|i: int| 0 <= i < vs.len() ==> t.contains(#[trigger] vs[i])
}

/// The variables a pattern binds, in order.
pub open spec fn pattern_vars_spec(p: Pattern) -> Seq<Seq<char>>
    decreases p,
{
    match p.kind {
        PatternKind::Var(x) => seq![x@],
        PatternKind::NatSucc(x, _) => seq![x@],
        PatternKind::Ctor(_, sub) => patterns_vars_spec(sub@),
        _ => seq![],
    }
}

/// The variables a list of patterns binds, in order.
pub open spec fn patterns_vars_spec(ps: Seq<Pattern>) -> Seq<Seq<char>>
    decreases ps,
{
    if ps.len() == 0 {
        seq![]
    } else {
        patterns_vars_spec(ps.drop_last()) + pattern_vars_spec(ps.last())
    }
}

/// The variable an l-value ultimately writes to.
pub open spec fn lvalue_base_spec(lv: LValue) -> Seq<char>
    decreases lv,
{
    match lv {
        LValue::Var(x) => x@,
        LValue::Index(base, _) => lvalue_base_spec(*base),
        LValue::Field(base, _) => lvalue_base_spec(*base),
    }
}

/// The type is `secret[T]`, possibly under `&`, `&mut` or `own`.
pub open spec fn type_is_secret_spec(t: Type) -> bool
    decreases t,
{
    match t.kind {
        TypeKind::Secret(_) => true,
        TypeKind::Ref { inner, .. } => type_is_secret_spec(*inner),
        TypeKind::Own(inner) => type_is_secret_spec(*inner),
        _ => false,
    }
}

/// The callee is the name `declassify`.
pub open spec fn is_declassify_spec(callee: Expr) -> bool {
    callee.kind matches ExprKind::Var(n) && n@ == "declassify"@
}

// ---- taint of values ----

/// `e` is secret-derived when the names in `t` are secret. Over-approximates:
/// any tainted operand taints the result, except through `declassify(..)`.
pub open spec fn expr_taint(e: Expr, t: Set<Seq<char>>) -> bool
    decreases e,
{
    match e.kind {
        ExprKind::Lit(_) => false,
        ExprKind::Var(x) => t.contains(x@),
        ExprKind::Paren(a) => expr_taint(*a, t),
        ExprKind::Un(_, a) => expr_taint(*a, t),
        ExprKind::Field(a, _) => expr_taint(*a, t),
        ExprKind::Borrow { inner, .. } => expr_taint(*inner, t),
        ExprKind::Own(a) => expr_taint(*a, t),
        ExprKind::Move(a) => expr_taint(*a, t),
        ExprKind::Bin(_, a, b) => expr_taint(*a, t) || expr_taint(*b, t),
        ExprKind::Index(a, b) => expr_taint(*a, t) || expr_taint(*b, t),
        ExprKind::Range { lo, hi, .. } => expr_taint(*lo, t) || expr_taint(*hi, t),
        ExprKind::Call(callee, args) => !is_declassify_spec(*callee) && (expr_taint(*callee, t)
            || exists|i: int| 0 <= i < args@.len() && expr_taint(#[trigger] args@[i], t)),
        ExprKind::Reduction { domain, body, .. } => domain_taint(domain, t) || expr_taint(
            *body,
            t,
        ),
        ExprKind::Match { scrut, arms } => expr_taint(*scrut, t) || exists|i: int|
            0 <= i < arms@.len() && block_result_taint(#[trigger] arms@[i].body, t),
    }
}

/// A reduction domain is secret-derived when any of its expressions is.
pub open spec fn domain_taint(d: Domain, t: Set<Seq<char>>) -> bool
    decreases d,
{
    match d {
        Domain::Range(e) => expr_taint(*e, t),
        Domain::Expr(e) => expr_taint(*e, t),
        Domain::ConstraintSet(cs) => exists|i: int|
            0 <= i < cs@.len() && constraint_taint(#[trigger] cs@[i], t),
    }
}

pub open spec fn constraint_taint(c: Constraint, t: Set<Seq<char>>) -> bool
    decreases c,
{
    expr_taint(c.head, t) || exists|i: int|
        0 <= i < c.parts@.len() && expr_taint(#[trigger] c.parts@[i].1, t)
}

/// The value of a block (its trailing expression or `return e`) is secret-derived.
pub open spec fn block_result_taint(b: Block, t: Set<Seq<char>>) -> bool
    decreases b,
{
    if b.stmts@.len() == 0 {
        false
    } else {
        match b.stmts@[b.stmts@.len() - 1].kind {
            StmtKind::Expr(e) => expr_taint(e, t),
            StmtKind::Return(Some(e)) => expr_taint(e, t),
            _ => false,
        }
    }
}

/// Taint only grows with the secret set.
pub proof fn lemma_expr_tainted_monotone(e: Expr, t1: Set<Seq<char>>, t2: Set<Seq<char>>)
    requires
        t1.subset_of(t2),
    ensures
        expr_taint(e, t1) ==> expr_taint(e, t2),
    decreases e,
{
    if expr_taint(e, t1) {
        match e.kind {
            ExprKind::Paren(a) => lemma_expr_tainted_monotone(*a, t1, t2),
            ExprKind::Un(_, a) => lemma_expr_tainted_monotone(*a, t1, t2),
            ExprKind::Field(a, _) => lemma_expr_tainted_monotone(*a, t1, t2),
            ExprKind::Borrow { inner, .. } => lemma_expr_tainted_monotone(*inner, t1, t2),
            ExprKind::Own(a) => lemma_expr_tainted_monotone(*a, t1, t2),
            ExprKind::Move(a) => lemma_expr_tainted_monotone(*a, t1, t2),
            ExprKind::Bin(_, a, b) => {
                lemma_expr_tainted_monotone(*a, t1, t2);
                lemma_expr_tainted_monotone(*b, t1, t2);
            },
            ExprKind::Index(a, b) => {
                lemma_expr_tainted_monotone(*a, t1, t2);
                lemma_expr_tainted_monotone(*b, t1, t2);
            },
            ExprKind::Range { lo, hi, .. } => {
                lemma_expr_tainted_monotone(*lo, t1, t2);
                lemma_expr_tainted_monotone(*hi, t1, t2);
            },
            ExprKind::Call(callee, args) => {
                lemma_expr_tainted_monotone(*callee, t1, t2);
                if exists|i: int| 0 <= i < args@.len() && expr_taint(#[trigger] args@[i], t1) {
                    let i = choose|i: int| 0 <= i < args@.len() && expr_taint(#[trigger] args@[i], t1);
                    lemma_expr_tainted_monotone(args@[i], t1, t2);
                }
            },
            ExprKind::Reduction { domain, body, .. } => {
                lemma_domain_tainted_monotone(domain, t1, t2);
                lemma_expr_tainted_monotone(*body, t1, t2);
            },
            ExprKind::Match { scrut, arms } => {
                lemma_expr_tainted_monotone(*scrut, t1, t2);
                if exists|i: int| 0 <= i < arms@.len() && block_result_taint(#[trigger] arms@[i].body, t1) {
                    let i = choose|i: int| 0 <= i < arms@.len() && block_result_taint(#[trigger] arms@[i].body, t1);
                    lemma_block_result_tainted_monotone(arms@[i].body, t1, t2);
                }
            },
            _ => {},
        }
    }
}

pub proof fn lemma_domain_tainted_monotone(d: Domain, t1: Set<Seq<char>>, t2: Set<Seq<char>>)
    requires
        t1.subset_of(t2),
    ensures
        domain_taint(d, t1) ==> domain_taint(d, t2),
    decreases d,
{
    if domain_taint(d, t1) {
        match d {
            Domain::Range(e) => lemma_expr_tainted_monotone(*e, t1, t2),
            Domain::Expr(e) => lemma_expr_tainted_monotone(*e, t1, t2),
            Domain::ConstraintSet(cs) => {
                let i = choose|i: int| 0 <= i < cs@.len() && constraint_taint(#[trigger] cs@[i], t1);
                lemma_constraint_tainted_monotone(cs@[i], t1, t2);
            },
        }
    }
}

pub proof fn lemma_constraint_tainted_monotone(c: Constraint, t1: Set<Seq<char>>, t2: Set<Seq<char>>)
    requires
        t1.subset_of(t2),
    ensures
        constraint_taint(c, t1) ==> constraint_taint(c, t2),
    decreases c,
{
    lemma_expr_tainted_monotone(c.head, t1, t2);
    if exists|i: int| 0 <= i < c.parts@.len() && expr_taint(#[trigger] c.parts@[i].1, t1) {
        let i = choose|i: int| 0 <= i < c.parts@.len() && expr_taint(#[trigger] c.parts@[i].1, t1);
        lemma_expr_tainted_monotone(c.parts@[i].1, t1, t2);
    }
}

pub proof fn lemma_block_result_tainted_monotone(b: Block, t1: Set<Seq<char>>, t2: Set<Seq<char>>)
    requires
        t1.subset_of(t2),
    ensures
        block_result_taint(b, t1) ==> block_result_taint(b, t2),
    decreases b,
{
    if b.stmts@.len() > 0 {
        match b.stmts@[b.stmts@.len() - 1].kind {
            StmtKind::Expr(e) => lemma_expr_tainted_monotone(e, t1, t2),
            StmtKind::Return(Some(e)) => lemma_expr_tainted_monotone(e, t1, t2),
            _ => {},
        }
    }
}

/// Nothing is secret-derived when nothing is secret.
pub proof fn lemma_expr_untainted_without_secrets(e: Expr)
    ensures
        !expr_taint(e, Set::empty()),
    decreases e,
{
    match e.kind {
        ExprKind::Paren(a) => lemma_expr_untainted_without_secrets(*a),
        ExprKind::Un(_, a) => lemma_expr_untainted_without_secrets(*a),
        ExprKind::Field(a, _) => lemma_expr_untainted_without_secrets(*a),
        ExprKind::Borrow { inner, .. } => lemma_expr_untainted_without_secrets(*inner),
        ExprKind::Own(a) => lemma_expr_untainted_without_secrets(*a),
        ExprKind::Move(a) => lemma_expr_untainted_without_secrets(*a),
        ExprKind::Bin(_, a, b) => {
            lemma_expr_untainted_without_secrets(*a);
            lemma_expr_untainted_without_secrets(*b);
        },
        ExprKind::Index(a, b) => {
            lemma_expr_untainted_without_secrets(*a);
            lemma_expr_untainted_without_secrets(*b);
        },
        ExprKind::Range { lo, hi, .. } => {
            lemma_expr_untainted_without_secrets(*lo);
            lemma_expr_untainted_without_secrets(*hi);
        },
        ExprKind::Call(callee, args) => {
            lemma_expr_untainted_without_secrets(*callee);
            assert forall|i: int| 0 <= i < args@.len() implies !expr_taint(
                #[trigger] args@[i],
                Set::empty(),
            ) by {
                lemma_expr_untainted_without_secrets(args@[i]);
            }
        },
        ExprKind::Reduction { domain, body, .. } => {
            lemma_domain_untainted_without_secrets(domain);
            lemma_expr_untainted_without_secrets(*body);
        },
        ExprKind::Match { scrut, arms } => {
            lemma_expr_untainted_without_secrets(*scrut);
            assert forall|i: int| 0 <= i < arms@.len() implies !block_result_taint(
                #[trigger] arms@[i].body,
                Set::empty(),
            ) by {
                lemma_block_untainted_without_secrets(arms@[i].body);
            }
        },
        _ => {},
    }
}

pub proof fn lemma_domain_untainted_without_secrets(d: Domain)
    ensures
        !domain_taint(d, Set::empty()),
    decreases d,
{
    match d {
        Domain::Range(e) => lemma_expr_untainted_without_secrets(*e),
        Domain::Expr(e) => lemma_expr_untainted_without_secrets(*e),
        Domain::ConstraintSet(cs) => {
            assert forall|i: int| 0 <= i < cs@.len() implies !constraint_taint(
                #[trigger] cs@[i],
                Set::empty(),
            ) by {
                let c = cs@[i];
                lemma_expr_untainted_without_secrets(c.head);
                assert forall|j: int| 0 <= j < c.parts@.len() implies !expr_taint(
                    #[trigger] c.parts@[j].1,
                    Set::empty(),
                ) by {
                    lemma_expr_untainted_without_secrets(c.parts@[j].1);
                }
            }
        },
    }
}

pub proof fn lemma_block_untainted_without_secrets(b: Block)
    ensures
        !block_result_taint(b, Set::empty()),
    decreases b,
{
    if b.stmts@.len() > 0 {
        match b.stmts@[b.stmts@.len() - 1].kind {
            StmtKind::Expr(e) => lemma_expr_untainted_without_secrets(e),
            StmtKind::Return(Some(e)) => lemma_expr_untainted_without_secrets(e),
            _ => {},
        }
    }
}

// ---- binding sites (taint flows) ----

/// What a binding takes its taint from: a value, or a reduction domain.
pub enum TaintSource {
    Value(Expr),
    Over(Domain),
}

/// A binding site: the names it binds and where their taint comes from.
pub type FlowSpec = (Seq<Seq<char>>, TaintSource);

pub open spec fn source_taint(s: TaintSource, t: Set<Seq<char>>) -> bool {
    match s {
        TaintSource::Value(e) => expr_taint(e, t),
        TaintSource::Over(d) => domain_taint(d, t),
    }
}

/// The binding sites inside an expression (reduction binders, match arms), in
/// source order.
pub open spec fn expr_flows(e: Expr) -> Seq<FlowSpec>
    decreases e,
{
    match e.kind {
        ExprKind::Lit(_) => seq![],
        ExprKind::Var(_) => seq![],
        ExprKind::Paren(a) => expr_flows(*a),
        ExprKind::Un(_, a) => expr_flows(*a),
        ExprKind::Field(a, _) => expr_flows(*a),
        ExprKind::Borrow { inner, .. } => expr_flows(*inner),
        ExprKind::Own(a) => expr_flows(*a),
        ExprKind::Move(a) => expr_flows(*a),
        ExprKind::Bin(_, a, b) => expr_flows(*a) + expr_flows(*b),
        ExprKind::Index(a, b) => expr_flows(*a) + expr_flows(*b),
        ExprKind::Range { lo, hi, .. } => expr_flows(*lo) + expr_flows(*hi),
        ExprKind::Call(callee, args) => expr_flows(*callee) + exprs_flows(args@),
        ExprKind::Reduction { binder, domain, body, .. } => seq![
            (patterns_vars_spec(binder@), TaintSource::Over(domain)),
        ] + domain_flows(domain) + expr_flows(*body),
        ExprKind::Match { scrut, arms } => expr_flows(*scrut) + arms_flows(arms@, *scrut),
    }
}

pub open spec fn exprs_flows(es: Seq<Expr>) -> Seq<FlowSpec>
    decreases es,
{
    if es.len() == 0 {
        seq![]
    } else {
        exprs_flows(es.drop_last()) + expr_flows(es.last())
    }
}

/// Each arm binds its pattern's variables from the scrutinee.
pub open spec fn arms_flows(arms: Seq<Arm>, scrut: Expr) -> Seq<FlowSpec>
    decreases arms,
{
    if arms.len() == 0 {
        seq![]
    } else {
        arms_flows(arms.drop_last(), scrut) + seq![
            (pattern_vars_spec(arms.last().pat), TaintSource::Value(scrut)),
        ] + block_flows(arms.last().body)
    }
}

pub open spec fn domain_flows(d: Domain) -> Seq<FlowSpec>
    decreases d,
{
    match d {
        Domain::Range(e) => expr_flows(*e),
        Domain::Expr(e) => expr_flows(*e),
        Domain::ConstraintSet(cs) => constraints_flows(cs@),
    }
}

pub open spec fn constraints_flows(cs: Seq<Constraint>) -> Seq<FlowSpec>
    decreases cs,
{
    if cs.len() == 0 {
        seq![]
    } else {
        constraints_flows(cs.drop_last()) + expr_flows(cs.last().head) + parts_flows(
            cs.last().parts@,
        )
    }
}

pub open spec fn parts_flows(ps: Seq<(CmpOp, Expr)>) -> Seq<FlowSpec>
    decreases ps,
{
    if ps.len() == 0 {
        seq![]
    } else {
        parts_flows(ps.drop_last()) + expr_flows(ps.last().1)
    }
}

/// The binding sites of a statement: `let`, `var`, assignments (to the base
/// variable of the l-value) and `for` loops, then those nested inside.
pub open spec fn stmt_flows(st: Stmt) -> Seq<FlowSpec>
    decreases st,
{
    match st.kind {
        StmtKind::Let { pat, init, .. } => seq![
            (pattern_vars_spec(pat), TaintSource::Value(init)),
        ] + expr_flows(init),
        StmtKind::Var { name, init, .. } => seq![(seq![name@], TaintSource::Value(init))]
            + expr_flows(init),
        StmtKind::Assign { lhs, rhs, .. } => seq![
            (seq![lvalue_base_spec(lhs)], TaintSource::Value(rhs)),
        ] + expr_flows(rhs),
        StmtKind::For { pat, iter, body } => seq![
            (pattern_vars_spec(pat), TaintSource::Value(iter)),
        ] + expr_flows(iter) + block_flows(body),
        StmtKind::While { cond, body } => expr_flows(cond) + block_flows(body),
        StmtKind::Return(Some(e)) => expr_flows(e),
        StmtKind::Return(None) => seq![],
        StmtKind::Expr(e) => expr_flows(e),
    }
}

pub open spec fn stmts_flows(ss: Seq<Stmt>) -> Seq<FlowSpec>
    decreases ss,
{
    if ss.len() == 0 {
        seq![]
    } else {
        stmts_flows(ss.drop_last()) + stmt_flows(ss.last())
    }
}

pub open spec fn block_flows(b: Block) -> Seq<FlowSpec>
    decreases b,
{
    stmts_flows(b.stmts@)
}

/// `t` is closed under the binding sites: where a source is tainted, so are
/// all the names it binds.
pub open spec fn flows_closed(fs: Seq<FlowSpec>, t: Set<Seq<char>>) -> bool {
    forall|i: int| 0 <= i < fs.len() ==> source_taint(#[trigger] fs[i].1, t) ==> all_in(fs[i].0, t)
}

/// The names of a function's `secret[T]` parameters.
pub open spec fn secret_params(ps: Seq<Param>) -> Seq<Seq<char>>
    decreases ps.len(),
{
    if ps.len() == 0 {
        seq![]
    } else {
        secret_params(ps.drop_last()) + (if type_is_secret_spec(ps.last().ty) {
            seq![ps.last().name@]
        } else {
            seq![]
        })
    }
}

/// `t` holds the secret parameters of `f` and is closed under its binding sites.
pub open spec fn fn_closed(f: FnDecl, t: Set<Seq<char>>) -> bool {
    &&& all_in(secret_params(f.params@), t)
    &&& flows_closed(block_flows(f.body), t)
}

/// `t` is the taint set of `f`: the least closed set.
pub open spec fn is_taint_of(f: FnDecl, t: Set<Seq<char>>) -> bool {
    &&& fn_closed(f, t)
    &&& forall|s: Set<Seq<char>>| fn_closed(f, s) ==> t.subset_of(s)
}

// ---- collecting flows ----

/// What a binding's taint comes from, borrowed from the function body.
enum FlowSource<'a> {
    Value(&'a Expr),
    Over(&'a Domain),
}

/// A binding: `binders` become tainted when `source` is tainted.
struct Flow<'a> {
    binders: Vec<Ident>,
    source: FlowSource<'a>,
}

spec fn source_view(s: FlowSource) -> TaintSource {
    match s {
        FlowSource::Value(e) => TaintSource::Value(*e),
        FlowSource::Over(d) => TaintSource::Over(*d),
    }
}

spec fn flow_view(f: Flow) -> FlowSpec {
    (texts(f.binders@), source_view(f.source))
}

spec fn flows_view(v: Seq<Flow>) -> Seq<FlowSpec> {
    v.map_values(|f: Flow| flow_view(f))
}

proof fn lemma_flows_push(v: Seq<Flow>, f: Flow)
    ensures
        flows_view(v.push(f)) == flows_view(v) + seq![flow_view(f)],
{
    assert(flows_view(v.push(f)) =~= flows_view(v) + seq![flow_view(f)]);
}

fn push_flow<'a>(out: &mut Vec<Flow<'a>>, f: Flow<'a>)
    ensures
        flows_view(final(out)@) == flows_view(old(out)@) + seq![flow_view(f)],
{
    proof {
        lemma_flows_push(old(out)@, f);
    }
    out.push(f);
}

#[verifier::loop_isolation(false)]
fn collect_pattern_vars(p: &Pattern, out: &mut Vec<Ident>)
    ensures
        texts(final(out)@) == texts(old(out)@) + pattern_vars_spec(*p),
    decreases p,
{
    match &p.kind {
        PatternKind::Var(x) => {
            out.push(x.clone());
            assert(texts(out@) =~= texts(old(out)@) + pattern_vars_spec(*p));
        },
        PatternKind::NatSucc(x, _) => {
            out.push(x.clone());
            assert(texts(out@) =~= texts(old(out)@) + pattern_vars_spec(*p));
        },
        PatternKind::Ctor(_, sub) => {
            let mut i: usize = 0;
            while i < sub.len()
                invariant
                    i <= sub@.len(),
                    texts(out@) == texts(old(out)@) + patterns_vars_spec(sub@.take(i as int)),
                decreases sub.len() - i,
            {
                proof {
                    assert(decreases_to!(p => sub@[i as int]));
                    assert(sub@.take(i + 1).drop_last() =~= sub@.take(i as int));
                }
                collect_pattern_vars(&sub[i], out);
                i = i + 1;
                assert(texts(out@) =~= texts(old(out)@) + patterns_vars_spec(sub@.take(i as int)));
            }
            assert(sub@.take(sub@.len() as int) =~= sub@);
        },
        _ => {
            assert(texts(out@) =~= texts(old(out)@) + pattern_vars_spec(*p));
        },
    }
}

fn pattern_vars(p: &Pattern) -> (v: Vec<Ident>)
    ensures
        texts(v@) == pattern_vars_spec(*p),
{
    let mut v: Vec<Ident> = Vec::new();
    collect_pattern_vars(p, &mut v);
    assert(texts(Seq::<String>::empty()) =~= Seq::<Seq<char>>::empty());
    assert(Seq::<Seq<char>>::empty() + pattern_vars_spec(*p) =~= pattern_vars_spec(*p));
    v
}

fn lvalue_base(lv: &LValue) -> (x: Ident)
    ensures
        x@ == lvalue_base_spec(*lv),
    decreases lv,
{
    match lv {
        LValue::Var(x) => x.clone(),
        LValue::Index(base, _) => lvalue_base(base),
        LValue::Field(base, _) => lvalue_base(base),
    }
}

#[verifier::loop_isolation(false)]
fn collect_block_flows<'a>(b: &'a Block, out: &mut Vec<Flow<'a>>)
    ensures
        flows_view(final(out)@) == flows_view(old(out)@) + block_flows(*b),
    decreases b,
{
    let mut i: usize = 0;
    while i < b.stmts.len()
        invariant
            i <= b.stmts@.len(),
            flows_view(out@) == flows_view(old(out)@) + stmts_flows(b.stmts@.take(i as int)),
        decreases b.stmts.len() - i,
    {
        proof {
            assert(decreases_to!(b => b.stmts@[i as int]));
            assert(b.stmts@.take(i + 1).drop_last() =~= b.stmts@.take(i as int));
        }
        collect_stmt_flows(&b.stmts[i], out);
        i = i + 1;
        assert(flows_view(out@) =~= flows_view(old(out)@) + stmts_flows(b.stmts@.take(i as int)));
    }
    assert(b.stmts@.take(b.stmts@.len() as int) =~= b.stmts@);
}

fn collect_stmt_flows<'a>(st: &'a Stmt, out: &mut Vec<Flow<'a>>)
    ensures
        flows_view(final(out)@) == flows_view(old(out)@) + stmt_flows(*st),
    decreases st,
{
    let ghost o0 = flows_view(out@);
    match &st.kind {
        StmtKind::Let { pat, init, .. } => {
            push_flow(out, Flow { binders: pattern_vars(pat), source: FlowSource::Value(init) });
            collect_expr_flows(init, out);
        },
        StmtKind::Var { name, init, .. } => {
            let mut binders: Vec<Ident> = Vec::new();
            binders.push(name.clone());
            assert(texts(binders@) =~= seq![name@]);
            push_flow(out, Flow { binders, source: FlowSource::Value(init) });
            collect_expr_flows(init, out);
        },
        StmtKind::Assign { lhs, rhs, .. } => {
            // The base variable of the l-value is tainted if the rhs is tainted.
            let mut binders: Vec<Ident> = Vec::new();
            binders.push(lvalue_base(lhs));
            assert(texts(binders@) =~= seq![lvalue_base_spec(*lhs)]);
            push_flow(out, Flow { binders, source: FlowSource::Value(rhs) });
            collect_expr_flows(rhs, out);
        },
        StmtKind::For { pat, iter, body } => {
            // Iterating a secret collection taints the loop variable(s).
            push_flow(out, Flow { binders: pattern_vars(pat), source: FlowSource::Value(iter) });
            collect_expr_flows(iter, out);
            collect_block_flows(body, out);
        },
        StmtKind::While { cond, body } => {
            collect_expr_flows(cond, out);
            collect_block_flows(body, out);
        },
        StmtKind::Return(Some(e)) => collect_expr_flows(e, out),
        StmtKind::Expr(e) => collect_expr_flows(e, out),
        StmtKind::Return(None) => {},
    }
    assert(flows_view(out@) =~= o0 + stmt_flows(*st));
}

/// Collects the flows nested inside an expression (reductions and match arms
/// bind variables).
#[verifier::loop_isolation(false)]
fn collect_expr_flows<'a>(e: &'a Expr, out: &mut Vec<Flow<'a>>)
    ensures
        flows_view(final(out)@) == flows_view(old(out)@) + expr_flows(*e),
    decreases e,
{
    let ghost o0 = flows_view(out@);
    match &e.kind {
        ExprKind::Lit(_) => {},
        ExprKind::Var(_) => {},
        ExprKind::Paren(a) => collect_expr_flows(a, out),
        ExprKind::Un(_, a) => collect_expr_flows(a, out),
        ExprKind::Field(a, _) => collect_expr_flows(a, out),
        ExprKind::Borrow { inner, .. } => collect_expr_flows(inner, out),
        ExprKind::Own(a) => collect_expr_flows(a, out),
        ExprKind::Move(a) => collect_expr_flows(a, out),
        ExprKind::Bin(_, a, b) => {
            collect_expr_flows(a, out);
            collect_expr_flows(b, out);
        },
        ExprKind::Index(a, b) => {
            collect_expr_flows(a, out);
            collect_expr_flows(b, out);
        },
        ExprKind::Range { lo, hi, .. } => {
            collect_expr_flows(lo, out);
            collect_expr_flows(hi, out);
        },
        ExprKind::Call(callee, args) => {
            collect_expr_flows(callee, out);
            let ghost o1 = flows_view(out@);
            let mut i: usize = 0;
            while i < args.len()
                invariant
                    i <= args@.len(),
                    flows_view(out@) == o1 + exprs_flows(args@.take(i as int)),
                decreases args.len() - i,
            {
                proof {
                    assert(decreases_to!(e => args@[i as int]));
                    assert(args@.take(i + 1).drop_last() =~= args@.take(i as int));
                }
                collect_expr_flows(&args[i], out);
                i = i + 1;
                assert(flows_view(out@) =~= o1 + exprs_flows(args@.take(i as int)));
            }
            assert(args@.take(args@.len() as int) =~= args@);
        },
        ExprKind::Reduction { binder, domain, body, .. } => {
            // Binding over a secret domain taints the binder(s).
            let mut binders: Vec<Ident> = Vec::new();
            let mut i: usize = 0;
            while i < binder.len()
                invariant
                    i <= binder@.len(),
                    texts(binders@) == patterns_vars_spec(binder@.take(i as int)),
                decreases binder.len() - i,
            {
                assert(binder@.take(i + 1).drop_last() =~= binder@.take(i as int));
                collect_pattern_vars(&binder[i], &mut binders);
                i = i + 1;
            }
            assert(binder@.take(binder@.len() as int) =~= binder@);
            push_flow(out, Flow { binders, source: FlowSource::Over(domain) });
            collect_domain_flows(domain, out);
            collect_expr_flows(body, out);
        },
        ExprKind::Match { scrut, arms } => {
            collect_expr_flows(scrut, out);
            let ghost o1 = flows_view(out@);
            let mut i: usize = 0;
            while i < arms.len()
                invariant
                    i <= arms@.len(),
                    flows_view(out@) == o1 + arms_flows(arms@.take(i as int), **scrut),
                decreases arms.len() - i,
            {
                proof {
                    assert(decreases_to!(e => arms@[i as int].body));
                    assert(arms@.take(i + 1).drop_last() =~= arms@.take(i as int));
                }
                // Destructuring a secret scrutinee taints the pattern variables.
                push_flow(
                    out,
                    Flow { binders: pattern_vars(&arms[i].pat), source: FlowSource::Value(scrut) },
                );
                collect_block_flows(&arms[i].body, out);
                i = i + 1;
                assert(flows_view(out@) =~= o1 + arms_flows(arms@.take(i as int), **scrut));
            }
            assert(arms@.take(arms@.len() as int) =~= arms@);
        },
    }
    assert(flows_view(out@) =~= o0 + expr_flows(*e));
}

#[verifier::loop_isolation(false)]
fn collect_domain_flows<'a>(d: &'a Domain, out: &mut Vec<Flow<'a>>)
    ensures
        flows_view(final(out)@) == flows_view(old(out)@) + domain_flows(*d),
    decreases d,
{
    let ghost o0 = flows_view(out@);
    match d {
        Domain::Range(e) => collect_expr_flows(e, out),
        Domain::Expr(e) => collect_expr_flows(e, out),
        Domain::ConstraintSet(cs) => {
            let mut i: usize = 0;
            while i < cs.len()
                invariant
                    i <= cs@.len(),
                    flows_view(out@) == o0 + constraints_flows(cs@.take(i as int)),
                decreases cs.len() - i,
            {
                proof {
                    assert(decreases_to!(d => cs@[i as int].head));
                    assert(cs@.take(i + 1).drop_last() =~= cs@.take(i as int));
                }
                let c = &cs[i];
                collect_expr_flows(&c.head, out);
                let ghost o1 = flows_view(out@);
                let mut j: usize = 0;
                while j < c.parts.len()
                    invariant
                        j <= c.parts@.len(),
                        flows_view(out@) == o1 + parts_flows(c.parts@.take(j as int)),
                    decreases c.parts.len() - j,
                {
                    proof {
                        assert(decreases_to!(d => c.parts@[j as int].1));
                        assert(c.parts@.take(j + 1).drop_last() =~= c.parts@.take(j as int));
                    }
                    collect_expr_flows(&c.parts[j].1, out);
                    j = j + 1;
                    assert(flows_view(out@) =~= o1 + parts_flows(c.parts@.take(j as int)));
                }
                assert(c.parts@.take(c.parts@.len() as int) =~= c.parts@);
                i = i + 1;
                assert(flows_view(out@) =~= o0 + constraints_flows(cs@.take(i as int)));
            }
            assert(cs@.take(cs@.len() as int) =~= cs@);
        },
    }
    assert(flows_view(out@) =~= o0 + domain_flows(*d));
}

// ---- taint queries ----

/// Whether `x` is in the taint list.
fn contains_name(taint: &Vec<Ident>, x: &Ident) -> (b: bool)
    ensures
        b == name_set(taint@).contains(x@),
{
    let mut i: usize = 0;
    while i < taint.len()
        invariant
            i <= taint@.len(),
            forall|j: int| 0 <= j < i ==> taint@[j]@ != x@,
        decreases taint.len() - i,
    {
        if string_eq(&taint[i], x) {
            assert(texts(taint@)[i as int] == x@);
            return true;
        }
        i = i + 1;
    }
    assert(!texts(taint@).contains(x@));
    false
}

fn is_declassify(callee: &Expr) -> (b: bool)
    ensures
        b == is_declassify_spec(*callee),
{
    match &callee.kind {
        ExprKind::Var(name) => string_eq_str(name, "declassify"),
        _ => false,
    }
}

/// Is `e` secret-derived under the current taint set? Over-approximates.
#[verifier::loop_isolation(false)]
fn expr_tainted(e: &Expr, taint: &Vec<Ident>) -> (b: bool)
    ensures
        b == expr_taint(*e, name_set(taint@)),
    decreases e,
{
    match &e.kind {
        ExprKind::Lit(_) => false,
        ExprKind::Var(x) => contains_name(taint, x),
        ExprKind::Paren(a) => expr_tainted(a, taint),
        ExprKind::Un(_, a) => expr_tainted(a, taint),
        ExprKind::Field(a, _) => expr_tainted(a, taint),
        ExprKind::Borrow { inner, .. } => expr_tainted(inner, taint),
        ExprKind::Own(a) => expr_tainted(a, taint),
        ExprKind::Move(a) => expr_tainted(a, taint),
        ExprKind::Bin(_, a, b) => expr_tainted(a, taint) || expr_tainted(b, taint),
        // Indexing into a secret array yields a secret value; a secret index also
        // yields a secret value. (The violation for a secret index is reported
        // separately; here only value taint is computed.)
        ExprKind::Index(a, b) => expr_tainted(a, taint) || expr_tainted(b, taint),
        ExprKind::Range { lo, hi, .. } => expr_tainted(lo, taint) || expr_tainted(hi, taint),
        ExprKind::Call(callee, args) => {
            if is_declassify(callee) {
                // Audited escape hatch: declassify returns a public value.
                false
            } else {
                // Unknown callee: a tainted argument may flow to the result.
                if expr_tainted(callee, taint) {
                    return true;
                }
                let mut i: usize = 0;
                while i < args.len()
                    invariant
                        i <= args@.len(),
                        forall|j: int| 0 <= j < i ==> !expr_taint(#[trigger] args@[j], name_set(taint@)),
                    decreases args.len() - i,
                {
                    proof {
                        assert(decreases_to!(e => args@[i as int]));
                    }
                    if expr_tainted(&args[i], taint) {
                        return true;
                    }
                    i = i + 1;
                }
                false
            }
        },
        ExprKind::Reduction { domain, body, .. } => domain_tainted(domain, taint) || expr_tainted(
            body,
            taint,
        ),
        ExprKind::Match { scrut, arms } => {
            if expr_tainted(scrut, taint) {
                return true;
            }
            let mut i: usize = 0;
            while i < arms.len()
                invariant
                    i <= arms@.len(),
                    forall|j: int| 0 <= j < i ==> !block_result_taint(#[trigger] arms@[j].body, name_set(taint@)),
                decreases arms.len() - i,
            {
                proof {
                    assert(decreases_to!(e => arms@[i as int].body));
                }
                if block_result_tainted(&arms[i].body, taint) {
                    return true;
                }
                i = i + 1;
            }
            false
        },
    }
}

#[verifier::loop_isolation(false)]
fn domain_tainted(d: &Domain, taint: &Vec<Ident>) -> (b: bool)
    ensures
        b == domain_taint(*d, name_set(taint@)),
    decreases d,
{
    match d {
        Domain::Range(e) => expr_tainted(e, taint),
        Domain::Expr(e) => expr_tainted(e, taint),
        Domain::ConstraintSet(cs) => {
            let mut i: usize = 0;
            while i < cs.len()
                invariant
                    i <= cs@.len(),
                    forall|j: int| 0 <= j < i ==> !constraint_taint(#[trigger] cs@[j], name_set(taint@)),
                decreases cs.len() - i,
            {
                proof {
                    assert(decreases_to!(d => cs@[i as int]));
                }
                if constraint_tainted(&cs[i], taint) {
                    return true;
                }
                i = i + 1;
            }
            false
        },
    }
}

#[verifier::loop_isolation(false)]
fn constraint_tainted(c: &Constraint, taint: &Vec<Ident>) -> (b: bool)
    ensures
        b == constraint_taint(*c, name_set(taint@)),
    decreases c,
{
    if expr_tainted(&c.head, taint) {
        return true;
    }
    let mut j: usize = 0;
    while j < c.parts.len()
        invariant
            j <= c.parts@.len(),
            forall|k: int| 0 <= k < j ==> !expr_taint(#[trigger] c.parts@[k].1, name_set(taint@)),
        decreases c.parts.len() - j,
    {
        proof {
            assert(decreases_to!(c => c.parts@[j as int].1));
        }
        if expr_tainted(&c.parts[j].1, taint) {
            return true;
        }
        j = j + 1;
    }
    false
}

/// Taint of a block's result value (its trailing expression or return).
fn block_result_tainted(b: &Block, taint: &Vec<Ident>) -> (r: bool)
    ensures
        r == block_result_taint(*b, name_set(taint@)),
    decreases b,
{
    let n = b.stmts.len();
    if n == 0 {
        return false;
    }
    proof {
        assert(decreases_to!(b => b.stmts@[n - 1]));
    }
    match &b.stmts[n - 1].kind {
        StmtKind::Expr(e) => expr_tainted(e, taint),
        StmtKind::Return(Some(e)) => expr_tainted(e, taint),
        _ => false,
    }
}

fn source_tainted(s: &FlowSource, taint: &Vec<Ident>) -> (b: bool)
    ensures
        b == source_taint(source_view(*s), name_set(taint@)),
{
    match s {
        FlowSource::Value(e) => expr_tainted(e, taint),
        FlowSource::Over(d) => domain_tainted(d, taint),
    }
}

// ---- the taint fixpoint ----

/// Adds `v` to the taint list unless it is there; says whether it was added.
fn insert_name(taint: &mut Vec<Ident>, v: &Ident) -> (added: bool)
    ensures
        name_set(final(taint)@) == name_set(old(taint)@).insert(v@),
        added == !name_set(old(taint)@).contains(v@),
{
    if contains_name(taint, v) {
        assert(name_set(taint@).insert(v@) =~= name_set(taint@));
        false
    } else {
        let ghost before = taint@;
        taint.push(v.clone());
        proof {
            assert(texts(taint@) =~= texts(before).push(v@));
            texts(before).lemma_push_to_set_commute(v@);
        }
        true
    }
}

/// Every name bound by a list of binding sites.
pub open spec fn flows_names(fs: Seq<FlowSpec>) -> Seq<Seq<char>>
    decreases fs.len(),
{
    if fs.len() == 0 {
        seq![]
    } else {
        flows_names(fs.drop_last()) + fs.last().0
    }
}

proof fn lemma_flows_names_contains(fs: Seq<FlowSpec>, k: int, m: int)
    requires
        0 <= k < fs.len(),
        0 <= m < fs[k].0.len(),
    ensures
        flows_names(fs).contains(fs[k].0[m]),
    decreases fs.len(),
{
    let n = fs.len() - 1;
    if k == n {
        let pre = flows_names(fs.drop_last());
        assert((pre + fs.last().0)[pre.len() + m] == fs[k].0[m]);
    } else {
        assert(fs.drop_last()[k] == fs[k]);
        lemma_flows_names_contains(fs.drop_last(), k, m);
        let w = choose|w: int| 0 <= w < flows_names(fs.drop_last()).len()
            && flows_names(fs.drop_last())[w] == fs[k].0[m];
        assert((flows_names(fs.drop_last()) + fs.last().0)[w] == fs[k].0[m]);
    }
}

/// A strictly larger subset of a finite universe leaves strictly less of it.
proof fn lemma_strict_growth(u: Set<Seq<char>>, t0: Set<Seq<char>>, t1: Set<Seq<char>>, w: Seq<char>)
    requires
        u.finite(),
        t0.subset_of(t1),
        t1.subset_of(u),
        t1.contains(w),
        !t0.contains(w),
    ensures
        u.difference(t1).len() < u.difference(t0).len(),
{
    vstd::set_lib::lemma_len_subset(u.difference(t1), u.difference(t0).remove(w));
    vstd::set_lib::lemma_len_subset(u.difference(t0), u);
}

pub proof fn lemma_source_taint_monotone(src: TaintSource, t1: Set<Seq<char>>, t2: Set<Seq<char>>)
    requires
        t1.subset_of(t2),
    ensures
        source_taint(src, t1) ==> source_taint(src, t2),
{
    match src {
        TaintSource::Value(e) => lemma_expr_tainted_monotone(e, t1, t2),
        TaintSource::Over(d) => lemma_domain_tainted_monotone(d, t1, t2),
    }
}

fn type_is_secret(t: &Type) -> (b: bool)
    ensures
        b == type_is_secret_spec(*t),
    decreases t,
{
    match &t.kind {
        TypeKind::Secret(_) => true,
        TypeKind::Ref { inner, .. } => type_is_secret(inner),
        TypeKind::Own(inner) => type_is_secret(inner),
        _ => false,
    }
}

/// The taint set of `f` (the least set that holds its secret parameters and is
/// closed under its binding sites), computed as a monotone fixpoint over the
/// collected flows. Taint only grows, so this terminates.
#[verifier::rlimit(40)]
fn taint_fixpoint(f: &FnDecl, flows: &Vec<Flow>) -> (taint: Vec<Ident>)
    requires
        flows_view(flows@) == block_flows(f.body),
    ensures
        is_taint_of(*f, name_set(taint@)),
{
    let ghost fs = flows_view(flows@);
    let ghost seeds = secret_params(f.params@);
    // Seed: parameters whose type is (or wraps) secret[T].
    let mut taint: Vec<Ident> = Vec::new();
    let mut i: usize = 0;
    while i < f.params.len()
        invariant
            i <= f.params@.len(),
            name_set(taint@) == secret_params(f.params@.take(i as int)).to_set(),
        decreases f.params.len() - i,
    {
        assert(f.params@.take(i + 1).drop_last() =~= f.params@.take(i as int));
        let p = &f.params[i];
        if type_is_secret(&p.ty) {
            insert_name(&mut taint, &p.name);
            proof {
                secret_params(f.params@.take(i as int)).lemma_push_to_set_commute(p.name@);
                assert(secret_params(f.params@.take(i + 1)) =~= secret_params(
                    f.params@.take(i as int),
                ).push(p.name@));
            }
        } else {
            assert(secret_params(f.params@.take(i + 1)) =~= secret_params(f.params@.take(i as int)));
        }
        i = i + 1;
    }
    assert(f.params@.take(f.params@.len() as int) =~= f.params@);
    let ghost u = (seeds + flows_names(fs)).to_set();
    proof {
        assert forall|x: Seq<char>| name_set(taint@).contains(x) implies u.contains(x) by {
            let w = choose|w: int| 0 <= w < seeds.len() && seeds[w] == x;
            assert((seeds + flows_names(fs))[w] == x);
        }
        assert forall|s: Set<Seq<char>>| fn_closed(*f, s) implies name_set(taint@).subset_of(s) by {
            assert forall|x: Seq<char>| name_set(taint@).contains(x) implies s.contains(x) by {
                let w = choose|w: int| 0 <= w < seeds.len() && seeds[w] == x;
            }
        }
    }
    // Monotone fixpoint: a binder becomes tainted if its source is tainted under
    // the current set.
    loop
        invariant
            fs == flows_view(flows@),
            fs == block_flows(f.body),
            seeds == secret_params(f.params@),
            u == (seeds + flows_names(fs)).to_set(),
            u.finite(),
            all_in(seeds, name_set(taint@)),
            name_set(taint@).subset_of(u),
            forall|s: Set<Seq<char>>| fn_closed(*f, s) ==> name_set(taint@).subset_of(s),
        ensures
            is_taint_of(*f, name_set(taint@)),
        decreases u.difference(name_set(taint@)).len(),
    {
        let ghost t0 = name_set(taint@);
        let ghost mut w: Seq<char> = Seq::empty();
        let mut changed = false;
        let mut j: usize = 0;
        while j < flows.len()
            invariant
                fs == flows_view(flows@),
                fs == block_flows(f.body),
                seeds == secret_params(f.params@),
                u == (seeds + flows_names(fs)).to_set(),
                u.finite(),
                all_in(seeds, name_set(taint@)),
                name_set(taint@).subset_of(u),
                forall|s: Set<Seq<char>>| fn_closed(*f, s) ==> name_set(taint@).subset_of(s),
                j <= flows@.len(),
                t0.subset_of(name_set(taint@)),
                !changed ==> name_set(taint@) == t0,
                changed ==> name_set(taint@).contains(w) && !t0.contains(w),
                !changed ==> forall|k: int|
                    0 <= k < j ==> source_taint(#[trigger] fs[k].1, t0) ==> all_in(fs[k].0, t0),
            decreases flows.len() - j,
        {
            let fl = &flows[j];
            assert(fs[j as int] == flow_view(*fl));
            if source_tainted(&fl.source, &taint) {
                let ghost tj = name_set(taint@);
                let mut m: usize = 0;
                while m < fl.binders.len()
                    invariant
                        fs == flows_view(flows@),
                        fs == block_flows(f.body),
                        fs[j as int] == flow_view(*fl),
                        j < flows@.len(),
                        seeds == secret_params(f.params@),
                        u == (seeds + flows_names(fs)).to_set(),
                        u.finite(),
                        all_in(seeds, name_set(taint@)),
                        name_set(taint@).subset_of(u),
                        forall|s: Set<Seq<char>>| fn_closed(*f, s) ==> name_set(taint@).subset_of(s),
                        m <= fl.binders@.len(),
                        tj.subset_of(name_set(taint@)),
                        source_taint(fs[j as int].1, tj),
                        t0.subset_of(name_set(taint@)),
                        !changed ==> name_set(taint@) == t0,
                        changed ==> name_set(taint@).contains(w) && !t0.contains(w),
                        !changed ==> forall|q: int| 0 <= q < m ==> t0.contains(#[trigger] fs[j as int].0[q]),
                    decreases fl.binders.len() - m,
                {
                    let v = &fl.binders[m];
                    assert(fs[j as int].0[m as int] == v@);
                    let ghost before = name_set(taint@);
                    let added = insert_name(&mut taint, v);
                    proof {
                        lemma_flows_names_contains(fs, j as int, m as int);
                        let k = choose|k: int| 0 <= k < flows_names(fs).len() && flows_names(fs)[k] == v@;
                        assert((seeds + flows_names(fs))[seeds.len() + k] == v@);
                        assert forall|s: Set<Seq<char>>| fn_closed(*f, s) implies name_set(
                            taint@,
                        ).subset_of(s) by {
                            lemma_source_taint_monotone(fs[j as int].1, tj, s);
                            assert(source_taint(fs[j as int].1, s));
                            assert(s.contains(fs[j as int].0[m as int]));
                        }
                        if added {
                            if !changed {
                                w = v@;
                            }
                        }
                    }
                    if added {
                        changed = true;
                    }
                    m = m + 1;
                }
            }
            j = j + 1;
        }
        if !changed {
            proof {
                assert(flows_closed(fs, name_set(taint@)));
            }
            break;
        }
        proof {
            lemma_strict_growth(u, t0, name_set(taint@), w);
        }
    }
    taint
}

// ---- violations (sinks) ----

/// A violation: its code, where it is, the operand's description, and for a
/// branch the construct that branches.
pub type SinkSpec = (DiagCode, Span, Seq<char>, Seq<char>);

/// A secret operand described by name and shape only, never by value.
pub open spec fn describe_spec(e: Expr) -> Seq<char>
    decreases e,
{
    match e.kind {
        ExprKind::Var(x) => "'"@ + x@ + "'"@,
        ExprKind::Index(base, _) => match base.kind {
            ExprKind::Var(x) => "an element of '"@ + x@ + "'"@,
            _ => "an indexed element"@,
        },
        ExprKind::Field(base, f) => match base.kind {
            ExprKind::Var(x) => "'"@ + x@ + "."@ + f@ + "'"@,
            _ => "field '"@ + f@ + "'"@,
        },
        ExprKind::Call(callee, _) => match callee.kind {
            ExprKind::Var(name) => "result of '"@ + name@ + "(...)'"@,
            _ => "a call result"@,
        },
        ExprKind::Paren(inner) => describe_spec(*inner),
        _ => "a secret-derived expression"@,
    }
}

/// A match branches (is not just a binding) when it has other than one arm, or
/// its one arm's pattern can fail (a literal, constructor or `m + k` pattern).
pub open spec fn is_refutable_spec(arms: Seq<Arm>) -> bool {
    arms.len() != 1 || arms[0].pat.kind is Lit || arms[0].pat.kind is Ctor
        || arms[0].pat.kind is NatSucc
}

pub open spec fn index_sink(idx: Expr, t: Set<Seq<char>>) -> Seq<SinkSpec> {
    if expr_taint(idx, t) {
        seq![(DiagCode::SecretIndex, idx.span, describe_spec(idx), Seq::<char>::empty())]
    } else {
        seq![]
    }
}

pub open spec fn branch_sink(cond: Expr, place: Seq<char>) -> Seq<SinkSpec> {
    seq![(DiagCode::SecretBranch, cond.span, describe_spec(cond), place)]
}

/// The violations inside an expression, in source order: a tainted index, and
/// a refutable match on a tainted scrutinee.
pub open spec fn expr_sinks(e: Expr, t: Set<Seq<char>>) -> Seq<SinkSpec>
    decreases e,
{
    match e.kind {
        ExprKind::Lit(_) => seq![],
        ExprKind::Var(_) => seq![],
        ExprKind::Paren(a) => expr_sinks(*a, t),
        ExprKind::Un(_, a) => expr_sinks(*a, t),
        ExprKind::Field(a, _) => expr_sinks(*a, t),
        ExprKind::Borrow { inner, .. } => expr_sinks(*inner, t),
        ExprKind::Own(a) => expr_sinks(*a, t),
        ExprKind::Move(a) => expr_sinks(*a, t),
        ExprKind::Bin(_, a, b) => expr_sinks(*a, t) + expr_sinks(*b, t),
        ExprKind::Index(base, idx) => index_sink(*idx, t) + expr_sinks(*base, t) + expr_sinks(
            *idx,
            t,
        ),
        ExprKind::Range { lo, hi, .. } => expr_sinks(*lo, t) + expr_sinks(*hi, t),
        ExprKind::Call(callee, args) => expr_sinks(*callee, t) + exprs_sinks(args@, t),
        ExprKind::Reduction { domain, body, .. } => domain_sinks(domain, t) + expr_sinks(*body, t),
        ExprKind::Match { scrut, arms } => (if expr_taint(*scrut, t) && is_refutable_spec(arms@) {
            branch_sink(*scrut, "match scrutinee"@)
        } else {
            seq![]
        }) + expr_sinks(*scrut, t) + arms_sinks(arms@, t),
    }
}

pub open spec fn exprs_sinks(es: Seq<Expr>, t: Set<Seq<char>>) -> Seq<SinkSpec>
    decreases es,
{
    if es.len() == 0 {
        seq![]
    } else {
        exprs_sinks(es.drop_last(), t) + expr_sinks(es.last(), t)
    }
}

pub open spec fn arms_sinks(arms: Seq<Arm>, t: Set<Seq<char>>) -> Seq<SinkSpec>
    decreases arms,
{
    if arms.len() == 0 {
        seq![]
    } else {
        arms_sinks(arms.drop_last(), t) + block_sinks(arms.last().body, t)
    }
}

pub open spec fn domain_sinks(d: Domain, t: Set<Seq<char>>) -> Seq<SinkSpec>
    decreases d,
{
    match d {
        Domain::Range(e) => expr_sinks(*e, t),
        Domain::Expr(e) => expr_sinks(*e, t),
        Domain::ConstraintSet(cs) => constraints_sinks(cs@, t),
    }
}

pub open spec fn constraints_sinks(cs: Seq<Constraint>, t: Set<Seq<char>>) -> Seq<SinkSpec>
    decreases cs,
{
    if cs.len() == 0 {
        seq![]
    } else {
        constraints_sinks(cs.drop_last(), t) + expr_sinks(cs.last().head, t) + parts_sinks(
            cs.last().parts@,
            t,
        )
    }
}

pub open spec fn parts_sinks(ps: Seq<(CmpOp, Expr)>, t: Set<Seq<char>>) -> Seq<SinkSpec>
    decreases ps,
{
    if ps.len() == 0 {
        seq![]
    } else {
        parts_sinks(ps.drop_last(), t) + expr_sinks(ps.last().1, t)
    }
}

/// Violations of an assignment target: a tainted index on the left-hand side.
pub open spec fn lvalue_sinks(lv: LValue, t: Set<Seq<char>>) -> Seq<SinkSpec>
    decreases lv,
{
    match lv {
        LValue::Var(_) => seq![],
        LValue::Index(base, idx) => lvalue_sinks(*base, t) + index_sink(*idx, t) + expr_sinks(
            *idx,
            t,
        ),
        LValue::Field(base, _) => lvalue_sinks(*base, t),
    }
}

/// The violations of a statement, in source order; a `while` on a tainted
/// condition, or a `for` over a tainted range (its trip count), branches on a
/// secret.
pub open spec fn stmt_sinks(st: Stmt, t: Set<Seq<char>>) -> Seq<SinkSpec>
    decreases st,
{
    match st.kind {
        StmtKind::Let { init, .. } => expr_sinks(init, t),
        StmtKind::Var { init, .. } => expr_sinks(init, t),
        StmtKind::Assign { lhs, rhs, .. } => lvalue_sinks(lhs, t) + expr_sinks(rhs, t),
        StmtKind::For { iter, body, .. } => (if expr_taint(iter, t) {
            branch_sink(iter, "for-loop range"@)
        } else {
            seq![]
        }) + expr_sinks(iter, t) + block_sinks(body, t),
        StmtKind::While { cond, body } => (if expr_taint(cond, t) {
            branch_sink(cond, "while-loop condition"@)
        } else {
            seq![]
        }) + expr_sinks(cond, t) + block_sinks(body, t),
        StmtKind::Return(Some(e)) => expr_sinks(e, t),
        StmtKind::Return(None) => seq![],
        StmtKind::Expr(e) => expr_sinks(e, t),
    }
}

pub open spec fn stmts_sinks(ss: Seq<Stmt>, t: Set<Seq<char>>) -> Seq<SinkSpec>
    decreases ss,
{
    if ss.len() == 0 {
        seq![]
    } else {
        stmts_sinks(ss.drop_last(), t) + stmt_sinks(ss.last(), t)
    }
}

pub open spec fn block_sinks(b: Block, t: Set<Seq<char>>) -> Seq<SinkSpec>
    decreases b,
{
    stmts_sinks(b.stmts@, t)
}

/// `d` reports the violation `s`, naming the operand but no value.
pub open spec fn diag_of_sink(d: Diagnostic, s: SinkSpec) -> bool {
    &&& d.severity == Severity::Error
    &&& d.code == s.0
    &&& d.span == s.1
    &&& if s.0 == DiagCode::SecretBranch {
        &&& d.message@ == "data-dependent branch on secret value ("@ + s.2 + ")"@
        &&& crate::span::notes_view(d.notes@) == seq![
            "this "@ + s.3 + " depends on a secret[T] value; constant-time is required (R6)"@,
            "a secret-dependent branch leaks the secret through timing / cache behavior"@,
        ]
        &&& d.help matches Some(h) && h@ == "rewrite data-obliviously (e.g. a constant-time `select(mask, a, b)`), or use an audited `declassify(...)` if the value is provably public"@
    } else {
        &&& d.message@ == "data-dependent index by secret value ("@ + s.2 + ")"@
        &&& crate::span::notes_view(d.notes@) == seq![
            "indexing memory by a secret[T] value makes the access address secret-dependent, which leaks through cache timing (R6)"@,
        ]
        &&& d.help matches Some(h) && h@ == "use a constant-time table scan (touch every element and mask), or an audited `declassify(...)` if the index is provably public"@
    }
}

/// `ds` reports exactly the violations `ss`, in order.
pub open spec fn diags_match(ds: Seq<Diagnostic>, ss: Seq<SinkSpec>) -> bool {
    &&& ds.len() == ss.len()
    &&& forall|i: int| 0 <= i < ss.len() ==> diag_of_sink(#[trigger] ds[i], ss[i])
}

/// `b` is `a` followed by diagnostics reporting exactly `ss`.
pub open spec fn extends_with(a: Seq<Diagnostic>, b: Seq<Diagnostic>, ss: Seq<SinkSpec>) -> bool {
    &&& b.len() == a.len() + ss.len()
    &&& b.subrange(0, a.len() as int) == a
    &&& forall|i: int| 0 <= i < ss.len() ==> diag_of_sink(#[trigger] b[a.len() + i], ss[i])
}

proof fn lemma_extends_trans(
    a: Seq<Diagnostic>,
    b: Seq<Diagnostic>,
    c: Seq<Diagnostic>,
    s1: Seq<SinkSpec>,
    s2: Seq<SinkSpec>,
)
    requires
        extends_with(a, b, s1),
        extends_with(b, c, s2),
    ensures
        extends_with(a, c, s1 + s2),
{
    assert(c.subrange(0, a.len() as int) =~= b.subrange(0, a.len() as int));
    assert forall|i: int| 0 <= i < (s1 + s2).len() implies diag_of_sink(
        #[trigger] c[a.len() + i],
        (s1 + s2)[i],
    ) by {
        if i < s1.len() {
            assert(c[a.len() + i] == b[a.len() + i]);
        } else {
            assert(c[a.len() + i] == c[b.len() + (i - s1.len())]);
        }
    }
}

proof fn lemma_extends_refl(a: Seq<Diagnostic>)
    ensures
        extends_with(a, a, seq![]),
{
    assert(a.subrange(0, a.len() as int) =~= a);
}

fn push_diag(out: &mut Vec<Diagnostic>, d: Diagnostic, Ghost(s): Ghost<SinkSpec>)
    requires
        diag_of_sink(d, s),
    ensures
        extends_with(old(out)@, final(out)@, seq![s]),
{
    out.push(d);
    assert(out@.subrange(0, old(out)@.len() as int) =~= old(out)@);
}

// ---- reporting ----

fn cat3(a: &str, b: &str, c: &str) -> (s: String)
    ensures
        s@ == a@ + b@ + c@,
{
    let mut s = str_to_string(a);
    push_str(&mut s, b);
    push_str(&mut s, c);
    s
}

/// Describes a secret operand by name and shape only (never by value).
fn describe(e: &Expr) -> (s: String)
    ensures
        s@ == describe_spec(*e),
    decreases e,
{
    match &e.kind {
        ExprKind::Var(x) => cat3("'", x.as_str(), "'"),
        ExprKind::Index(base, _) => match &base.kind {
            ExprKind::Var(x) => cat3("an element of '", x.as_str(), "'"),
            _ => str_to_string("an indexed element"),
        },
        ExprKind::Field(base, f) => match &base.kind {
            ExprKind::Var(x) => {
                let mut s = cat3("'", x.as_str(), ".");
                push_str(&mut s, f.as_str());
                push_str(&mut s, "'");
                s
            },
            _ => cat3("field '", f.as_str(), "'"),
        },
        ExprKind::Call(callee, _) => match &callee.kind {
            ExprKind::Var(name) => cat3("result of '", name.as_str(), "(...)'"),
            _ => str_to_string("a call result"),
        },
        ExprKind::Paren(inner) => describe(inner),
        _ => str_to_string("a secret-derived expression"),
    }
}

/// A match is a branch (not just a binding) if it has other than one arm or its
/// arm's pattern can fail to match.
fn is_refutable_match(arms: &Vec<Arm>) -> (b: bool)
    ensures
        b == is_refutable_spec(arms@),
{
    if arms.len() != 1 {
        return true;
    }
    match &arms[0].pat.kind {
        PatternKind::Lit(_) | PatternKind::Ctor(_, _) | PatternKind::NatSucc(_, _) => true,
        _ => false,
    }
}

fn secret_branch_diag(span: Span, operand: String, place: &str) -> (d: Diagnostic)
    ensures
        diag_of_sink(d, (DiagCode::SecretBranch, span, operand@, place@)),
{
    let message = cat3("data-dependent branch on secret value (", operand.as_str(), ")");
    let note = cat3(
        "this ",
        place,
        " depends on a secret[T] value; constant-time is required (R6)",
    );
    let d = Diagnostic::error(DiagCode::SecretBranch, span, message);
    let d1 = d.with_note(note);
    let d2 = d1.with_note(
        str_to_string("a secret-dependent branch leaks the secret through timing / cache behavior"),
    );
    let d3 = d2.with_help(
        str_to_string(
            "rewrite data-obliviously (e.g. a constant-time `select(mask, a, b)`), or use an audited `declassify(...)` if the value is provably public",
        ),
    );
    assert(crate::span::notes_view(d3.notes@) =~= seq![
        "this "@ + place@ + " depends on a secret[T] value; constant-time is required (R6)"@,
        "a secret-dependent branch leaks the secret through timing / cache behavior"@,
    ]);
    d3
}

fn secret_index_diag(span: Span, operand: String) -> (d: Diagnostic)
    ensures
        diag_of_sink(d, (DiagCode::SecretIndex, span, operand@, Seq::<char>::empty())),
{
    let message = cat3("data-dependent index by secret value (", operand.as_str(), ")");
    let d = Diagnostic::error(DiagCode::SecretIndex, span, message);
    let d1 = d.with_note(
        str_to_string(
            "indexing memory by a secret[T] value makes the access address secret-dependent, which leaks through cache timing (R6)",
        ),
    );
    let d2 = d1.with_help(
        str_to_string(
            "use a constant-time table scan (touch every element and mask), or an audited `declassify(...)` if the index is provably public",
        ),
    );
    assert(crate::span::notes_view(d2.notes@) =~= seq![
        "indexing memory by a secret[T] value makes the access address secret-dependent, which leaks through cache timing (R6)"@,
    ]);
    d2
}

/// Reports a tainted index (SECRET-IDX).
fn report_index(idx: &Expr, taint: &Vec<Ident>, out: &mut Vec<Diagnostic>)
    ensures
        extends_with(old(out)@, final(out)@, index_sink(*idx, name_set(taint@))),
{
    if expr_tainted(idx, taint) {
        let d = secret_index_diag(idx.span, describe(idx));
        push_diag(out, d, Ghost((DiagCode::SecretIndex, idx.span, describe_spec(*idx), Seq::<char>::empty())));
    } else {
        proof {
            lemma_extends_refl(out@);
        }
    }
}

#[verifier::loop_isolation(false)]
fn report_block(b: &Block, taint: &Vec<Ident>, out: &mut Vec<Diagnostic>)
    ensures
        extends_with(old(out)@, final(out)@, block_sinks(*b, name_set(taint@))),
    decreases b,
{
    let ghost t = name_set(taint@);
    proof {
        lemma_extends_refl(out@);
        assert(b.stmts@.take(0) =~= Seq::<Stmt>::empty());
    }
    let mut i: usize = 0;
    while i < b.stmts.len()
        invariant
            i <= b.stmts@.len(),
            extends_with(old(out)@, out@, stmts_sinks(b.stmts@.take(i as int), t)),
        decreases b.stmts.len() - i,
    {
        proof {
            assert(decreases_to!(b => b.stmts@[i as int]));
            assert(b.stmts@.take(i + 1).drop_last() =~= b.stmts@.take(i as int));
        }
        let ghost mid = out@;
        report_stmt(&b.stmts[i], taint, out);
        proof {
            lemma_extends_trans(old(out)@, mid, out@, stmts_sinks(b.stmts@.take(i as int), t), stmt_sinks(b.stmts@[i as int], t));
        }
        i = i + 1;
    }
    assert(b.stmts@.take(b.stmts@.len() as int) =~= b.stmts@);
}

fn report_stmt(st: &Stmt, taint: &Vec<Ident>, out: &mut Vec<Diagnostic>)
    ensures
        extends_with(old(out)@, final(out)@, stmt_sinks(*st, name_set(taint@))),
    decreases st,
{
    let ghost t = name_set(taint@);
    let ghost o0 = out@;
    match &st.kind {
        StmtKind::Let { init, .. } => report_expr(init, taint, out),
        StmtKind::Var { init, .. } => report_expr(init, taint, out),
        StmtKind::Assign { lhs, rhs, .. } => {
            report_lvalue(lhs, taint, out);
            let ghost o1 = out@;
            report_expr(rhs, taint, out);
            proof {
                lemma_extends_trans(o0, o1, out@, lvalue_sinks(*lhs, t), expr_sinks(*rhs, t));
            }
        },
        StmtKind::For { iter, body, .. } => {
            // a secret-dependent range leaks the trip count, like a `while` condition.
            let ghost head = if expr_taint(*iter, t) {
                branch_sink(*iter, "for-loop range"@)
            } else {
                seq![]
            };
            if expr_tainted(iter, taint) {
                let d = secret_branch_diag(iter.span, describe(iter), "for-loop range");
                push_diag(out, d, Ghost((DiagCode::SecretBranch, iter.span, describe_spec(*iter), "for-loop range"@)));
            } else {
                proof {
                    lemma_extends_refl(out@);
                }
            }
            let ghost o1 = out@;
            report_expr(iter, taint, out);
            let ghost o2 = out@;
            report_block(body, taint, out);
            proof {
                lemma_extends_trans(o0, o1, o2, head, expr_sinks(*iter, t));
                lemma_extends_trans(o0, o2, out@, head + expr_sinks(*iter, t), block_sinks(*body, t));
            }
        },
        StmtKind::While { cond, body } => {
            // SECRET-IF: a secret-dependent loop condition leaks the iteration count.
            let ghost head = if expr_taint(*cond, t) {
                branch_sink(*cond, "while-loop condition"@)
            } else {
                seq![]
            };
            if expr_tainted(cond, taint) {
                let d = secret_branch_diag(cond.span, describe(cond), "while-loop condition");
                push_diag(out, d, Ghost((DiagCode::SecretBranch, cond.span, describe_spec(*cond), "while-loop condition"@)));
            } else {
                proof {
                    lemma_extends_refl(out@);
                }
            }
            let ghost o1 = out@;
            report_expr(cond, taint, out);
            let ghost o2 = out@;
            report_block(body, taint, out);
            proof {
                lemma_extends_trans(o0, o1, o2, head, expr_sinks(*cond, t));
                lemma_extends_trans(o0, o2, out@, head + expr_sinks(*cond, t), block_sinks(*body, t));
            }
        },
        StmtKind::Return(Some(e)) => report_expr(e, taint, out),
        StmtKind::Expr(e) => report_expr(e, taint, out),
        StmtKind::Return(None) => {
            proof {
                lemma_extends_refl(out@);
            }
        },
    }
}

fn report_lvalue(lv: &LValue, taint: &Vec<Ident>, out: &mut Vec<Diagnostic>)
    ensures
        extends_with(old(out)@, final(out)@, lvalue_sinks(*lv, name_set(taint@))),
    decreases lv,
{
    let ghost t = name_set(taint@);
    let ghost o0 = out@;
    match lv {
        LValue::Var(_) => {
            proof {
                lemma_extends_refl(out@);
            }
        },
        LValue::Index(base, idx) => {
            report_lvalue(base, taint, out);
            let ghost o1 = out@;
            // SECRET-IDX: a secret index on the left-hand side too.
            report_index(idx, taint, out);
            let ghost o2 = out@;
            report_expr(idx, taint, out);
            proof {
                lemma_extends_trans(o0, o1, o2, lvalue_sinks(**base, t), index_sink(**idx, t));
                lemma_extends_trans(o0, o2, out@, lvalue_sinks(**base, t) + index_sink(**idx, t), expr_sinks(**idx, t));
            }
        },
        LValue::Field(base, _) => report_lvalue(base, taint, out),
    }
}

#[verifier::loop_isolation(false)]
#[verifier::rlimit(30)]
fn report_expr(e: &Expr, taint: &Vec<Ident>, out: &mut Vec<Diagnostic>)
    ensures
        extends_with(old(out)@, final(out)@, expr_sinks(*e, name_set(taint@))),
    decreases e,
{
    let ghost t = name_set(taint@);
    let ghost o0 = out@;
    match &e.kind {
        ExprKind::Lit(_) | ExprKind::Var(_) => {
            proof {
                lemma_extends_refl(out@);
            }
        },
        ExprKind::Paren(a) => report_expr(a, taint, out),
        ExprKind::Un(_, a) => report_expr(a, taint, out),
        ExprKind::Field(a, _) => report_expr(a, taint, out),
        ExprKind::Borrow { inner, .. } => report_expr(inner, taint, out),
        ExprKind::Own(a) => report_expr(a, taint, out),
        ExprKind::Move(a) => report_expr(a, taint, out),
        ExprKind::Bin(_, a, b) => {
            report_expr(a, taint, out);
            let ghost o1 = out@;
            report_expr(b, taint, out);
            proof {
                lemma_extends_trans(o0, o1, out@, expr_sinks(**a, t), expr_sinks(**b, t));
            }
        },
        ExprKind::Index(base, idx) => {
            // SECRET-IDX: data-dependent memory index. (Indexing a secret array by
            // a public index is fine: only a tainted index is a violation.)
            report_index(idx, taint, out);
            let ghost o1 = out@;
            report_expr(base, taint, out);
            let ghost o2 = out@;
            report_expr(idx, taint, out);
            proof {
                lemma_extends_trans(o0, o1, o2, index_sink(**idx, t), expr_sinks(**base, t));
                lemma_extends_trans(o0, o2, out@, index_sink(**idx, t) + expr_sinks(**base, t), expr_sinks(**idx, t));
            }
        },
        ExprKind::Range { lo, hi, .. } => {
            report_expr(lo, taint, out);
            let ghost o1 = out@;
            report_expr(hi, taint, out);
            proof {
                lemma_extends_trans(o0, o1, out@, expr_sinks(**lo, t), expr_sinks(**hi, t));
            }
        },
        ExprKind::Call(callee, args) => {
            report_expr(callee, taint, out);
            let ghost o1 = out@;
            proof {
                lemma_extends_refl(out@);
                assert(args@.take(0) =~= Seq::<Expr>::empty());
            }
            let mut i: usize = 0;
            while i < args.len()
                invariant
                    i <= args@.len(),
                    extends_with(o1, out@, exprs_sinks(args@.take(i as int), t)),
                decreases args.len() - i,
            {
                proof {
                    assert(decreases_to!(e => args@[i as int]));
                    assert(args@.take(i + 1).drop_last() =~= args@.take(i as int));
                }
                let ghost mid = out@;
                report_expr(&args[i], taint, out);
                proof {
                    lemma_extends_trans(o1, mid, out@, exprs_sinks(args@.take(i as int), t), expr_sinks(args@[i as int], t));
                }
                i = i + 1;
            }
            proof {
                assert(args@.take(args@.len() as int) =~= args@);
                lemma_extends_trans(o0, o1, out@, expr_sinks(**callee, t), exprs_sinks(args@, t));
            }
        },
        ExprKind::Reduction { domain, body, .. } => {
            report_domain(domain, taint, out);
            let ghost o1 = out@;
            report_expr(body, taint, out);
            proof {
                lemma_extends_trans(o0, o1, out@, domain_sinks(*domain, t), expr_sinks(**body, t));
            }
        },
        ExprKind::Match { scrut, arms } => {
            // SECRET-IF: branching on a secret scrutinee. A single irrefutable arm
            // (a pure `_`/`x` binding) is not a branch; a refutable or multi-arm
            // match is.
            let ghost head = if expr_taint(**scrut, t) && is_refutable_spec(arms@) {
                branch_sink(**scrut, "match scrutinee"@)
            } else {
                seq![]
            };
            if expr_tainted(scrut, taint) && is_refutable_match(arms) {
                let d = secret_branch_diag(scrut.span, describe(scrut), "match scrutinee");
                push_diag(out, d, Ghost((DiagCode::SecretBranch, scrut.span, describe_spec(**scrut), "match scrutinee"@)));
            } else {
                proof {
                    lemma_extends_refl(out@);
                }
            }
            let ghost o1 = out@;
            report_expr(scrut, taint, out);
            let ghost o2 = out@;
            proof {
                lemma_extends_trans(o0, o1, o2, head, expr_sinks(**scrut, t));
                lemma_extends_refl(out@);
                assert(arms@.take(0) =~= Seq::<Arm>::empty());
            }
            let mut i: usize = 0;
            while i < arms.len()
                invariant
                    i <= arms@.len(),
                    extends_with(o2, out@, arms_sinks(arms@.take(i as int), t)),
                decreases arms.len() - i,
            {
                proof {
                    assert(decreases_to!(e => arms@[i as int].body));
                    assert(arms@.take(i + 1).drop_last() =~= arms@.take(i as int));
                }
                let ghost mid = out@;
                report_block(&arms[i].body, taint, out);
                proof {
                    lemma_extends_trans(o2, mid, out@, arms_sinks(arms@.take(i as int), t), block_sinks(arms@[i as int].body, t));
                }
                i = i + 1;
            }
            proof {
                assert(arms@.take(arms@.len() as int) =~= arms@);
                lemma_extends_trans(o0, o2, out@, head + expr_sinks(**scrut, t), arms_sinks(arms@, t));
            }
        },
    }
}

#[verifier::loop_isolation(false)]
fn report_domain(d: &Domain, taint: &Vec<Ident>, out: &mut Vec<Diagnostic>)
    ensures
        extends_with(old(out)@, final(out)@, domain_sinks(*d, name_set(taint@))),
    decreases d,
{
    let ghost t = name_set(taint@);
    let ghost o0 = out@;
    match d {
        Domain::Range(e) => report_expr(e, taint, out),
        Domain::Expr(e) => report_expr(e, taint, out),
        Domain::ConstraintSet(cs) => {
            proof {
                lemma_extends_refl(out@);
                assert(cs@.take(0) =~= Seq::<Constraint>::empty());
            }
            let mut i: usize = 0;
            while i < cs.len()
                invariant
                    i <= cs@.len(),
                    extends_with(o0, out@, constraints_sinks(cs@.take(i as int), t)),
                decreases cs.len() - i,
            {
                proof {
                    assert(decreases_to!(d => cs@[i as int].head));
                    assert(cs@.take(i + 1).drop_last() =~= cs@.take(i as int));
                }
                let c = &cs[i];
                let ghost mid = out@;
                report_expr(&c.head, taint, out);
                let ghost mid2 = out@;
                proof {
                    lemma_extends_refl(out@);
                    assert(c.parts@.take(0) =~= Seq::<(CmpOp, Expr)>::empty());
                }
                let mut j: usize = 0;
                while j < c.parts.len()
                    invariant
                        j <= c.parts@.len(),
                        extends_with(mid2, out@, parts_sinks(c.parts@.take(j as int), t)),
                    decreases c.parts.len() - j,
                {
                    proof {
                        assert(decreases_to!(d => c.parts@[j as int].1));
                        assert(c.parts@.take(j + 1).drop_last() =~= c.parts@.take(j as int));
                    }
                    let ghost m3 = out@;
                    report_expr(&c.parts[j].1, taint, out);
                    proof {
                        lemma_extends_trans(mid2, m3, out@, parts_sinks(c.parts@.take(j as int), t), expr_sinks(c.parts@[j as int].1, t));
                    }
                    j = j + 1;
                }
                proof {
                    assert(c.parts@.take(c.parts@.len() as int) =~= c.parts@);
                    lemma_extends_trans(mid, mid2, out@, expr_sinks(c.head, t), parts_sinks(c.parts@, t));
                    lemma_extends_trans(o0, mid, out@, constraints_sinks(cs@.take(i as int), t), expr_sinks(c.head, t) + parts_sinks(c.parts@, t));
                    assert(constraints_sinks(cs@.take(i + 1), t) == constraints_sinks(cs@.take(i as int), t) + expr_sinks(c.head, t) + parts_sinks(c.parts@, t)) by {
                        assert(cs@.take(i + 1).last() == *c);
                    }
                    assert((constraints_sinks(cs@.take(i as int), t) + expr_sinks(c.head, t)) + parts_sinks(c.parts@, t)
                        =~= constraints_sinks(cs@.take(i as int), t) + (expr_sinks(c.head, t) + parts_sinks(c.parts@, t)));
                }
                i = i + 1;
            }
            assert(cs@.take(cs@.len() as int) =~= cs@);
        },
    }
}

// ---- the audit ----

/// The taint set of `f`: the least set holding its secret parameters that is
/// closed under its binding sites.
pub open spec fn taint_of(f: FnDecl) -> Set<Seq<char>> {
    choose|t: Set<Seq<char>>| is_taint_of(f, t)
}

/// The least closed set is unique, so it is `taint_of`.
pub proof fn lemma_taint_of_unique(f: FnDecl, t: Set<Seq<char>>)
    requires
        is_taint_of(f, t),
    ensures
        taint_of(f) == t,
{
    let c = taint_of(f);
    assert(is_taint_of(f, c));
    assert(c.subset_of(t));
    assert(t.subset_of(c));
    assert(c =~= t);
}

/// The violations of all functions of a program, in order.
pub open spec fn program_sinks(items: Seq<Item>) -> Seq<SinkSpec>
    decreases items.len(),
{
    if items.len() == 0 {
        seq![]
    } else {
        program_sinks(items.drop_last()) + match items.last() {
            Item::Fn(f) => block_sinks(f.body, taint_of(f)),
            _ => seq![],
        }
    }
}

/// Audits a single function: computes its taint set (the least set holding its
/// secret parameters that is closed under its binding sites), then reports every
/// data-dependent branch or index that sees a tainted operand, in source order.
pub fn audit_fn(f: &FnDecl) -> (ds: Vec<Diagnostic>)
    ensures
        diags_match(ds@, block_sinks(f.body, taint_of(*f))),
{
    // Collect taint flows (binders <- source) once; they are structural and fixed.
    let mut flows: Vec<Flow> = Vec::new();
    collect_block_flows(&f.body, &mut flows);
    assert(flows_view(Seq::<Flow>::empty()) =~= Seq::<FlowSpec>::empty());
    assert(Seq::<FlowSpec>::empty() + block_flows(f.body) =~= block_flows(f.body));
    let taint = taint_fixpoint(f, &flows);
    proof {
        lemma_taint_of_unique(*f, name_set(taint@));
    }
    // Report sinks.
    let mut diags: Vec<Diagnostic> = Vec::new();
    report_block(&f.body, &taint, &mut diags);
    proof {
        assert forall|i: int| 0 <= i < block_sinks(f.body, taint_of(*f)).len() implies diag_of_sink(
            #[trigger] diags@[i],
            block_sinks(f.body, taint_of(*f))[i],
        ) by {
            assert(diags@[0 + i] == diags@[i]);
        }
    }
    diags
}

/// Audits a whole program: every secret-taint violation of every function, as
/// error diagnostics. Functions with no `secret[T]` inputs contribute none.
pub fn check_secret_taint(program: &Program) -> (ds: Vec<Diagnostic>)
    ensures
        diags_match(ds@, program_sinks(program.items@)),
{
    let mut diags: Vec<Diagnostic> = Vec::new();
    let mut i: usize = 0;
    while i < program.items.len()
        invariant
            i <= program.items@.len(),
            diags_match(diags@, program_sinks(program.items@.take(i as int))),
        decreases program.items.len() - i,
    {
        assert(program.items@.take(i + 1).drop_last() =~= program.items@.take(i as int));
        let ghost before = diags@;
        let ghost prefix = program_sinks(program.items@.take(i as int));
        match &program.items[i] {
            Item::Fn(f) => {
                let mut fd = audit_fn(f);
                let ghost fs = block_sinks(f.body, taint_of(*f));
                let ghost fdv = fd@;
                diags.append(&mut fd);
                proof {
                    assert forall|k: int| 0 <= k < (prefix + fs).len() implies diag_of_sink(
                        #[trigger] diags@[k],
                        (prefix + fs)[k],
                    ) by {
                        if k < prefix.len() {
                            assert(diags@[k] == before[k]);
                        } else {
                            assert(diags@[k] == fdv[k - prefix.len()]) by {
                                assert(diags@ == before + fdv);
                            }
                        }
                    }
                }
            },
            _ => {
                assert(prefix + Seq::<SinkSpec>::empty() =~= prefix);
            },
        }
        i = i + 1;
    }
    assert(program.items@.take(program.items@.len() as int) =~= program.items@);
    diags
}

/// Is this function marked `@constant_time`? The taint violations are reported
/// for every function with secret inputs regardless; the attribute only affects
/// how an audit report is phrased.
pub fn is_constant_time(f: &FnDecl) -> (b: bool)
    ensures
        b == exists|i: int| 0 <= i < f.attrs@.len() && (#[trigger] f.attrs@[i]).name@ == "constant_time"@,
{
    let mut i: usize = 0;
    while i < f.attrs.len()
        invariant
            i <= f.attrs@.len(),
            forall|j: int| 0 <= j < i ==> (#[trigger] f.attrs@[j]).name@ != "constant_time"@,
        decreases f.attrs.len() - i,
    {
        if string_eq_str(&f.attrs[i].name, "constant_time") {
            return true;
        }
        i = i + 1;
    }
    false
}

/// Does this function take any `secret[T]` input?
pub fn has_secret_inputs(f: &FnDecl) -> (b: bool)
    ensures
        b == exists|i: int| 0 <= i < f.params@.len() && type_is_secret_spec(#[trigger] f.params@[i].ty),
{
    let mut i: usize = 0;
    while i < f.params.len()
        invariant
            i <= f.params@.len(),
            forall|j: int| 0 <= j < i ==> !type_is_secret_spec(#[trigger] f.params@[j].ty),
        decreases f.params.len() - i,
    {
        if type_is_secret(&f.params[i].ty) {
            return true;
        }
        i = i + 1;
    }
    false
}

// ---- laws ----

proof fn lemma_secret_params_none(ps: Seq<Param>)
    requires
        forall|i: int| 0 <= i < ps.len() ==> !type_is_secret_spec(#[trigger] ps[i].ty),
    ensures
        secret_params(ps) == Seq::<Seq<char>>::empty(),
    decreases ps.len(),
{
    if ps.len() > 0 {
        assert forall|i: int| 0 <= i < ps.drop_last().len() implies !type_is_secret_spec(
            #[trigger] ps.drop_last()[i].ty,
        ) by {
            assert(ps.drop_last()[i] == ps[i]);
        }
        lemma_secret_params_none(ps.drop_last());
        assert(!type_is_secret_spec(ps[ps.len() - 1].ty));
        assert(secret_params(ps) =~= Seq::<Seq<char>>::empty());
    }
}

proof fn lemma_expr_sinks_none(e: Expr)
    ensures
        expr_sinks(e, Set::empty()) == Seq::<SinkSpec>::empty(),
    decreases e,
{
    let t = Set::<Seq<char>>::empty();
    match e.kind {
        ExprKind::Paren(a) => lemma_expr_sinks_none(*a),
        ExprKind::Un(_, a) => lemma_expr_sinks_none(*a),
        ExprKind::Field(a, _) => lemma_expr_sinks_none(*a),
        ExprKind::Borrow { inner, .. } => lemma_expr_sinks_none(*inner),
        ExprKind::Own(a) => lemma_expr_sinks_none(*a),
        ExprKind::Move(a) => lemma_expr_sinks_none(*a),
        ExprKind::Bin(_, a, b) => {
            lemma_expr_sinks_none(*a);
            lemma_expr_sinks_none(*b);
            assert(expr_sinks(e, t) =~= Seq::<SinkSpec>::empty());
        },
        ExprKind::Index(base, idx) => {
            lemma_expr_untainted_without_secrets(*idx);
            lemma_expr_sinks_none(*base);
            lemma_expr_sinks_none(*idx);
            assert(expr_sinks(e, t) =~= Seq::<SinkSpec>::empty());
        },
        ExprKind::Range { lo, hi, .. } => {
            lemma_expr_sinks_none(*lo);
            lemma_expr_sinks_none(*hi);
            assert(expr_sinks(e, t) =~= Seq::<SinkSpec>::empty());
        },
        ExprKind::Call(callee, args) => {
            lemma_expr_sinks_none(*callee);
            lemma_exprs_sinks_none(args@);
            assert(expr_sinks(e, t) =~= Seq::<SinkSpec>::empty());
        },
        ExprKind::Reduction { domain, body, .. } => {
            lemma_domain_sinks_none(domain);
            lemma_expr_sinks_none(*body);
            assert(expr_sinks(e, t) =~= Seq::<SinkSpec>::empty());
        },
        ExprKind::Match { scrut, arms } => {
            lemma_expr_untainted_without_secrets(*scrut);
            lemma_expr_sinks_none(*scrut);
            lemma_arms_sinks_none(arms@);
            assert(expr_sinks(e, t) =~= Seq::<SinkSpec>::empty());
        },
        _ => {},
    }
}

proof fn lemma_exprs_sinks_none(es: Seq<Expr>)
    ensures
        exprs_sinks(es, Set::empty()) == Seq::<SinkSpec>::empty(),
    decreases es,
{
    if es.len() > 0 {
        lemma_exprs_sinks_none(es.drop_last());
        lemma_expr_sinks_none(es.last());
        assert(exprs_sinks(es, Set::empty()) =~= Seq::<SinkSpec>::empty());
    }
}

proof fn lemma_arms_sinks_none(arms: Seq<Arm>)
    ensures
        arms_sinks(arms, Set::empty()) == Seq::<SinkSpec>::empty(),
    decreases arms,
{
    if arms.len() > 0 {
        lemma_arms_sinks_none(arms.drop_last());
        lemma_block_sinks_none(arms.last().body);
        assert(arms_sinks(arms, Set::empty()) =~= Seq::<SinkSpec>::empty());
    }
}

proof fn lemma_domain_sinks_none(d: Domain)
    ensures
        domain_sinks(d, Set::empty()) == Seq::<SinkSpec>::empty(),
    decreases d,
{
    match d {
        Domain::Range(e) => lemma_expr_sinks_none(*e),
        Domain::Expr(e) => lemma_expr_sinks_none(*e),
        Domain::ConstraintSet(cs) => lemma_constraints_sinks_none(cs@),
    }
}

proof fn lemma_constraints_sinks_none(cs: Seq<Constraint>)
    ensures
        constraints_sinks(cs, Set::empty()) == Seq::<SinkSpec>::empty(),
    decreases cs,
{
    if cs.len() > 0 {
        lemma_constraints_sinks_none(cs.drop_last());
        lemma_expr_sinks_none(cs.last().head);
        lemma_parts_sinks_none(cs.last().parts@);
        assert(constraints_sinks(cs, Set::empty()) =~= Seq::<SinkSpec>::empty());
    }
}

proof fn lemma_parts_sinks_none(ps: Seq<(CmpOp, Expr)>)
    ensures
        parts_sinks(ps, Set::empty()) == Seq::<SinkSpec>::empty(),
    decreases ps,
{
    if ps.len() > 0 {
        lemma_parts_sinks_none(ps.drop_last());
        lemma_expr_sinks_none(ps.last().1);
        assert(parts_sinks(ps, Set::empty()) =~= Seq::<SinkSpec>::empty());
    }
}

proof fn lemma_lvalue_sinks_none(lv: LValue)
    ensures
        lvalue_sinks(lv, Set::empty()) == Seq::<SinkSpec>::empty(),
    decreases lv,
{
    match lv {
        LValue::Var(_) => {},
        LValue::Index(base, idx) => {
            lemma_lvalue_sinks_none(*base);
            lemma_expr_untainted_without_secrets(*idx);
            lemma_expr_sinks_none(*idx);
            assert(lvalue_sinks(lv, Set::empty()) =~= Seq::<SinkSpec>::empty());
        },
        LValue::Field(base, _) => lemma_lvalue_sinks_none(*base),
    }
}

proof fn lemma_stmt_sinks_none(st: Stmt)
    ensures
        stmt_sinks(st, Set::empty()) == Seq::<SinkSpec>::empty(),
    decreases st,
{
    let t = Set::<Seq<char>>::empty();
    match st.kind {
        StmtKind::Let { init, .. } => lemma_expr_sinks_none(init),
        StmtKind::Var { init, .. } => lemma_expr_sinks_none(init),
        StmtKind::Assign { lhs, rhs, .. } => {
            lemma_lvalue_sinks_none(lhs);
            lemma_expr_sinks_none(rhs);
            assert(stmt_sinks(st, t) =~= Seq::<SinkSpec>::empty());
        },
        StmtKind::For { iter, body, .. } => {
            lemma_expr_untainted_without_secrets(iter);
            lemma_expr_sinks_none(iter);
            lemma_block_sinks_none(body);
            assert(stmt_sinks(st, t) =~= Seq::<SinkSpec>::empty());
        },
        StmtKind::While { cond, body } => {
            lemma_expr_untainted_without_secrets(cond);
            lemma_expr_sinks_none(cond);
            lemma_block_sinks_none(body);
            assert(stmt_sinks(st, t) =~= Seq::<SinkSpec>::empty());
        },
        StmtKind::Return(Some(e)) => lemma_expr_sinks_none(e),
        StmtKind::Expr(e) => lemma_expr_sinks_none(e),
        StmtKind::Return(None) => {},
    }
}

proof fn lemma_block_sinks_none(b: Block)
    ensures
        block_sinks(b, Set::empty()) == Seq::<SinkSpec>::empty(),
    decreases b,
{
    lemma_stmts_sinks_none(b.stmts@);
}

proof fn lemma_stmts_sinks_none(ss: Seq<Stmt>)
    ensures
        stmts_sinks(ss, Set::empty()) == Seq::<SinkSpec>::empty(),
    decreases ss,
{
    if ss.len() > 0 {
        lemma_stmts_sinks_none(ss.drop_last());
        lemma_stmt_sinks_none(ss.last());
        assert(stmts_sinks(ss, Set::empty()) =~= Seq::<SinkSpec>::empty());
    }
}

/// A function with no `secret[T]` inputs has no taint and therefore no
/// diagnostics: its taint set is empty and it has no violations.
pub proof fn lemma_public_function_unaffected(f: FnDecl)
    requires
        !exists|i: int| 0 <= i < f.params@.len() && type_is_secret_spec(#[trigger] f.params@[i].ty),
    ensures
        taint_of(f) == Set::<Seq<char>>::empty(),
        block_sinks(f.body, taint_of(f)) == Seq::<SinkSpec>::empty(),
{
    let t = Set::<Seq<char>>::empty();
    lemma_secret_params_none(f.params@);
    let fs = block_flows(f.body);
    assert forall|i: int| 0 <= i < fs.len() implies (source_taint(#[trigger] fs[i].1, t) ==> all_in(
        fs[i].0,
        t,
    )) by {
        match fs[i].1 {
            TaintSource::Value(e) => lemma_expr_untainted_without_secrets(e),
            TaintSource::Over(d) => lemma_domain_untainted_without_secrets(d),
        }
    }
    assert(fn_closed(f, t));
    assert(is_taint_of(f, t));
    lemma_taint_of_unique(f, t);
    lemma_block_sinks_none(f.body);
}

/// Declassifying clears taint: `declassify(e)` is never secret-derived, whatever
/// is secret.
pub proof fn lemma_declassify_is_public(e: Expr, t: Set<Seq<char>>)
    requires
        e.kind matches ExprKind::Call(callee, _) && is_declassify_spec(*callee),
    ensures
        !expr_taint(e, t),
{
}


} // verus!







