use jeff::ast::Item;
use jeff::span::{DiagCode, Diagnostic};
use jeff::syntax::parse;
use jeff::types::{audit_fn, check_secret_taint, has_secret_inputs, is_constant_time};

fn audit(src: &str) -> Vec<Diagnostic> {
    let prog = parse(src, 0).expect("parse");
    check_secret_taint(&prog)
}

fn codes(diags: &[Diagnostic]) -> Vec<DiagCode> {
    diags.iter().map(|d| d.code).collect()
}

#[test]
fn secret_dependent_branch_rejected() {
    let src = "\
@constant_time
fn leaky(sk: secret[Vec[u8, 4]]) -> u8:
    match sk[0]:
        0 => 1
        _ => 0
";
    let d = audit(src);
    assert!(
        codes(&d).contains(&DiagCode::SecretBranch),
        "expected SecretBranch, got {:?}",
        codes(&d)
    );
}

#[test]
fn secret_dependent_index_rejected() {
    let src = "\
@constant_time
fn leaky(sk: secret[Vec[u8, 4]], table: Vec[u8, 256]) -> u8:
    table[sk[0]]
";
    let d = audit(src);
    assert!(
        codes(&d).contains(&DiagCode::SecretIndex),
        "expected SecretIndex, got {:?}",
        codes(&d)
    );
}

#[test]
fn secret_dependent_while_rejected() {
    let src = "\
fn leaky(sk: secret[u32]) -> u32:
    var c: u32 = 0
    while c < sk:
        c = c + 1
    return c
";
    let d = audit(src);
    assert!(codes(&d).contains(&DiagCode::SecretBranch));
}

#[test]
fn transitive_taint_through_let() {
    let src = "\
fn leaky(sk: secret[u32]) -> u32:
    let t = sk + 1
    let u = t * 2
    match u:
        0 => 1
        _ => 0
";
    let d = audit(src);
    assert!(
        codes(&d).contains(&DiagCode::SecretBranch),
        "taint must flow sk -> t -> u -> match"
    );
}

#[test]
fn public_index_into_secret_array_is_ok() {
    let src = "\
fn ok(sk: secret[Vec[u8, 4]]) -> secret[u8]:
    sk[0]
";
    let d = audit(src);
    assert!(d.is_empty(), "public index must not flag, got {:?}", codes(&d));
}

#[test]
fn arithmetic_on_secret_is_ok() {
    let src = "\
@constant_time
fn add(a: secret[u32], b: secret[u32]) -> secret[u32]:
    a + b
";
    let d = audit(src);
    assert!(d.is_empty(), "pure arithmetic must not flag, got {:?}", codes(&d));
}

#[test]
fn public_function_is_unaffected() {
    let src = "\
fn pub_branch(x: u32, table: Vec[u8, 256]) -> u8:
    match x:
        0 => table[x]
        _ => 0
";
    let d = audit(src);
    assert!(d.is_empty(), "public branch/index must not flag, got {:?}", codes(&d));
}

#[test]
fn declassify_clears_taint() {
    let src = "\
fn dec(sk: secret[u32]) -> u32:
    let pub_val = declassify(sk)
    match pub_val:
        0 => 1
        _ => 0
";
    let d = audit(src);
    assert!(
        d.is_empty(),
        "declassified value is public; must not flag, got {:?}",
        codes(&d)
    );
}

#[test]
fn irrefutable_match_on_secret_is_not_a_branch() {
    let src = "\
fn bind(sk: secret[u32]) -> secret[u32]:
    match sk:
        y => y + 1
";
    let d = audit(src);
    assert!(d.is_empty(), "irrefutable bind must not flag, got {:?}", codes(&d));
}

#[test]
fn taint_through_for_loop_binder() {
    let src = "\
fn leaky(sk: secret[Vec[u32, 8]], table: Vec[u8, 256]) -> u8:
    var acc: u8 = 0
    for x in sk:
        acc = table[x]
    return acc
";
    let d = audit(src);
    assert!(
        codes(&d).contains(&DiagCode::SecretIndex),
        "loop var x is secret (iterating secret array) -> table[x] is a secret index"
    );
}

#[test]
fn diagnostic_does_not_leak_values_r36() {
    let src = "\
fn leaky(sk: secret[u32]) -> u32:
    match sk:
        42 => 1
        _ => 0
";
    let d = audit(src);
    let branch = d.iter().find(|x| x.code == DiagCode::SecretBranch).unwrap();
    // mentions the name, not any concrete secret value
    assert!(branch.message.contains("sk"));
    // and references the type concept, not a value
    assert!(branch.notes.iter().any(|n| n.contains("secret[T]")));
}

#[test]
fn exact_messages_and_order() {
    let src = "\
fn leaky(sk: secret[u32], t: Vec[u8, 4]) -> u8:
    var i: u32 = sk
    t[i] = 1
    while i < 3:
        i = i + 1
    return t[0]
";
    let d = audit(src);
    assert_eq!(codes(&d), vec![DiagCode::SecretIndex, DiagCode::SecretBranch]);
    assert_eq!(d[0].message, "data-dependent index by secret value ('i')");
    assert_eq!(d[1].message, "data-dependent branch on secret value (a secret-derived expression)");
    assert_eq!(
        d[1].notes[0],
        "this while-loop condition depends on a secret[T] value; constant-time is required (R6)"
    );
    assert!(d.iter().all(|x| x.is_error()));
}

#[test]
fn taint_reaches_through_reduction_binder() {
    let src = "\
fn leaky(sk: secret[u32], t: Vec[u8, 4]) -> u32:
    sum i in 0..sk: t[i]
";
    let d = audit(src);
    assert_eq!(codes(&d), vec![DiagCode::SecretIndex]);
    assert_eq!(d[0].message, "data-dependent index by secret value ('i')");
}

#[test]
fn attribute_and_secret_inputs_queries() {
    let prog = parse(
        "@constant_time\nfn a(k: &secret[u8]) -> u8: 0\nfn b(x: u8) -> u8: x\n",
        0,
    )
    .unwrap();
    let Item::Fn(fa) = &prog.items[0] else { panic!() };
    let Item::Fn(fb) = &prog.items[1] else { panic!() };
    assert!(is_constant_time(fa));
    assert!(!is_constant_time(fb));
    assert!(has_secret_inputs(fa));
    assert!(!has_secret_inputs(fb));
    assert!(audit_fn(fb).is_empty());
}

#[test]
fn secret_dependent_for_range_rejected() {
    let src = "\
fn leaky(sk: secret[u32]) -> u32:
    var c: u32 = 0
    for i in 0..sk:
        c = c + 1
    return c
";
    let d = audit(src);
    let branch = d.iter().find(|x| x.code == DiagCode::SecretBranch).expect("SecretBranch");
    assert!(branch.notes.iter().any(|n| n.contains("for-loop range")), "{:?}", branch.notes);
}

#[test]
fn public_for_range_accepted() {
    let src = "\
fn fine(n: u32, sk: secret[u32]) -> u32:
    var c: u32 = 0
    for i in 0..n:
        c = c + 1
    return c
";
    assert!(!codes(&audit(src)).contains(&DiagCode::SecretBranch));
}
