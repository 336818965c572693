use jeff::ast::Item;
use jeff::driver::{const_time_audit, is_kernel_fn};
use jeff::recurrence::surplus;
use jeff::syntax::parse;

#[test]
fn constant_time_arithmetic_passes_the_audit() {
    let src = "\
@constant_time
fn mix(a: secret[u32], b: secret[u32]) -> secret[u32]:
    a + b
";
    let (report, all_ok) = const_time_audit(src).unwrap();
    assert!(all_ok, "clean const-time fn must pass, report:\n{report}");
    assert_eq!(
        report,
        "fn mix              OK    @constant_time no secret-dependent branch/index (source/IR model)\n"
    );
}

#[test]
fn leaky_function_fails_the_audit() {
    let src = "\
fn leaky(sk: secret[u32]) -> u32:
    match sk:
        0 => 1
        _ => 0
fn public(x: u32) -> u32: x
";
    let (report, all_ok) = const_time_audit(src).unwrap();
    assert!(!all_ok);
    assert_eq!(report, "fn leaky            FAIL  E0301 at 2:11\n");
}

#[test]
fn audit_reports_parse_errors() {
    assert!(const_time_audit("fn (\n").is_err());
    let (report, ok) = const_time_audit("fn f(x: u8) -> u8: x\n").unwrap();
    assert!(report.is_empty());
    assert!(ok);
}

#[test]
fn kernel_call_functions_are_recognized() {
    let p = parse(
        "fn a(xs: Vec[f64, 4]) -> f64: (prony(xs, 2))\nfn b(x: u8) -> u8: foo(x)\nfn c(x: u8) -> u8:\n    let y = x\n    heavy_hitters(y)\n",
        0,
    )
    .unwrap();
    let fns: Vec<_> = p
        .items
        .iter()
        .map(|it| match it {
            Item::Fn(f) => f,
            _ => panic!(),
        })
        .collect();
    assert!(is_kernel_fn(fns[0]));
    assert!(!is_kernel_fn(fns[1]));
    assert!(!is_kernel_fn(fns[2]));
}

#[test]
fn surplus_is_the_determinacy_margin() {
    assert_eq!(surplus(20, 2, 1), 20 - 2 - 6);
    assert_eq!(surplus(3, 2, 2), 3 - 2 - 9);
}
