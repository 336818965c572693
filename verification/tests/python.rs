use jeff::python::{Provenance, PyError, Trusted};

#[test]
fn trusted_values_are_never_verified() {
    let t = Trusted::new(42i64);
    assert_eq!(t.provenance(), Provenance::Trusted);
    assert_eq!(*t.get(), 42);
    assert_ne!(t.provenance(), Provenance::Verified);
}

#[test]
fn trusted_hands_back_its_value() {
    let t = Trusted::new(String::from("numpy says 3"));
    assert_eq!(t.get(), "numpy says 3");
    assert_eq!(t.into_inner(), "numpy says 3");
    assert_eq!(PyError("boom".to_string()).to_text(), "python: boom");
}
