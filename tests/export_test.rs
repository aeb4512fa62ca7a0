use default_args::signature::Signature;

#[test]
fn export_test() {
    // pub fn crate::export::foo::bar() -> usize { 1 }
    let segments = vec!["export".to_string(), "foo".to_string(), "bar".to_string()];
    let sig = Signature::parse(false, true, &segments, &vec![]).unwrap();
    let table = sig.dispatch_table();
    assert_eq!(sig.target(), vec!["export".to_string(), "foo".to_string(), "bar_".to_string()]);
    let args = sig.call(&table, &vec![], &vec![]).unwrap();
    let body = |args: &[String]| -> usize {
        assert!(args.is_empty());
        1
    };
    assert_eq!(body(&args), 1);
}
