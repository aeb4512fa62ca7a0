use default_args::dispatch::DispatchTable;
use default_args::signature::{ParamItem, Signature};

fn declare(params: Vec<ParamItem>) -> (Signature, DispatchTable) {
    let segments = vec!["foo".to_string()];
    let sig = Signature::parse(false, false, &segments, &params).unwrap();
    let table = sig.dispatch_table();
    (sig, table)
}

fn invoke(sig: &Signature, table: &DispatchTable, positional: &[&str], named: &[(&str, &str)]) -> Vec<String> {
    let positional: Vec<String> = positional.iter().map(|s| s.to_string()).collect();
    let named: Vec<(String, String)> = named.iter().map(|(n, v)| (n.to_string(), v.to_string())).collect();
    sig.call(table, &positional, &named).unwrap()
}

#[test]
fn basic_test() {
    // fn foo() -> u32 { 1 }
    let (sig, table) = declare(vec![]);
    let body = |args: &[String]| -> u32 {
        assert!(args.is_empty());
        1
    };
    assert_eq!(body(&invoke(&sig, &table, &[], &[])), 1);
}

#[test]
fn basic_test2() {
    // fn foo(a: u32 = 0) -> u32 { a }
    let (sig, table) = declare(vec![ParamItem::Typed { name: "a".to_string(), default: Some("0".to_string()) }]);
    let body = |args: &[String]| -> u32 { args[0].parse().unwrap() };
    assert_eq!(body(&invoke(&sig, &table, &[], &[])), 0);
    assert_eq!(body(&invoke(&sig, &table, &["1"], &[])), 1);
    assert_eq!(body(&invoke(&sig, &table, &[], &[("a", "1")])), 1);
}
