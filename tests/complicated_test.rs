use default_args::dispatch::DispatchTable;
use default_args::signature::{ParamItem, Signature};

fn param(name: &str, default: Option<&str>) -> ParamItem {
    ParamItem::Typed { name: name.to_string(), default: default.map(|d| d.to_string()) }
}

fn declare(params: Vec<ParamItem>) -> (Signature, DispatchTable) {
    let segments = vec!["foo".to_string()];
    let sig = Signature::parse(false, false, &segments, &params).unwrap();
    let table = sig.dispatch_table();
    (sig, table)
}

fn invoke(sig: &Signature, table: &DispatchTable, positional: &[&str], named: &[(&str, &str)]) -> Vec<String> {
    let positional: Vec<String> = positional.iter().map(|s| s.to_string()).collect();
    let named: Vec<(String, String)> = named.iter().map(|(n, v)| (n.to_string(), v.to_string())).collect();
    sig.call(table, &positional, &named).unwrap()
}

fn sum(args: &[String]) -> u32 {
    args.iter().map(|a| a.parse::<u32>().unwrap()).sum()
}

fn first(args: &[String]) -> u32 {
    args[0].parse().unwrap()
}

/// The value of a string expression of the forms `"text"` and
/// `String::from("text")`.
fn string_value(expr: &str) -> String {
    let inner = expr.strip_prefix("String::from(").and_then(|e| e.strip_suffix(')')).unwrap_or(expr);
    inner.trim_matches('"').to_string()
}

#[test]
fn complicated_test() {
    // fn foo(a: u32, b: u32, c: u32 = 10, d: u32 = 11) -> u32 { a + b + c + d }
    let (sig, table) = declare(vec![param("a", None), param("b", None), param("c", Some("10")), param("d", Some("11"))]);
    assert_eq!(sum(&invoke(&sig, &table, &["1", "2"], &[])), 24);
    assert_eq!(sum(&invoke(&sig, &table, &["1", "2"], &[("d", "0")])), 13);
    assert_eq!(sum(&invoke(&sig, &table, &["1", "2", "3"], &[])), 17);
    assert_eq!(sum(&invoke(&sig, &table, &["1", "2", "3", "4"], &[])), 10);
    assert_eq!(sum(&invoke(&sig, &table, &["1", "2"], &[("d", "3"), ("c", "4")])), 10);
    assert_eq!(sum(&invoke(&sig, &table, &["1", "2", "3"], &[("d", "4")])), 10);
}

#[test]
fn all_optional() {
    // fn foo(a: u32 = 10, b: u32 = 20, c: u32 = 30, d: u32 = 40) -> u32 { a + b + c + d }
    let (sig, table) = declare(vec![
        param("a", Some("10")),
        param("b", Some("20")),
        param("c", Some("30")),
        param("d", Some("40")),
    ]);
    assert_eq!(sum(&invoke(&sig, &table, &[], &[])), 100);
    assert_eq!(sum(&invoke(&sig, &table, &["1"], &[("c", "10"), ("b", "10")])), 61);
    assert_eq!(sum(&invoke(&sig, &table, &["1", "2", "3", "4"], &[])), 10);
    assert_eq!(sum(&invoke(&sig, &table, &[], &[("d", "10")])), 70);
}

#[test]
fn generics_test() {
    // fn foo<T: AsRef<str>>(a: T = "hello") -> String { a.as_ref().to_string() }
    let (sig, table) = declare(vec![param("a", Some("\"hello\""))]);
    let body = |args: &[String]| string_value(&args[0]);
    assert_eq!(body(&invoke(&sig, &table, &[], &[])), "hello");
    assert_eq!(body(&invoke(&sig, &table, &["\"world\""], &[])), "world");
    assert_eq!(body(&invoke(&sig, &table, &[], &[("a", "\"a\"")])), "a");
    assert_eq!(body(&invoke(&sig, &table, &[], &[("a", "String::from(\"abcd\")")])), "abcd");
}

#[test]
fn const_test() {
    // const fn foo(a: u32 = 0) -> u32 { a }
    let (sig, table) = declare(vec![param("a", Some("0"))]);
    let a = first(&invoke(&sig, &table, &[], &[]));
    let b = first(&invoke(&sig, &table, &["1"], &[]));
    assert_eq!(a, 0);
    assert_eq!(b, 1);
}

#[test]
fn unsafe_test() {
    // unsafe fn foo(a: u32 = 0) -> u32 { a }
    let (sig, table) = declare(vec![param("a", Some("0"))]);
    assert_eq!(first(&invoke(&sig, &table, &[], &[])), 0);
    assert_eq!(first(&invoke(&sig, &table, &["1"], &[])), 1);
}

#[test]
fn extern_test() {
    // pub extern "C" fn foo(a: u32 = 0) -> u32 { a }
    let (sig, table) = declare(vec![param("a", Some("0"))]);
    assert_eq!(first(&invoke(&sig, &table, &[], &[])), 0);
    assert_eq!(first(&invoke(&sig, &table, &["1"], &[])), 1);
}
