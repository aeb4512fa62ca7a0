use default_args::dispatch::{generate_macro, DispatchTable, Slot};
use default_args::signature::{ParamItem, Signature};

fn param(name: &str, default: Option<&str>) -> ParamItem {
    ParamItem::Typed { name: name.to_string(), default: default.map(|d| d.to_string()) }
}

fn strings(v: &[&str]) -> Vec<String> {
    v.iter().map(|s| s.to_string()).collect()
}

fn pairs(v: &[(&str, &str)]) -> Vec<(String, String)> {
    v.iter().map(|(n, e)| (n.to_string(), e.to_string())).collect()
}

fn four() -> (Signature, DispatchTable) {
    let params = vec![param("a", None), param("b", None), param("c", Some("10")), param("d", Some("11"))];
    let sig = Signature::parse(false, false, &strings(&["foo"]), &params).unwrap();
    let table = sig.dispatch_table();
    (sig, table)
}

#[test]
fn table_has_one_rule_per_shape() {
    // n = 2: k = 0 gives 5 orders of name sets, k = 1 gives 2, k = 2 gives 1.
    let t = generate_macro(1, 2);
    assert_eq!(t.rules.len(), 8);
    // n = 4: 65 + 16 + 5 + 2 + 1.
    let t = generate_macro(0, 4);
    assert_eq!(t.rules.len(), 89);
    for a in 0..t.rules.len() {
        for b in (a + 1)..t.rules.len() {
            let same = t.rules[a].positional == t.rules[b].positional && t.rules[a].named == t.rules[b].named;
            assert!(!same);
        }
    }
}

#[test]
fn empty_signature_has_single_rule() {
    let t = generate_macro(0, 0);
    assert_eq!(t.rules.len(), 1);
    assert_eq!(t.rules[0].positional, 0);
    assert!(t.rules[0].named.is_empty());
    assert!(t.rules[0].args.is_empty());
}

#[test]
fn required_only_call_forwards_defaults() {
    let t = generate_macro(2, 2);
    let j = t.resolve(2, &vec![]).unwrap();
    assert_eq!(t.rules[j].offset, 0);
    assert_eq!(t.rules[j].args, vec![Slot::Positional(0), Slot::Positional(1), Slot::Default(0), Slot::Default(1)]);
}

#[test]
fn all_positional_call_forwards_no_default() {
    let t = generate_macro(2, 2);
    let j = t.resolve(4, &vec![]).unwrap();
    assert_eq!(t.rules[j].offset, 2);
    assert_eq!(
        t.rules[j].args,
        vec![Slot::Positional(0), Slot::Positional(1), Slot::Positional(2), Slot::Positional(3)]
    );
}

#[test]
fn later_name_leaves_earlier_default() {
    let t = generate_macro(2, 2);
    let j = t.resolve(2, &vec![1]).unwrap();
    assert_eq!(t.rules[j].offset, 0);
    assert_eq!(t.rules[j].named, vec![1]);
    assert_eq!(t.rules[j].args, vec![Slot::Positional(0), Slot::Positional(1), Slot::Default(0), Slot::Named(1)]);
}

#[test]
fn names_in_either_order() {
    let t = generate_macro(0, 2);
    let a = t.resolve(0, &vec![0, 1]).unwrap();
    let b = t.resolve(0, &vec![1, 0]).unwrap();
    assert_ne!(a, b);
    assert_eq!(t.rules[a].args, vec![Slot::Named(0), Slot::Named(1)]);
    assert_eq!(t.rules[b].args, vec![Slot::Named(0), Slot::Named(1)]);
}

#[test]
fn slot_bound_twice_is_rejected() {
    let t = generate_macro(2, 2);
    // c given by position and again by name
    assert_eq!(t.resolve(3, &vec![0]), None);
    // d named twice
    assert_eq!(t.resolve(2, &vec![1, 1]), None);
    let (sig, table) = four();
    assert_eq!(sig.call(&table, &strings(&["1", "2", "3"]), &pairs(&[("c", "4")])), None);
}

#[test]
fn too_few_or_too_many_arguments() {
    let (sig, table) = four();
    assert_eq!(sig.call(&table, &strings(&["1"]), &pairs(&[])), None);
    assert_eq!(sig.call(&table, &strings(&["1", "2", "3", "4", "5"]), &pairs(&[])), None);
}

#[test]
fn unknown_name_is_rejected() {
    let (sig, table) = four();
    assert_eq!(sig.call(&table, &strings(&["1", "2"]), &pairs(&[("e", "4")])), None);
    // a required parameter cannot be named
    assert_eq!(sig.call(&table, &strings(&["2"]), &pairs(&[("a", "1")])), None);
}

#[test]
fn call_forwards_in_declaration_order() {
    let (sig, table) = four();
    let args = sig.call(&table, &strings(&["x", "y"]), &pairs(&[("d", "p"), ("c", "q")])).unwrap();
    assert_eq!(args, strings(&["x", "y", "q", "p"]));
    let args = sig.call(&table, &strings(&["x", "y"]), &pairs(&[])).unwrap();
    assert_eq!(args, strings(&["x", "y", "10", "11"]));
}

#[test]
fn rules_come_in_dispatch_order() {
    let t = generate_macro(1, 3);
    assert_eq!(t.rules[0].offset, 0);
    assert!(t.rules[0].named.is_empty());
    for j in 1..t.rules.len() {
        let (a, b) = (&t.rules[j - 1], &t.rules[j]);
        assert!(a.offset < b.offset || (a.offset == b.offset && a.named < b.named));
        if a.offset < b.offset {
            assert!(b.named.is_empty());
        }
    }
    // depth first: [], [0], [0, 1], [0, 1, 2], [0, 2], [0, 2, 1], [1], ...
    let first: Vec<Vec<usize>> = t.rules.iter().take(7).map(|r| r.named.clone()).collect();
    assert_eq!(first, vec![vec![], vec![0], vec![0, 1], vec![0, 1, 2], vec![0, 2], vec![0, 2, 1], vec![1]]);
}
