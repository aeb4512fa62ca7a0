use default_args::signature::{
    offending_param, path_not_starting_with_crate, required_after_optional, using_self, Args, ParamItem,
    Signature, SignatureError,
};

fn param(name: &str, default: Option<&str>) -> ParamItem {
    ParamItem::Typed { name: name.to_string(), default: default.map(|d| d.to_string()) }
}

fn strings(v: &[&str]) -> Vec<String> {
    v.iter().map(|s| s.to_string()).collect()
}

#[test]
fn receiver_is_rejected() {
    let params = vec![ParamItem::Receiver, param("a", None), param("b", Some("0"))];
    assert!(using_self(&params));
    assert_eq!(Args::parse(&params).err(), Some(SignatureError::ReceiverNotSupported));
    let r = Signature::parse(false, false, &strings(&["foo"]), &params);
    assert_eq!(r.err(), Some(SignatureError::ReceiverNotSupported));
}

#[test]
fn required_after_optional_is_rejected() {
    let params = vec![param("a", Some("0")), param("b", None)];
    assert!(required_after_optional(&params));
    assert!(!using_self(&params));
    let r = Signature::parse(false, false, &strings(&["foo"]), &params);
    assert_eq!(r.err(), Some(SignatureError::RequiredAfterOptional));
}

#[test]
fn required_then_optional_is_accepted() {
    let params = vec![param("a", None), param("b", None), param("c", Some("10"))];
    assert!(!required_after_optional(&params));
    let args = Args::parse(&params).unwrap();
    assert_eq!(args.required, strings(&["a", "b"]));
    assert_eq!(args.optional.len(), 1);
    assert_eq!(args.optional[0].name, "c");
    assert_eq!(args.optional[0].default, "10");
}

#[test]
fn path_must_start_at_crate() {
    assert!(path_not_starting_with_crate(false, &strings(&["foo", "bar"])));
    assert!(!path_not_starting_with_crate(true, &strings(&["foo", "bar"])));
    assert!(!path_not_starting_with_crate(false, &strings(&["bar"])));
    let r = Signature::parse(false, false, &strings(&["foo", "bar"]), &vec![]);
    assert_eq!(r.err(), Some(SignatureError::PathMustStartAtRoot));
}

#[test]
fn path_error_comes_before_parameter_errors() {
    let params = vec![param("a", Some("0")), param("b", None)];
    let r = Signature::parse(false, false, &strings(&["foo", "bar"]), &params);
    assert_eq!(r.err(), Some(SignatureError::PathMustStartAtRoot));
}

#[test]
fn renamed_function_gets_suffix() {
    let sig = Signature::parse(true, false, &strings(&["make_config"]), &vec![]).unwrap();
    assert_eq!(sig.renamed(), "make_config_");
    assert_eq!(sig.target(), strings(&["make_config_"]));
    assert!(sig.export);
    assert!(sig.path.is_none());
}

#[test]
fn anchored_path_keeps_modules() {
    let sig = Signature::parse(false, true, &strings(&["config", "make_config"]), &vec![]).unwrap();
    assert_eq!(sig.name, "make_config");
    assert_eq!(sig.path, Some(strings(&["config"])));
    assert_eq!(sig.target(), strings(&["config", "make_config_"]));
}

#[test]
fn first_offending_parameter_decides_the_error() {
    // the required `b` comes before the receiver
    let params = vec![param("a", Some("0")), param("b", None), ParamItem::Receiver];
    assert_eq!(offending_param(&params), Some(1));
    assert_eq!(Args::parse(&params).err(), Some(SignatureError::RequiredAfterOptional));
    // the receiver comes before the required `c`
    let params = vec![param("a", Some("0")), ParamItem::Receiver, param("c", None)];
    assert_eq!(offending_param(&params), Some(1));
    assert_eq!(Args::parse(&params).err(), Some(SignatureError::ReceiverNotSupported));
    let params = vec![param("a", None), param("b", Some("0"))];
    assert_eq!(offending_param(&params), None);
}
