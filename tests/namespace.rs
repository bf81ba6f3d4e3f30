use proteus::getter::namespace::{Error, Namespace};
use proteus::setter::namespace::Error as SetterError;
use proteus::setter::namespace::Namespace as SetterNamespace;

fn key(id: &str) -> Namespace {
    Namespace::Object { id: id.to_string() }
}

fn idx(index: usize) -> Namespace {
    Namespace::Array { index }
}

#[test]
fn test_namespace() {
    let results = Namespace::parse("embedded.array[0][1]").unwrap();
    assert_eq!(results, vec![key("embedded"), key("array"), idx(0), idx(1)]);
}

#[test]
fn test_simple() {
    let results = Namespace::parse("field").unwrap();
    assert_eq!(results, vec![key("field")]);
    let results = Namespace::parse("array-field[0]").unwrap();
    assert_eq!(results, vec![key("array-field"), idx(0)]);
}

#[test]
fn test_blank() {
    let results = Namespace::parse("").unwrap();
    let expected: Vec<Namespace> = Vec::new();
    assert_eq!(results, expected);
}

#[test]
fn test_blank_field() {
    let results = Namespace::parse(".field");
    assert!(results.is_err());
    assert!(matches!(results.err().unwrap(), Error::InvalidDotNotation { .. }));

    let results = Namespace::parse(r#"[""].field"#).unwrap();
    assert_eq!(results, vec![key(""), key("field")]);
}

#[test]
fn test_blank_array() {
    let results = Namespace::parse(".[0]");
    assert!(results.is_err());
    assert!(matches!(results.err().unwrap(), Error::InvalidDotNotation { .. }));

    let results = Namespace::parse(r#"[""].[0]"#).unwrap();
    assert_eq!(vec![key(""), idx(0)], results);

    let results = Namespace::parse(r#"[""][0]"#).unwrap();
    assert_eq!(vec![key(""), idx(0)], results);

    let results = Namespace::parse(".named[0]");
    assert!(results.is_err());
    assert!(matches!(results.err().unwrap(), Error::InvalidDotNotation { .. }));

    let results = Namespace::parse(r#"[""].named[0]"#).unwrap();
    assert_eq!(vec![key(""), key("named"), idx(0)], results);
}

#[test]
fn test_array_blank() {
    let results = Namespace::parse("[0].");
    assert!(results.is_err());
    assert!(matches!(results.err().unwrap(), Error::InvalidDotNotation { .. }));

    let results = Namespace::parse("[0]").unwrap();
    assert_eq!(vec![idx(0)], results);
}

#[test]
fn test_array_named() {
    let results = Namespace::parse("[0].named").unwrap();
    assert_eq!(vec![idx(0), key("named")], results);
}

#[test]
fn mod_test_explicit_key() {
    let results = Namespace::parse(r#"["embedded.array[0][1]"]"#).unwrap();
    assert_eq!(vec![key("embedded.array[0][1]")], results);
}

#[test]
fn test_explicit_key_array() {
    let results = Namespace::parse(r#"["embedded.array[0][1]"][0]"#).unwrap();
    assert_eq!(vec![key("embedded.array[0][1]"), idx(0)], results);
}

#[test]
fn test_explicit_key_nested() {
    let results = Namespace::parse(r#"name.["embedded.array[0][1]"]"#).unwrap();
    assert_eq!(vec![key("name"), key("embedded.array[0][1]")], results);

    let results = Namespace::parse(r#"name.["embedded.array[0][1]"][0]"#).unwrap();
    assert_eq!(vec![key("name"), key("embedded.array[0][1]"), idx(0)], results);

    let results = Namespace::parse(r#"["embedded.array[0][1]"][0]"#).unwrap();
    assert_eq!(vec![key("embedded.array[0][1]"), idx(0)], results);

    let results = Namespace::parse(r#"[1].["embedded.array[0][1]"][0]"#).unwrap();
    assert_eq!(vec![idx(1), key("embedded.array[0][1]"), idx(0)], results);

    let results = Namespace::parse(r#"named[1].["embedded.array[0][1]"][0]"#).unwrap();
    assert_eq!(vec![key("named"), idx(1), key("embedded.array[0][1]"), idx(0)], results);

    let results = Namespace::parse(r#"named[1].["embedded.array[0][1]"]"#).unwrap();
    assert_eq!(vec![key("named"), idx(1), key("embedded.array[0][1]")], results);

    let results = Namespace::parse(r#"["name()"].name"#).unwrap();
    assert_eq!(vec![key("name()"), key("name")], results);
}

#[test]
fn test_explicit_key_quotes() {
    let results = Namespace::parse(r#"["""]"#);
    assert!(results.is_err());
    assert!(matches!(results.err().unwrap(), Error::InvalidExplicitKeySyntax { .. }));

    let results = Namespace::parse(r#"["\""]"#).unwrap();
    assert_eq!(vec![key(r#"""#)], results);
}

#[test]
fn read_path_index_errors() {
    assert!(matches!(Namespace::parse("a[x]"), Err(Error::InvalidNamespaceArrayIndex(_))));
    assert!(matches!(Namespace::parse("a[]"), Err(Error::InvalidNamespaceArrayIndex(_))));
    assert!(matches!(Namespace::parse("a[1"), Err(Error::MissingArrayIndexBracket(_))));
    assert!(matches!(Namespace::parse("a["), Err(Error::MissingArrayIndexBracket(_))));
    assert!(matches!(Namespace::parse(r#"["abc"#), Err(Error::InvalidExplicitKeySyntax(_))));
    assert_eq!(Namespace::parse("a[+7]").unwrap(), vec![key("a"), idx(7)]);
    assert_eq!(Namespace::parse("a..b").unwrap(), vec![key("a"), key("b")]);
    assert_eq!(Namespace::parse("a{}").unwrap(), vec![key("a{}")]);
    assert!(matches!(
        Namespace::parse("a[99999999999999999999999]"),
        Err(Error::InvalidNamespaceArrayIndex(_))
    ));
}

#[test]
fn test_direct_set() {
    let results = SetterNamespace::parse("").unwrap();
    let expected: Vec<SetterNamespace> = Vec::new();
    assert_eq!(expected, results);
}

#[test]
fn test_object_merge() {
    let results = SetterNamespace::parse("person{}").unwrap();
    let expected = vec![SetterNamespace::Object { id: "person".into() }, SetterNamespace::MergeObject];
    assert_eq!(expected, results);
}

#[test]
fn test_array_merge() {
    let results = SetterNamespace::parse("person[-]").unwrap();
    let expected = vec![SetterNamespace::Object { id: "person".into() }, SetterNamespace::MergeArray];
    assert_eq!(expected, results);
}

#[test]
fn test_array_combine() {
    let results = SetterNamespace::parse("person[+]").unwrap();
    let expected = vec![SetterNamespace::Object { id: "person".into() }, SetterNamespace::CombineArray];
    assert_eq!(expected, results);
}

#[test]
fn test_append_array() {
    let results = SetterNamespace::parse("person[]").unwrap();
    let expected = vec![SetterNamespace::Object { id: "person".into() }, SetterNamespace::AppendArray];
    assert_eq!(expected, results);
}

#[test]
fn write_path_directives_only_at_end() {
    assert!(matches!(SetterNamespace::parse("a{}.b"), Err(SetterError::InvalidMergeObjectSyntax(_))));
    assert!(matches!(SetterNamespace::parse("a{x}"), Err(SetterError::InvalidMergeObjectSyntax(_))));
    assert!(matches!(SetterNamespace::parse("a[-].b"), Err(SetterError::InvalidMergeArraySyntax(_))));
    assert!(matches!(SetterNamespace::parse("a[+]x"), Err(SetterError::InvalidCombineArraySyntax(_))));
    assert!(matches!(SetterNamespace::parse("a[].b"), Err(SetterError::InvalidAppendArraySyntax(_))));
    assert!(matches!(SetterNamespace::parse(".a"), Err(SetterError::InvalidDotNotation { .. })));
    assert_eq!(
        SetterNamespace::parse("[2][]").unwrap(),
        vec![SetterNamespace::Array { index: 2 }, SetterNamespace::AppendArray]
    );
}
