use toml_env::{InvalidPath, PathElement, TomlKeyPath, TreeValue};

fn key(s: &str) -> PathElement {
    PathElement::TableProperty(s.to_owned())
}

#[test]
fn parse_reads_keys_and_positions() {
    assert_eq!(TomlKeyPath::parse("key"), TomlKeyPath(vec![key("key")]));
    assert_eq!(
        TomlKeyPath::parse("key.0"),
        TomlKeyPath(vec![key("key"), PathElement::ArrayIndex(0)])
    );
    assert_eq!(
        TomlKeyPath::parse("key.0.key"),
        TomlKeyPath(vec![key("key"), PathElement::ArrayIndex(0), key("key")])
    );
    assert_eq!(
        TomlKeyPath::parse("a.12.b3.4c"),
        TomlKeyPath(vec![key("a"), PathElement::ArrayIndex(12), key("b3"), key("4c")])
    );
}

#[test]
fn parse_passes_over_empty_pieces() {
    assert_eq!(TomlKeyPath::parse(""), TomlKeyPath(vec![]));
    assert_eq!(TomlKeyPath::parse("."), TomlKeyPath(vec![]));
    assert_eq!(TomlKeyPath::parse("..."), TomlKeyPath(vec![]));
    assert_eq!(TomlKeyPath::parse(".key"), TomlKeyPath(vec![key("key")]));
    assert_eq!(TomlKeyPath::parse("key."), TomlKeyPath(vec![key("key")]));
    assert_eq!(TomlKeyPath::parse("a..b"), TomlKeyPath(vec![key("a"), key("b")]));
}

#[test]
fn parse_through_from_str_never_fails() {
    assert_eq!("".parse::<TomlKeyPath>(), Ok(TomlKeyPath(vec![])));
    assert_eq!(
        "key.key.key".parse::<TomlKeyPath>(),
        Ok(TomlKeyPath(vec![key("key"), key("key"), key("key")]))
    );
}

#[test]
fn parse_takes_only_plain_digits_that_fit_as_positions() {
    assert_eq!(TomlKeyPath::parse("007"), TomlKeyPath(vec![PathElement::ArrayIndex(7)]));
    assert_eq!(TomlKeyPath::parse("+5"), TomlKeyPath(vec![key("+5")]));
    assert_eq!(TomlKeyPath::parse("-5"), TomlKeyPath(vec![key("-5")]));
    assert_eq!(TomlKeyPath::parse("1e3"), TomlKeyPath(vec![key("1e3")]));
    let huge = "340282366920938463463374607431768211456";
    assert_eq!(TomlKeyPath::parse(huge), TomlKeyPath(vec![key(huge)]));
    let max = usize::MAX.to_string();
    assert_eq!(
        TomlKeyPath::parse(&max),
        TomlKeyPath(vec![PathElement::ArrayIndex(usize::MAX)])
    );
}

#[test]
fn parse_keeps_letters_beyond_ascii() {
    assert_eq!(
        TomlKeyPath::parse("größe.名前.1"),
        TomlKeyPath(vec![key("größe"), key("名前"), PathElement::ArrayIndex(1)])
    );
}

#[test]
fn display_joins_with_dots() {
    assert_eq!(TomlKeyPath(vec![]).display(), "");
    assert_eq!(TomlKeyPath(vec![key("a")]).display(), "a");
    assert_eq!(
        TomlKeyPath(vec![key("a"), PathElement::ArrayIndex(0), key("b")]).display(),
        "a.0.b"
    );
    assert_eq!(
        TomlKeyPath(vec![PathElement::ArrayIndex(1234567890)]).display(),
        "1234567890"
    );
    assert_eq!(
        TomlKeyPath(vec![PathElement::ArrayIndex(usize::MAX)]).display(),
        usize::MAX.to_string()
    );
}

#[test]
fn display_of_parse_gives_the_text_back() {
    for s in ["key", "key.0", "a.b.c", "servers.10.port", "x.0.0.y", "größe.1"] {
        assert_eq!(TomlKeyPath::parse(s).display(), s);
    }
    assert_eq!(TomlKeyPath::parse("a.007").display(), "a.7");
}

#[test]
fn resolve_walks_tables_and_arrays() {
    let tree = TreeValue::Table(vec![
        ("key".to_owned(), TreeValue::String("value1".to_owned())),
        (
            "array".to_owned(),
            TreeValue::Array(vec![
                TreeValue::String("hello".to_owned()),
                TreeValue::String("world".to_owned()),
            ]),
        ),
        (
            "child".to_owned(),
            TreeValue::Table(vec![("key".to_owned(), TreeValue::String("value2".to_owned()))]),
        ),
    ]);
    assert_eq!(
        TomlKeyPath::parse("key").resolve(&tree),
        Some(&TreeValue::String("value1".to_owned()))
    );
    assert_eq!(
        TomlKeyPath::parse("child.key").resolve(&tree),
        Some(&TreeValue::String("value2".to_owned()))
    );
    assert_eq!(
        TomlKeyPath::parse("array.0").resolve(&tree),
        Some(&TreeValue::String("hello".to_owned()))
    );
    assert_eq!(
        TomlKeyPath::parse("array.1").resolve(&tree),
        Some(&TreeValue::String("world".to_owned()))
    );
    assert_eq!(TomlKeyPath::parse("").resolve(&tree), Some(&tree));
}

#[test]
fn resolve_leads_nowhere_on_a_wrong_step() {
    let tree = TreeValue::Table(vec![
        ("key".to_owned(), TreeValue::String("value1".to_owned())),
        ("array".to_owned(), TreeValue::Array(vec![TreeValue::Integer(1)])),
    ]);
    assert_eq!(TomlKeyPath::parse("missing").resolve(&tree), None);
    assert_eq!(TomlKeyPath::parse("0").resolve(&tree), None);
    assert_eq!(TomlKeyPath::parse("array.1").resolve(&tree), None);
    assert_eq!(TomlKeyPath::parse("array.key").resolve(&tree), None);
    assert_eq!(TomlKeyPath::parse("key.more").resolve(&tree), None);
}

#[test]
fn clone_and_default_of_a_path() {
    let path = TomlKeyPath::parse("a.1.b");
    assert_eq!(path.clone(), path);
    assert_eq!(TomlKeyPath::default(), TomlKeyPath(vec![]));
}

#[test]
fn strict_parse_refuses_empty_pieces() {
    for s in ["", ".", "..", ".key", "key.", "a..b", "a.b.", ".a.b"] {
        assert_eq!(TomlKeyPath::parse_strict(s), Err(InvalidPath));
    }
}

#[test]
fn strict_parse_reads_what_it_accepts_as_parse_does() {
    for s in ["key", "key.0", "key.0.key", "a.007", "größe.1"] {
        assert_eq!(TomlKeyPath::parse_strict(s), Ok(TomlKeyPath::parse(s)));
    }
}
