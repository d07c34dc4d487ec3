use toml_env::{insert_toml_value, InsertTomlValueError, TomlKeyPath, TreeValue};

fn text(s: &str) -> TreeValue {
    TreeValue::String(s.to_owned())
}

fn at<'a>(value: &'a TreeValue, path: &str) -> Option<&'a TreeValue> {
    path.parse::<TomlKeyPath>().unwrap().resolve(value)
}

#[test]
fn insert_toml_value_empty_path() {
    let mut value = TreeValue::String("Hello".to_owned());
    insert_toml_value(
        &mut value,
        "".parse().unwrap(),
        TreeValue::String("World".to_owned()),
    )
    .unwrap();
    assert_eq!(value, text("World"));
}

#[test]
fn insert_toml_value_table_property() {
    let mut value = TreeValue::Table(Vec::new());
    insert_toml_value(
        &mut value,
        "child".parse().unwrap(),
        TreeValue::String("Hello Child".to_owned()),
    )
    .unwrap();
    assert_eq!(at(&value, "child").unwrap(), &text("Hello Child"));
}

#[test]
fn insert_toml_value_table_property_property() {
    let mut value = TreeValue::Table(Vec::new());
    insert_toml_value(
        &mut value,
        "child.value".parse().unwrap(),
        TreeValue::String("Hello Child Value".to_owned()),
    )
    .unwrap();
    let child = at(&value, "child").unwrap();
    assert!(matches!(child, TreeValue::Table(_)));
    assert_eq!(
        "value".parse::<TomlKeyPath>().unwrap().resolve(child).unwrap(),
        &text("Hello Child Value")
    );
    assert_eq!(
        value,
        TreeValue::Table(vec![(
            "child".to_owned(),
            TreeValue::Table(vec![("value".to_owned(), text("Hello Child Value"))])
        )])
    );
}

#[test]
fn insert_toml_value_create_array() {
    let mut value = TreeValue::Array(Vec::new());
    insert_toml_value(
        &mut value,
        "0".parse().unwrap(),
        TreeValue::String("Hello Element".to_owned()),
    )
    .unwrap();
    assert_eq!(at(&value, "0").unwrap(), &text("Hello Element"));
    assert_eq!(value, TreeValue::Array(vec![text("Hello Element")]));
}

#[test]
fn insert_toml_value_array_out_of_bounds_error() {
    let mut value = TreeValue::Array(Vec::new());
    let error = insert_toml_value(
        &mut value,
        "1".parse().unwrap(),
        TreeValue::String("Hello Element".to_owned()),
    )
    .unwrap_err();

    assert!(matches!(
        error,
        InsertTomlValueError::ArrayOutOfBounds { .. }
    ))
}

#[test]
fn insert_toml_value_table_property_index_error() {
    let mut value = TreeValue::Array(Vec::new());
    let error = insert_toml_value(
        &mut value,
        "key".parse().unwrap(),
        TreeValue::String("Hello Element".to_owned()),
    )
    .unwrap_err();

    assert!(matches!(
        error,
        InsertTomlValueError::TablePropertyCannotIndex { .. }
    ))
}

#[test]
fn insert_toml_value_array_index_cannot_index_error() {
    let mut value = TreeValue::Table(Vec::new());
    let error = insert_toml_value(
        &mut value,
        "0".parse().unwrap(),
        TreeValue::String("Hello Element".to_owned()),
    )
    .unwrap_err();

    assert!(matches!(
        error,
        InsertTomlValueError::ArrayIndexCannotIndex { .. }
    ))
}

#[test]
fn insert_toml_value_table_child_create_array() {
    let mut value = TreeValue::Table(Vec::new());
    insert_toml_value(
        &mut value,
        "child.0".parse().unwrap(),
        TreeValue::String("Hello Element".to_owned()),
    )
    .unwrap();
    assert_eq!(at(&value, "child.0").unwrap(), &text("Hello Element"));
    assert_eq!(
        value,
        TreeValue::Table(vec![(
            "child".to_owned(),
            TreeValue::Array(vec![text("Hello Element")])
        )])
    );
}

#[test]
fn insert_at_root_replaces_a_table() {
    let mut value = TreeValue::Table(vec![("a".to_owned(), TreeValue::Integer(1))]);
    insert_toml_value(&mut value, TomlKeyPath::parse(""), TreeValue::Boolean(true)).unwrap();
    assert_eq!(value, TreeValue::Boolean(true));
}

#[test]
fn insert_overwrites_an_entry_in_place() {
    let mut value = TreeValue::Table(vec![
        ("a".to_owned(), TreeValue::Integer(1)),
        ("b".to_owned(), TreeValue::Integer(2)),
    ]);
    insert_toml_value(&mut value, TomlKeyPath::parse("a"), TreeValue::Integer(7)).unwrap();
    assert_eq!(
        value,
        TreeValue::Table(vec![
            ("a".to_owned(), TreeValue::Integer(7)),
            ("b".to_owned(), TreeValue::Integer(2)),
        ])
    );
}

#[test]
fn insert_goes_into_an_entry_that_is_there() {
    let mut value = TreeValue::Table(vec![(
        "child".to_owned(),
        TreeValue::Table(vec![("x".to_owned(), TreeValue::Integer(1))]),
    )]);
    insert_toml_value(&mut value, TomlKeyPath::parse("child.y"), TreeValue::Integer(2)).unwrap();
    assert_eq!(
        value,
        TreeValue::Table(vec![(
            "child".to_owned(),
            TreeValue::Table(vec![
                ("x".to_owned(), TreeValue::Integer(1)),
                ("y".to_owned(), TreeValue::Integer(2)),
            ]),
        )])
    );
}

#[test]
fn insert_at_length_appends_and_below_length_overwrites() {
    let mut value = TreeValue::Array(vec![text("a"), text("b")]);
    insert_toml_value(&mut value, TomlKeyPath::parse("2"), text("c")).unwrap();
    assert_eq!(value, TreeValue::Array(vec![text("a"), text("b"), text("c")]));
    insert_toml_value(&mut value, TomlKeyPath::parse("1"), text("B")).unwrap();
    assert_eq!(value, TreeValue::Array(vec![text("a"), text("B"), text("c")]));
}

#[test]
fn insert_beyond_length_reports_index_and_array() {
    let mut value = TreeValue::Array(vec![text("a")]);
    let error = insert_toml_value(&mut value, TomlKeyPath::parse("3"), text("c")).unwrap_err();
    assert_eq!(
        error,
        InsertTomlValueError::ArrayOutOfBounds { index: 3, array: vec![text("a")] }
    );
    assert_eq!(value, TreeValue::Array(vec![text("a")]));
}

#[test]
fn insert_mismatch_reports_the_node() {
    let mut value = TreeValue::Integer(5);
    let error = insert_toml_value(&mut value, TomlKeyPath::parse("key"), text("c")).unwrap_err();
    assert_eq!(
        error,
        InsertTomlValueError::TablePropertyCannotIndex {
            property: "key".to_owned(),
            value: TreeValue::Integer(5)
        }
    );
    let error = insert_toml_value(&mut value, TomlKeyPath::parse("0"), text("c")).unwrap_err();
    assert_eq!(
        error,
        InsertTomlValueError::ArrayIndexCannotIndex { index: 0, value: TreeValue::Integer(5) }
    );
    assert_eq!(value, TreeValue::Integer(5));
}

#[test]
fn insert_failure_leaves_the_containers_it_created() {
    let mut value = TreeValue::Table(Vec::new());
    let error = insert_toml_value(&mut value, TomlKeyPath::parse("list.2"), text("c")).unwrap_err();
    assert_eq!(error, InsertTomlValueError::ArrayOutOfBounds { index: 2, array: vec![] });
    assert_eq!(
        value,
        TreeValue::Table(vec![("list".to_owned(), TreeValue::Array(vec![]))])
    );
}

#[test]
fn insert_creates_nested_arrays() {
    let mut value = TreeValue::Array(Vec::new());
    insert_toml_value(&mut value, TomlKeyPath::parse("0.0.name"), text("x")).unwrap();
    assert_eq!(
        value,
        TreeValue::Array(vec![TreeValue::Array(vec![TreeValue::Table(vec![(
            "name".to_owned(),
            text("x")
        )])])])
    );
}
