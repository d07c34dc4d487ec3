use toml_env::{merge, MergeConflict, TreeValue, ValueKind};

fn table(entries: Vec<(&str, TreeValue)>) -> TreeValue {
    TreeValue::Table(entries.into_iter().map(|(k, v)| (k.to_owned(), v)).collect())
}

fn number(i: i64) -> TreeValue {
    TreeValue::Integer(i)
}

fn text(s: &str) -> TreeValue {
    TreeValue::String(s.to_owned())
}

#[test]
fn merge_lays_higher_over_lower() {
    let lower = table(vec![("a", number(1)), ("b", number(2))]);
    let higher = table(vec![("b", number(3)), ("c", number(4))]);
    assert_eq!(
        merge(lower, higher),
        Ok(table(vec![("a", number(1)), ("b", number(3)), ("c", number(4))]))
    );
}

#[test]
fn merge_goes_down_into_shared_tables() {
    let lower = table(vec![("foo", table(vec![("bar", text("baz")), ("n", number(1))]))]);
    let higher = table(vec![("foo", table(vec![("hello", text("world")), ("n", number(2))]))]);
    assert_eq!(
        merge(lower, higher),
        Ok(table(vec![(
            "foo",
            table(vec![("bar", text("baz")), ("n", number(2)), ("hello", text("world"))])
        )]))
    );
}

#[test]
fn merge_replaces_arrays_whole() {
    let lower = table(vec![("foo", TreeValue::Array(vec![text("a"), text("b")]))]);
    let higher = table(vec![("foo", TreeValue::Array(vec![text("c")]))]);
    assert_eq!(
        merge(lower, higher),
        Ok(table(vec![("foo", TreeValue::Array(vec![text("c")]))]))
    );
}

#[test]
fn merge_of_scalars_of_one_kind_takes_the_higher() {
    assert_eq!(merge(number(1), number(2)), Ok(number(2)));
    assert_eq!(merge(text("a"), text("b")), Ok(text("b")));
    assert_eq!(merge(TreeValue::Boolean(true), TreeValue::Boolean(false)), Ok(TreeValue::Boolean(false)));
}

#[test]
fn merge_with_an_empty_table_changes_nothing() {
    let doc = table(vec![("a", number(1)), ("t", table(vec![("x", text("y"))]))]);
    assert_eq!(merge(doc.clone(), table(vec![])), Ok(doc.clone()));
    assert_eq!(merge(table(vec![]), doc.clone()), Ok(doc));
}

#[test]
fn merge_conflict_names_the_place_and_the_kinds() {
    let lower = table(vec![("foo", TreeValue::Boolean(true))]);
    let higher = table(vec![("foo", number(42))]);
    assert_eq!(
        merge(lower, higher),
        Err(MergeConflict {
            path: "$.foo".to_owned(),
            expected: ValueKind::Boolean,
            existing: ValueKind::Integer
        })
    );
    let lower = table(vec![("a", table(vec![("b", text("x"))]))]);
    let higher = table(vec![("a", table(vec![("b", TreeValue::Array(vec![]))]))]);
    assert_eq!(
        merge(lower, higher),
        Err(MergeConflict {
            path: "$.a.b".to_owned(),
            expected: ValueKind::String,
            existing: ValueKind::Array
        })
    );
    assert_eq!(
        merge(table(vec![]), number(1)),
        Err(MergeConflict {
            path: "$".to_owned(),
            expected: ValueKind::Table,
            existing: ValueKind::Integer
        })
    );
}

#[test]
fn merge_stops_at_the_first_conflict() {
    let lower = table(vec![("a", number(1)), ("b", number(2))]);
    let higher = table(vec![("b", text("x")), ("a", text("y"))]);
    assert_eq!(
        merge(lower, higher),
        Err(MergeConflict {
            path: "$.b".to_owned(),
            expected: ValueKind::Integer,
            existing: ValueKind::String
        })
    );
}
