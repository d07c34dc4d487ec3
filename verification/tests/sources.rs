use toml_env::{
    combine, initialize, initialize_dotenv_toml, neither_config_nor_file, parse_file,
    read_config_variable, scan_dotenv, ConfigSource, ConfigVariable, DotEnvReason, InnerError,
    MergeConflict, TreeValue, ValueKind,
};

fn text(s: &str) -> TreeValue {
    TreeValue::String(s.to_owned())
}

fn number(i: i64) -> TreeValue {
    TreeValue::Integer(i)
}

fn table(entries: Vec<(&str, TreeValue)>) -> TreeValue {
    TreeValue::Table(entries.into_iter().map(|(k, v)| (k.to_owned(), v)).collect())
}

fn file(path: &str) -> ConfigSource {
    ConfigSource::File(path.to_owned())
}

fn variables(names: &[&str]) -> ConfigSource {
    ConfigSource::Environment { variable_names: names.iter().map(|n| (*n).to_owned()).collect() }
}

#[test]
fn parse_file_reads_a_document_in_its_order() {
    let contents = "key = \"value1\"\narray = [\"hello\", \"world\"]\nb = 1\na = 2.5\n[child]\nkey = \"value2\"\nflag = true\n";
    assert_eq!(
        parse_file("config.toml", contents).unwrap(),
        table(vec![
            ("key", text("value1")),
            ("array", TreeValue::Array(vec![text("hello"), text("world")])),
            ("b", number(1)),
            ("a", TreeValue::Float(2.5f64.to_bits())),
            ("child", table(vec![("key", text("value2")), ("flag", TreeValue::Boolean(true))])),
        ])
    );
    assert_eq!(parse_file("config.toml", "").unwrap(), table(vec![]));
}

#[test]
fn parse_file_reads_dates() {
    let moment: toml::value::Datetime = "1979-05-27T07:32:00Z".parse().unwrap();
    assert_eq!(
        parse_file("config.toml", "when = 1979-05-27T07:32:00Z").unwrap(),
        table(vec![("when", TreeValue::Datetime(moment))])
    );
}

#[test]
fn parse_file_names_the_file_that_is_no_document() {
    match parse_file("broken.toml", "this is = = no toml") {
        Err(InnerError::ErrorParsingTomlFile { path, .. }) => assert_eq!(path, "broken.toml"),
        other => panic!("unexpected: {:?}", other),
    }
}

#[test]
fn config_variable_holds_a_document_or_a_path() {
    match read_config_variable("value_1 = \"a\"\nvalue_2 = 2", ".env.toml") {
        ConfigVariable::Inline(config, source) => {
            assert_eq!(config, table(vec![("value_1", text("a")), ("value_2", number(2))]));
            assert_eq!(source, ConfigSource::DotEnv(".env.toml".to_owned()));
        }
        other => panic!("unexpected: {:?}", other),
    }
    match read_config_variable("./config.toml", ".env.toml") {
        ConfigVariable::Path { error } => {
            match neither_config_nor_file("CONFIG", "./config.toml", error) {
                InnerError::ErrorParsingEnvironmentVariableAsConfigOrFile { name, value, .. } => {
                    assert_eq!(name, "CONFIG");
                    assert_eq!(value, "./config.toml");
                }
                other => panic!("unexpected: {:?}", other),
            }
        }
        other => panic!("unexpected: {:?}", other),
    }
}

#[test]
fn dotenv_exports_scalars_and_gives_the_configuration() {
    let contents = "SECRET = \"hello\"\nPORT = 8080\nDEBUG = true\n[CONFIG]\nvalue_1 = \"a\"\n[CONFIG.child]\nvalue_2 = \"b\"\n";
    let dotenv = initialize_dotenv_toml(".env.toml", contents, "CONFIG");
    assert_eq!(
        dotenv.exports,
        vec![
            ("SECRET".to_owned(), text("hello")),
            ("PORT".to_owned(), number(8080)),
            ("DEBUG".to_owned(), TreeValue::Boolean(true)),
        ]
    );
    let (config, source) = dotenv.result.unwrap().unwrap();
    assert_eq!(
        config,
        table(vec![("value_1", text("a")), ("child", table(vec![("value_2", text("b"))]))])
    );
    assert_eq!(source, variables(&["SECRET", "PORT", "DEBUG"]));
}

#[test]
fn dotenv_without_a_configuration_table_gives_none() {
    let dotenv = initialize_dotenv_toml(".env.toml", "A = 1\nB = \"x\"", "CONFIG");
    assert_eq!(dotenv.exports.len(), 2);
    assert!(matches!(dotenv.result, Ok(None)));
    let dotenv = initialize_dotenv_toml(".env.toml", "", "CONFIG");
    assert_eq!(dotenv.exports.len(), 0);
    assert!(matches!(dotenv.result, Ok(None)));
}

#[test]
fn dotenv_with_an_array_is_refused() {
    let dotenv = initialize_dotenv_toml(".env.toml", "A = 1\nLIST = [1, 2]\nB = 2", "CONFIG");
    assert_eq!(dotenv.exports, vec![("A".to_owned(), number(1))]);
    match dotenv.result {
        Err(InnerError::CannotParseTomlDotEnvFile { key, path, reason }) => {
            assert_eq!(key, "LIST");
            assert_eq!(path, ".env.toml");
            assert_eq!(reason, DotEnvReason::ArrayValue(vec![number(1), number(2)]));
        }
        other => panic!("unexpected: {:?}", other),
    }
}

#[test]
fn dotenv_with_another_table_is_refused() {
    let dotenv = initialize_dotenv_toml("my.env", "A = 1\n[OTHER]\nx = 1\n[CONFIG]\ny = 2", "CONFIG");
    assert_eq!(dotenv.exports, vec![("A".to_owned(), number(1))]);
    match dotenv.result {
        Err(InnerError::CannotParseTomlDotEnvFile { key, path, reason }) => {
            assert_eq!(key, "OTHER");
            assert_eq!(path, "my.env");
            assert_eq!(reason, DotEnvReason::UnexpectedTable { allowed: "CONFIG".to_owned() });
        }
        other => panic!("unexpected: {:?}", other),
    }
}

#[test]
fn dotenv_that_is_no_document_is_refused() {
    let dotenv = initialize_dotenv_toml(".env.toml", "= nothing", "CONFIG");
    assert_eq!(dotenv.exports.len(), 0);
    match dotenv.result {
        Err(InnerError::ErrorParsingTomlFile { path, .. }) => assert_eq!(path, ".env.toml"),
        other => panic!("unexpected: {:?}", other),
    }
}

#[test]
fn scan_goes_through_entries_in_their_order() {
    let entries = vec![
        ("MY_CONFIG".to_owned(), table(vec![("a", number(1))])),
        ("Z".to_owned(), text("z")),
        ("A".to_owned(), TreeValue::Float(0.5f64.to_bits())),
    ];
    let dotenv = scan_dotenv(entries, "MY_CONFIG", ".env.toml");
    assert_eq!(
        dotenv.exports,
        vec![("Z".to_owned(), text("z")), ("A".to_owned(), TreeValue::Float(0.5f64.to_bits()))]
    );
    let (config, source) = dotenv.result.unwrap().unwrap();
    assert_eq!(config, table(vec![("a", number(1))]));
    assert_eq!(source, variables(&["Z", "A"]));
    let dotenv = scan_dotenv(vec![], "CONFIG", ".env.toml");
    assert!(dotenv.exports.is_empty());
    assert!(matches!(dotenv.result, Ok(None)));
}

#[test]
fn no_source_gives_no_configuration() {
    assert!(matches!(initialize(None, None, None, None), Ok(None)));
    assert!(matches!(combine(None, None), Ok(None)));
}

#[test]
fn a_single_source_is_the_configuration() {
    let doc = table(vec![("a", number(1))]);
    let (config, source) =
        initialize(None, None, Some((doc.clone(), variables(&["A"]))), None).unwrap().unwrap();
    assert_eq!(config, doc);
    assert_eq!(source, variables(&["A"]));
    let (config, source) =
        initialize(None, None, None, Some((doc.clone(), file("c.toml")))).unwrap().unwrap();
    assert_eq!(config, doc);
    assert_eq!(source, file("c.toml"));
}

#[test]
fn later_sources_take_precedence() {
    let dotenv = table(vec![("a", text("dotenv")), ("b", text("dotenv")), ("c", text("dotenv")), ("d", text("dotenv"))]);
    let variable = table(vec![("b", text("variable")), ("c", text("variable")), ("d", text("variable"))]);
    let env = table(vec![("c", text("env")), ("d", text("env"))]);
    let explicit = table(vec![("d", text("file")), ("e", text("file"))]);
    let (config, source) = initialize(
        Some((dotenv, variables(&["X"]))),
        Some((variable, ConfigSource::DotEnv(".env.toml".to_owned()))),
        Some((env, variables(&["C", "D"]))),
        Some((explicit, file("config.toml"))),
    )
    .unwrap()
    .unwrap();
    assert_eq!(
        config,
        table(vec![
            ("a", text("dotenv")),
            ("b", text("variable")),
            ("c", text("env")),
            ("d", text("file")),
            ("e", text("file")),
        ])
    );
    assert_eq!(
        source,
        ConfigSource::Merged {
            from: Box::new(ConfigSource::Merged {
                from: Box::new(ConfigSource::Merged {
                    from: Box::new(variables(&["X"])),
                    into: Box::new(ConfigSource::DotEnv(".env.toml".to_owned())),
                }),
                into: Box::new(variables(&["C", "D"])),
            }),
            into: Box::new(file("config.toml")),
        }
    );
}

#[test]
fn a_conflict_names_both_sources() {
    let lower = table(vec![("a", number(1))]);
    let higher = table(vec![("a", text("x"))]);
    match initialize(None, Some((lower, file("one"))), None, Some((higher, file("two")))) {
        Err(InnerError::ErrorMerging { from, into, error }) => {
            assert_eq!(from, file("one"));
            assert_eq!(into, file("two"));
            assert_eq!(
                error,
                MergeConflict {
                    path: "$.a".to_owned(),
                    expected: ValueKind::Integer,
                    existing: ValueKind::String
                }
            );
        }
        other => panic!("unexpected: {:?}", other),
    }
}

#[test]
fn sources_are_described_for_messages() {
    assert_eq!(file("config.toml").describe(), "config TOML file \"config.toml\"");
    assert_eq!(
        ConfigSource::DotEnv(".env.toml".to_owned()).describe(),
        "dotenv TOML file \".env.toml\""
    );
    assert_eq!(
        ConfigSource::DotEnv("dir/with \"quotes\"".to_owned()).describe(),
        "dotenv TOML file \"dir/with \\\"quotes\\\"\""
    );
    assert_eq!(variables(&[]).describe(), "environment variables ");
    assert_eq!(variables(&["A"]).describe(), "environment variables A");
    assert_eq!(variables(&["A", "B", "C"]).describe(), "environment variables A, B, C");
    let merged = ConfigSource::Merged {
        from: Box::new(ConfigSource::Merged {
            from: Box::new(variables(&["X"])),
            into: Box::new(file("a")),
        }),
        into: Box::new(file("b")),
    };
    assert_eq!(
        merged.describe(),
        "((environment variables X) merged into (config TOML file \"a\")) merged into (config TOML file \"b\")"
    );
}
