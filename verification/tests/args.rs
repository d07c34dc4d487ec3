use toml_env::{
    Args, AutoMapEnvArgs, Logging, NameTransform, DEFAULT_CONFIG_VARIABLE_NAME,
    DEFAULT_DOTENV_PATH, DEFAULT_MAP_ENV_DIVIDER,
};

#[test]
fn defaults_of_the_arguments() {
    let args = Args::default();
    assert_eq!(args.dotenv_path, ".env.toml");
    assert_eq!(args.dotenv_path, DEFAULT_DOTENV_PATH);
    assert_eq!(args.config_path, None);
    assert_eq!(args.config_variable_name, "CONFIG");
    assert_eq!(args.config_variable_name, DEFAULT_CONFIG_VARIABLE_NAME);
    assert_eq!(args.logging, Logging::Silent);
    assert!(args.map_env.is_empty());
    assert!(args.auto_map_env.is_none());
}

#[test]
fn defaults_of_the_automatic_mapping() {
    let auto = AutoMapEnvArgs::default();
    assert_eq!(auto.divider, "__");
    assert_eq!(auto.divider, DEFAULT_MAP_ENV_DIVIDER);
    assert_eq!(auto.prefix, None);
    assert_eq!(auto.transform.apply("VALUE_1"), "value_1");
    assert_eq!(Logging::default(), Logging::Silent);
}
