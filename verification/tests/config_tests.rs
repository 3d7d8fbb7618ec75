use grabstuff::config::{default_format, default_ignores, Config, DefaultFormat, Defaults};
use grabstuff::formatter::Format;

#[test]
fn test_default_config() {
    let config = Config::default();
    assert_eq!(config.defaults.format, DefaultFormat::Md);
    assert!(!config.defaults.ignore.is_empty());
    assert!(config.defaults.ignore.contains(&".git/".to_string()));
    assert!(config
        .defaults
        .ignore
        .contains(&"node_modules/".to_string()));
    assert!(config.defaults.ignore.contains(&"target/".to_string()));
}

#[test]
fn test_default_ignores() {
    let ignores = default_ignores();
    assert_eq!(ignores.len(), 4);
    assert!(ignores.contains(&".git/".to_string()));
    assert!(ignores.contains(&".env".to_string()));
}

fn config_with(format: DefaultFormat, ignore: &[&str]) -> Config {
    Config {
        defaults: Defaults {
            format,
            ignore: ignore.iter().map(|s| s.to_string()).collect(),
        },
    }
}

#[test]
fn project_config_wins_over_global() {
    let project = config_with(DefaultFormat::Json, &["a/"]);
    let global = config_with(DefaultFormat::Plain, &["b/"]);
    let chosen = Config::from_sources(Some(project), Some(global.clone()));
    assert_eq!(chosen.defaults.format, DefaultFormat::Json);
    assert_eq!(chosen.defaults.ignore, vec!["a/".to_string()]);
    let fallback = Config::from_sources(None, Some(global));
    assert_eq!(fallback.defaults.format, DefaultFormat::Plain);
    let builtin = Config::from_sources(None, None);
    assert_eq!(builtin.defaults.format, default_format());
    assert_eq!(builtin.defaults.ignore, default_ignores());
}

#[test]
fn extra_ignores_come_after_configured_ones() {
    let config = config_with(DefaultFormat::Md, &["x/"]);
    let all = config.ignores_with(&["*.tmp".to_string(), "y".to_string()]);
    assert_eq!(all, vec!["x/".to_string(), "*.tmp".to_string(), "y".to_string()]);
}

#[test]
fn requested_format_wins_over_configured() {
    let config = config_with(DefaultFormat::Plain, &[]);
    assert_eq!(config.output_format(None), Format::Plain);
    assert_eq!(config.output_format(Some(Format::Json)), Format::Json);
}
