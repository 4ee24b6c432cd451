use nimpipe::cli::{command_plan, CommandPlan, Commands, ServiceAction};
use nimpipe::config::{config_dir, config_path, data_dir, log_dir, models_path, AppConfig, PathError};
use nimpipe::text::split_at_char;
use std::path::PathBuf;

#[test]
fn default_config() {
    let c = AppConfig::default();
    assert_eq!(c.server.host, "127.0.0.1");
    assert_eq!(c.server.port, 8787);
    assert_eq!(c.timeouts.request_seconds, 120);
    assert_eq!(c.timeouts.streaming_seconds, 300);
    assert_eq!(c.timeouts.max_poll_seconds, 300);
    assert_eq!(c.timeouts.poll_interval_start_ms, 1000);
    assert_eq!(c.timeouts.poll_interval_max_ms, 10000);
    assert_eq!(c.logging.level, "info");
    assert!(!c.logging.debug_mode);
}

#[test]
fn config_locations() {
    let base = PathBuf::from("/home/u/.config");
    assert_eq!(config_dir(Some(base.clone())), Ok(PathBuf::from("/home/u/.config/nimpipe")));
    assert_eq!(config_path(Some(base.clone())), Ok(PathBuf::from("/home/u/.config/nimpipe/config.toml")));
    assert_eq!(models_path(Some(base.clone())), Ok(PathBuf::from("/home/u/.config/nimpipe/models.toml")));
    assert_eq!(data_dir(Some(base)), Ok(PathBuf::from("/home/u/.config/nimpipe")));
    assert_eq!(config_path(None), Err(PathError::ConfigDirUnknown));
    assert_eq!(data_dir(None), Err(PathError::DataDirUnknown));
}

#[test]
fn log_locations() {
    let home = PathBuf::from("/Users/u");
    assert_eq!(log_dir(Some(home), true), Ok(PathBuf::from("/Users/u/Library/Logs/nimpipe")));
    let state = PathBuf::from("/home/u/.local/state");
    assert_eq!(log_dir(Some(state), false), Ok(PathBuf::from("/home/u/.local/state/nimpipe/log")));
    assert_eq!(log_dir(None, false), Err(PathError::LogDirUnknown));
}

#[test]
fn commands_other_than_start_print_a_line() {
    assert!(matches!(command_plan(&Commands::Start { foreground: false }), CommandPlan::StartServer));
    assert!(matches!(command_plan(&Commands::Start { foreground: true }), CommandPlan::StartServer));
    match command_plan(&Commands::Stop) {
        CommandPlan::Print(m) => assert_eq!(m, "stop: not implemented in v1. Send SIGTERM to the running process."),
        _ => panic!(),
    }
    match command_plan(&Commands::Service { action: ServiceAction::Uninstall }) {
        CommandPlan::Print(m) => assert_eq!(m, "service uninstall: coming soon."),
        _ => panic!(),
    }
}

#[test]
fn split_keeps_empty_pieces() {
    let parts = split_at_char("a..b.", '.');
    assert_eq!(parts, vec!["a", "", "b", ""]);
    assert_eq!(split_at_char("", '.'), vec![""]);
}
