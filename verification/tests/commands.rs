use dev_cleaner_core::commands::CliAction;
use dev_cleaner_core::commands::Commands;
use dev_cleaner_core::commands::ConfigCommands;
use dev_cleaner_core::commands::FilterCommands;
use dev_cleaner_core::config::Config;
use dev_cleaner_core::filters::Filters;

fn strings(values: &[&str]) -> Vec<String> {
    values.iter().map(|v| v.to_string()).collect()
}

const DEFAULTS: [&str; 5] = ["target", "node_modules", "dist", "out", "__pycache__"];

#[test]
fn add_command_appends_and_asks_for_store() {
    let mut config = Config::new();
    let cmd = FilterCommands::Add { pattern: "build".to_string() };
    let action = cmd.process(&mut config, false);
    assert!(matches!(action, CliAction::StoreConfig));
    assert_eq!(
        config.filters.list(),
        &strings(&["target", "node_modules", "dist", "out", "__pycache__", "build"])
    );
}

#[test]
fn remove_command_drops_the_pattern_and_asks_for_store() {
    let mut config = Config::new();
    let cmd = FilterCommands::Remove { pattern: "dist".to_string() };
    let action = cmd.process(&mut config, false);
    assert!(matches!(action, CliAction::StoreConfig));
    assert_eq!(config.filters.list(), &strings(&["target", "node_modules", "out", "__pycache__"]));
}

#[test]
fn filter_list_command_only_shows() {
    let mut config = Config::new();
    let action = FilterCommands::List.process(&mut config, true);
    assert!(matches!(action, CliAction::ShowConfig));
    assert_eq!(config.filters.list(), &strings(&DEFAULTS));
}

#[test]
fn confirmed_filter_reset_restores_defaults() {
    let mut config = Config { filters: Filters::new(strings(&["only", "mine"])) };
    let action = FilterCommands::Reset.process(&mut config, true);
    assert!(matches!(action, CliAction::StoreConfig));
    assert_eq!(config.filters.list(), &strings(&DEFAULTS));
}

#[test]
fn declined_filter_reset_changes_nothing() {
    let mut config = Config { filters: Filters::new(strings(&["only", "mine"])) };
    let action = FilterCommands::Reset.process(&mut config, false);
    assert!(matches!(action, CliAction::DoNothing));
    assert_eq!(config.filters.list(), &strings(&["only", "mine"]));
}

#[test]
fn confirmed_config_reset_restores_defaults() {
    let mut config = Config { filters: Filters::new(strings(&["stale"])) };
    let action = ConfigCommands::Reset.process(&mut config, true);
    assert!(matches!(action, CliAction::StoreConfig));
    assert_eq!(config.filters.list(), &strings(&DEFAULTS));
}

#[test]
fn filters_without_subcommand_asks_for_usage() {
    let mut config = Config::new();
    let action = ConfigCommands::Filters { command: None }.process(&mut config, false);
    assert!(matches!(action, CliAction::ShowFilterUsage));
}

#[test]
fn config_without_subcommand_lists() {
    let mut config = Config::new();
    let action = Commands::Config { command: None }.process(&mut config, false);
    assert!(matches!(action, CliAction::ShowConfig));
}

#[test]
fn nested_filter_command_reaches_the_filters() {
    let mut config = Config::new();
    let cmd = Commands::Config {
        command: Some(ConfigCommands::Filters {
            command: Some(FilterCommands::Add { pattern: "venv".to_string() }),
        }),
    };
    let action = cmd.process(&mut config, false);
    assert!(matches!(action, CliAction::StoreConfig));
    assert_eq!(
        config.filters.list(),
        &strings(&["target", "node_modules", "dist", "out", "__pycache__", "venv"])
    );
}
