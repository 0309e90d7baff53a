//! The decisions behind the command-line subcommands: each command maps the
//! current configuration to the next one and tells the surrounding layer
//! what is left to do (store, show, or nothing). Prompting, printing and
//! persisting are the surrounding layer's work; it hands the answer to a
//! confirmation prompt in as a plain boolean.

use vstd::prelude::*;
use crate::config::Config;
use crate::filters::default_patterns;
use crate::filters::without;

verus! {

/// What the surrounding layer must do after a command was applied.
pub enum CliAction {
    /// Persist the configuration through the external store.
    StoreConfig,
    /// Display the configuration.
    ShowConfig,
    /// Tell the user that no filter command was given.
    ShowFilterUsage,
    /// Nothing is left to do.
    DoNothing,
}

/// The pattern-list subcommands.
pub enum FilterCommands {
    /// Append a pattern.
    Add { pattern: String },
    /// Drop every occurrence of a pattern.
    Remove { pattern: String },
    /// List the patterns.
    List,
    /// Restore the default patterns; takes effect only when confirmed.
    Reset,
}

/// The configuration subcommands.
pub enum ConfigCommands {
    /// Manage the pattern list.
    Filters { command: Option<FilterCommands> },
    /// List the whole configuration.
    List,
    /// Restore the default configuration; takes effect only when confirmed.
    Reset,
}

/// The top-level subcommands.
pub enum Commands {
    /// Manage the configuration.
    Config { command: Option<ConfigCommands> },
}

/// How one filter command relates the configuration before it to the
/// configuration after it, and which action it leaves to the caller.
pub open spec fn filter_step(
    cmd: FilterCommands,
    before: Config,
    confirmed: bool,
    after: Config,
    action: CliAction,
) -> bool {
    match cmd {
        FilterCommands::Add { pattern } => after.filters@ == before.filters@.push(pattern@)
            && action is StoreConfig,
        FilterCommands::Remove { pattern } => after.filters@ == without(before.filters@, pattern@)
            && action is StoreConfig,
        FilterCommands::List => after == before && action is ShowConfig,
        FilterCommands::Reset => if confirmed {
            after.filters@ == default_patterns() && action is StoreConfig
        } else {
            after == before && action is DoNothing
        },
    }
}

/// How one configuration command relates the configuration before it to
/// the configuration after it.
pub open spec fn config_step(
    cmd: ConfigCommands,
    before: Config,
    confirmed: bool,
    after: Config,
    action: CliAction,
) -> bool {
    match cmd {
        ConfigCommands::Filters { command } => match command {
            Some(fc) => filter_step(fc, before, confirmed, after, action),
            None => after == before && action is ShowFilterUsage,
        },
        ConfigCommands::List => after == before && action is ShowConfig,
        ConfigCommands::Reset => if confirmed {
            after.filters@ == default_patterns() && action is StoreConfig
        } else {
            after == before && action is DoNothing
        },
    }
}

/// How one top-level command relates the configuration before it to the
/// configuration after it. With no subcommand given, the configuration is
/// listed, as if the listing command had been given.
pub open spec fn command_step(
    cmd: Commands,
    before: Config,
    confirmed: bool,
    after: Config,
    action: CliAction,
) -> bool {
    match cmd {
        Commands::Config { command } => match command {
            Some(cc) => config_step(cc, before, confirmed, after, action),
            None => after == before && action is ShowConfig,
        },
    }
}

impl FilterCommands {
    /// Applies one filter command to the configuration. `confirmed` is the
    /// user's answer to the reset confirmation; only `Reset` reads it.
    pub fn process(&self, config: &mut Config, confirmed: bool) -> (action: CliAction)
        ensures
            filter_step(*self, *old(config), confirmed, *final(config), action),
    {
        match self {
            FilterCommands::Add { pattern } => {
                config.filters.add(pattern.clone());
                CliAction::StoreConfig
            },
            FilterCommands::Remove { pattern } => {
                config.filters.remove(pattern);
                CliAction::StoreConfig
            },
            FilterCommands::List => CliAction::ShowConfig,
            FilterCommands::Reset => {
                if confirmed {
                    config.filters.reset();
                    CliAction::StoreConfig
                } else {
                    CliAction::DoNothing
                }
            },
        }
    }
}

impl ConfigCommands {
    /// Applies one configuration command to the configuration. `confirmed`
    /// is the user's answer to the reset confirmation; only `Reset` and a
    /// nested filter reset read it.
    pub fn process(&self, config: &mut Config, confirmed: bool) -> (action: CliAction)
        ensures
            config_step(*self, *old(config), confirmed, *final(config), action),
    {
        match self {
            ConfigCommands::Filters { command } => match command {
                Some(fc) => fc.process(config, confirmed),
                None => CliAction::ShowFilterUsage,
            },
            ConfigCommands::List => CliAction::ShowConfig,
            ConfigCommands::Reset => {
                if confirmed {
                    *config = Config::default();
                    CliAction::StoreConfig
                } else {
                    CliAction::DoNothing
                }
            },
        }
    }
}

impl Commands {
    /// Applies one top-level command to the configuration; with no
    /// subcommand, the configuration is listed.
    pub fn process(&self, config: &mut Config, confirmed: bool) -> (action: CliAction)
        ensures
            command_step(*self, *old(config), confirmed, *final(config), action),
    {
        match self {
            Commands::Config { command } => match command {
                Some(cc) => cc.process(config, confirmed),
                None => CliAction::ShowConfig,
            },
        }
    }
}

} // verus!
