use vstd::prelude::*;
use crate::settings::CliOverrides;

verus! {

/// The command line: global flags and one command.
#[derive(Debug, Clone, PartialEq, Eq)]
pub struct Args {
    pub verbose: bool,
    pub jira_url: Option<String>,
    pub project_key: Option<String>,
    pub command: Commands,
}

#[derive(Debug, Clone, PartialEq, Eq)]
pub enum Commands {
    Create(CreateCommand),
    Info(InfoCommand),
}

/// Creates a ticket with a title, under the given profiles.
#[derive(Debug, Clone, PartialEq, Eq)]
pub struct CreateCommand {
    pub title: String,
    pub profile: Vec<String>,
}

/// Looks up metadata, under the given profiles.
#[derive(Debug, Clone, PartialEq, Eq)]
pub struct InfoCommand {
    pub subcmd: InfoSubCommand,
    pub profile: Vec<String>,
}

#[derive(Debug, Clone, PartialEq, Eq)]
pub enum InfoSubCommand {
    Project { key: Option<String> },
    Epics { project_key: Option<String>, board_id: Option<u64> },
    Ticket { key: String },
    Boards { project: Option<String> },
    Fields { project_key: Option<String>, issue_type: Option<String> },
}

impl Args {
    /// The profiles that the command asks for, in the order given.
    pub fn profile_names(&self) -> (r: &Vec<String>)
        ensures
            r == match self.command {
                Commands::Create(c) => &c.profile,
                Commands::Info(c) => &c.profile,
            },
    {
        match &self.command {
            Commands::Create(c) => &c.profile,
            Commands::Info(c) => &c.profile,
        }
    }

    /// The settings that the command line overrides.
    pub fn overrides(&self) -> (r: CliOverrides)
        ensures
            r.jira_url == self.jira_url,
            r.project_key == self.project_key,
    {
        let jira_url = match &self.jira_url {
            Some(u) => Some(u.clone()),
            None => None,
        };
        let project_key = match &self.project_key {
            Some(k) => Some(k.clone()),
            None => None,
        };
        CliOverrides { jira_url, project_key }
    }
}

} // verus!
