//! Layered configuration resolution for a Jira ticket tool: deep merging of
//! JSON-like trees, profile inheritance, property flattening and template
//! expansion, each proved against its contract.

mod chain;
pub mod cli;
pub mod error;
pub mod jira;
pub mod laws;
pub mod merge;
pub mod profiles;
pub mod properties;
pub mod settings;
pub mod template;
pub mod value;

pub use error::{ConfigError, ResolverError};
pub use profiles::{
    resolve_profile, resolve_profile_names_with_inheritance, ProfileDef, ProfilesResolver,
    DEFAULT_PROFILE,
};
pub use properties::PropertiesResolver;
pub use settings::{CliOverrides, ConfigFile, ResolvedConfig, ENVIRONMENT_URL_FIRST};
pub use template::ValueResolver;
pub use value::JsonValue;
pub use cli::{Args, Commands, CreateCommand, InfoCommand, InfoSubCommand};
pub use jira::{
    Board, Component, Credentials, Epic, FieldType, IssueType, JiraProject, ProjectInfo, TicketInfo,
    Version,
};
