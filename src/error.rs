use vstd::prelude::*;

verus! {

/// The ways in which resolving a configuration can fail.
#[derive(Debug, PartialEq, Eq)]
pub enum ConfigError {
    /// The chosen base URL is not a well-formed absolute URL.
    InvalidUrl(String),
    /// No source supplies a required setting; carries the setting's name.
    MissingField(String),
    /// A requested or inherited profile has no definition.
    ProfileNotFound(String),
    /// A template names a property that is absent, or that cannot be
    /// interpolated into text.
    VariableNotFound(String),
    /// The configuration breaks one of its structural rules.
    InvalidConfig(String),
    /// Profile inheritance loops; carries the loop, names joined by ` -> `.
    CircularDependency(String),
}

/// The error of template expansion.
#[derive(Debug, PartialEq, Eq)]
pub enum ResolverError {
    VariableNotFound(String),
}

impl From<ResolverError> for ConfigError {
    fn from(err: ResolverError) -> (r: ConfigError)
        ensures
            r == ConfigError::VariableNotFound(err->VariableNotFound_0),
    {
        match err {
            ResolverError::VariableNotFound(var) => ConfigError::VariableNotFound(var),
        }
    }
}

impl vstd::std_specs::convert::FromSpecImpl<ResolverError> for ConfigError {
    open spec fn obeys_from_spec() -> bool {
        true
    }

    open spec fn from_spec(err: ResolverError) -> ConfigError {
        ConfigError::VariableNotFound(err->VariableNotFound_0)
    }
}

} // verus!
