use vstd::prelude::*;
use crate::error::ConfigError;
use crate::profiles::{
    Failure,
    Profile,
    ProfileDef,
    copy_text,
    opt_json,
    opt_profile,
    opt_text,
    profiles_view,
    resolve_many,
    resolve_profile,
    names_view,
};
use crate::properties::{PropertiesResolver, flatten};
use crate::template::{ValueResolver, resolve};
use crate::merge::copy_entries;
use crate::value::{Json, JsonValue, entries_view};

verus! {

/// Base-URL overrides may come from the environment and from the command
/// line. When both are present, the environment's wins if this is `true`
/// and the command line's wins if it is `false`.
pub const ENVIRONMENT_URL_FIRST: bool = true;

/// Whether `text` is a well-formed absolute URL, as the URL parser decides.
pub uninterp spec fn parses_as_url(text: Seq<char>) -> bool;

/// Relies on `reqwest::Url::parse` (the `url` crate's WHATWG parser): it
/// succeeds exactly on well-formed absolute URLs, and its answer depends on
/// the text alone.
#[verifier::external_body]
fn is_valid_url(text: &str) -> (r: bool)
    ensures
        r == parses_as_url(text@),
{
    reqwest::Url::parse(text).is_ok()
}

/// Overrides supplied by the invoking command line.
#[derive(Debug, Default, Clone)]
pub struct CliOverrides {
    pub jira_url: Option<String>,
    pub project_key: Option<String>,
}

/// The parsed configuration document.
#[derive(Debug)]
pub struct ConfigFile {
    pub jira_url: Option<String>,
    pub project_key: Option<String>,
    /// The property tree, as its top-level entries.
    pub properties: Vec<(String, JsonValue)>,
    /// The profile table; names are unique.
    pub profiles: Vec<(String, ProfileDef)>,
}

/// The mathematical model of a configuration document.
pub struct Document {
    pub jira_url: Option<Seq<char>>,
    pub project_key: Option<Seq<char>>,
    pub properties: Seq<(Seq<char>, Json)>,
    pub profiles: Seq<(Seq<char>, Profile)>,
}

impl View for ConfigFile {
    type V = Document;

    open spec fn view(&self) -> Document {
        Document {
            jira_url: opt_text(self.jira_url),
            project_key: opt_text(self.project_key),
            properties: entries_view(self.properties@),
            profiles: profiles_view(self.profiles@),
        }
    }
}

/// The final settings of one invocation.
#[derive(Debug, Clone)]
pub struct ResolvedConfig {
    pub jira_url: String,
    pub project_key: String,
    pub fields: Option<JsonValue>,
}

/// The mathematical model of the final settings.
pub struct Settings {
    pub jira_url: Seq<char>,
    pub project_key: Seq<char>,
    pub fields: Option<Json>,
}

impl View for ResolvedConfig {
    type V = Settings;

    open spec fn view(&self) -> Settings {
        Settings {
            jira_url: self.jira_url@,
            project_key: self.project_key@,
            fields: opt_json(self.fields),
        }
    }
}

pub open spec fn first_some(a: Option<Seq<char>>, b: Option<Seq<char>>) -> Option<Seq<char>> {
    if a is Some {
        a
    } else {
        b
    }
}

pub open spec fn profile_url(p: Option<Profile>) -> Option<Seq<char>> {
    match p {
        Some(p) => p.jira_url,
        None => None,
    }
}

pub open spec fn profile_key(p: Option<Profile>) -> Option<Seq<char>> {
    match p {
        Some(p) => p.project_key,
        None => None,
    }
}

/// The base URL by precedence: the overrides (ordered by
/// [`ENVIRONMENT_URL_FIRST`]), then the profile, then the document.
pub open spec fn chosen_url(
    doc: Document,
    profile: Option<Profile>,
    env_url: Option<Seq<char>>,
    cli_url: Option<Seq<char>>,
) -> Option<Seq<char>> {
    let overrides = if ENVIRONMENT_URL_FIRST {
        first_some(env_url, cli_url)
    } else {
        first_some(cli_url, env_url)
    };
    first_some(overrides, first_some(profile_url(profile), doc.jira_url))
}

/// The settings once the base URL is fixed: the project key by precedence
/// (override, profile, document) and the profile's fields with their
/// templates expanded against the document's properties.
pub open spec fn complete_settings(
    doc: Document,
    profile: Option<Profile>,
    key_override: Option<Seq<char>>,
    url: Seq<char>,
) -> Result<Settings, Failure> {
    match first_some(key_override, first_some(profile_key(profile), doc.project_key)) {
        None => Err(Failure::MissingField("project_key"@)),
        Some(key) => match profile {
            Some(Profile { fields: Some(f), .. }) => match resolve(f, flatten(doc.properties)) {
                Ok(v) => Ok(Settings { jira_url: url, project_key: key, fields: Some(v) }),
                Err(m) => Err(Failure::VariableNotFound(m)),
            },
            _ => Ok(Settings { jira_url: url, project_key: key, fields: None }),
        },
    }
}

/// The whole resolution of one invocation.
pub open spec fn build_settings(
    doc: Document,
    env_url: Option<Seq<char>>,
    cli_url: Option<Seq<char>>,
    cli_key: Option<Seq<char>>,
    names: Seq<Seq<char>>,
) -> Result<Settings, Failure> {
    match resolve_many(doc.profiles, names) {
        Err(f) => Err(f),
        Ok(profile) => match chosen_url(doc, profile, env_url, cli_url) {
            None => Err(Failure::MissingField("jira_url"@)),
            Some(url) => if parses_as_url(url) {
                complete_settings(doc, profile, cli_key, url)
            } else {
                Err(Failure::InvalidUrl(url))
            },
        },
    }
}

pub open spec fn outcome(r: Result<ResolvedConfig, ConfigError>) -> Result<Settings, Failure> {
    match r {
        Ok(c) => Ok(c@),
        Err(e) => Err(e@),
    }
}


/// The first of two optional texts that is present, copied.
fn pick(a: &Option<String>, b: &Option<String>) -> (r: Option<String>)
    ensures
        opt_text(r) == first_some(opt_text(*a), opt_text(*b)),
{
    match a {
        Some(s) => Some(s.clone()),
        None => copy_text(b),
    }
}

impl ResolvedConfig {
    /// Finishes a resolution whose base URL is chosen: fails with the URL
    /// when `url_is_valid` is false, and otherwise picks the project key and
    /// expands the profile's fields (see [`complete_settings`]).
    pub fn complete(
        file: &ConfigFile,
        profile: &Option<ProfileDef>,
        project_key_override: &Option<String>,
        jira_url: String,
        url_is_valid: bool,
    ) -> (r: Result<ResolvedConfig, ConfigError>)
        ensures
            outcome(r) == if url_is_valid {
                complete_settings(file@, opt_profile(*profile), opt_text(*project_key_override), jira_url@)
            } else {
                Err(Failure::InvalidUrl(jira_url@))
            },
    {
        if !url_is_valid {
            return Err(ConfigError::InvalidUrl(jira_url));
        }
        let profile_key = match profile {
            Some(p) => copy_text(&p.project_key),
            None => None,
        };
        let document_key = pick(&profile_key, &file.project_key);
        let project_key = match pick(project_key_override, &document_key) {
            Some(k) => k,
            None => {
                return Err(ConfigError::MissingField(String::from_str("project_key")));
            },
        };
        let fields = match profile {
            Some(p) => match &p.fields {
                Some(f) => {
                    let index = PropertiesResolver::new(copy_entries(&file.properties));
                    let resolver = ValueResolver::new(&index);
                    match resolver.resolve(f) {
                        Ok(v) => Some(v),
                        Err(e) => {
                            return Err(e);
                        },
                    }
                },
                None => None,
            },
            None => None,
        };
        Ok(ResolvedConfig { jira_url, project_key, fields })
    }

    /// Resolves the settings of one invocation, with a base URL that the
    /// environment may override too (see [`build_settings`]).
    pub fn build_with_env(
        file: &ConfigFile,
        env_jira_url: Option<String>,
        cli: CliOverrides,
        profile_names: &[String],
    ) -> (r: Result<ResolvedConfig, ConfigError>)
        ensures
            outcome(r) == build_settings(
                file@,
                opt_text(env_jira_url),
                opt_text(cli.jira_url),
                opt_text(cli.project_key),
                names_view(profile_names@),
            ),
    {
        let profile = match resolve_profile(&file.profiles, profile_names) {
            Ok(p) => p,
            Err(e) => {
                return Err(e);
            },
        };
        let overrides = if ENVIRONMENT_URL_FIRST {
            pick(&env_jira_url, &cli.jira_url)
        } else {
            pick(&cli.jira_url, &env_jira_url)
        };
        let profile_url = match &profile {
            Some(p) => copy_text(&p.jira_url),
            None => None,
        };
        let fallback = pick(&profile_url, &file.jira_url);
        let jira_url = match pick(&overrides, &fallback) {
            Some(u) => u,
            None => {
                return Err(ConfigError::MissingField(String::from_str("jira_url")));
            },
        };
        let url_is_valid = is_valid_url(jira_url.as_str());
        Self::complete(file, &profile, &cli.project_key, jira_url, url_is_valid)
    }

    /// Resolves the settings of one invocation (see [`build_settings`], with
    /// no override from the environment).
    pub fn build(file: &ConfigFile, cli: CliOverrides, profile_names: &[String]) -> (r: Result<
        ResolvedConfig,
        ConfigError,
    >)
        ensures
            outcome(r) == build_settings(
                file@,
                None,
                opt_text(cli.jira_url),
                opt_text(cli.project_key),
                names_view(profile_names@),
            ),
    {
        Self::build_with_env(file, None, cli, profile_names)
    }
}

impl ConfigFile {
    /// The settings for the requested profiles and overrides.
    pub fn resolve(&self, profile_names: &[String], cli_overrides: CliOverrides) -> (r: Result<
        ResolvedConfig,
        ConfigError,
    >)
        ensures
            outcome(r) == build_settings(
                self@,
                None,
                opt_text(cli_overrides.jira_url),
                opt_text(cli_overrides.project_key),
                names_view(profile_names@),
            ),
    {
        ResolvedConfig::build(self, cli_overrides, profile_names)
    }
}

} // verus!
