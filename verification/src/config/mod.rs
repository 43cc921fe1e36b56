//! The effective configuration of a run.

use vstd::prelude::*;

pub mod config_document;
pub mod config_laws;

verus! {

/// The files a run looks at.
#[derive(Debug)]
pub struct Scan {
    pub include_paths: Vec<String>,
    pub exclude: Vec<String>,
    pub respect_gitignore: bool,
}

#[derive(Clone, Copy, Debug, PartialEq, Eq, Structural)]
pub enum Format {
    Text,
    Json,
}

impl Default for Format {
    fn default() -> (r: Self)
        ensures
            r == Format::Text,
    {
        Format::Text
    }
}

#[derive(Clone, Copy, Debug, PartialEq, Eq, Structural)]
pub enum Color {
    Auto,
    Always,
    Never,
}

impl Default for Color {
    fn default() -> (r: Self)
        ensures
            r == Color::Auto,
    {
        Color::Auto
    }
}

/// How a run prints.
#[derive(Debug)]
pub struct Output {
    pub format: Format,
    pub color: Color,
    pub success: String,
}

/// What an entry that has outlived its file does to a run.
#[derive(Clone, Copy, Debug, PartialEq, Eq, Structural)]
pub enum Stale {
    Ignore,
    Warn,
    Error,
}

/// The exception registries.
#[derive(Debug)]
pub struct Exceptions {
    pub soft_registry: String,
    pub hard_registry: String,
    pub stale: Stale,
}

/// The configured token counter.
#[derive(Debug)]
pub struct Tokens {
    pub enabled: bool,
    pub command: Vec<String>,
}

/// Guidance that rules refer to by its name.
#[derive(Debug)]
pub struct Message {
    pub id: String,
    pub text: String,
}

#[derive(Clone, Copy, Debug, PartialEq, Eq, Structural)]
pub enum UnitSpec {
    Bytes,
    Lines,
    Tokens,
}

/// A rule as configured.
#[derive(Debug)]
pub struct RuleSpec {
    pub id: String,
    pub include_paths: Vec<String>,
    pub exclude: Vec<String>,
    pub unit: UnitSpec,
    pub soft: Option<u64>,
    pub hard: Option<u64>,
    pub priority: i32,
    pub message: Option<String>,
    pub soft_message: Option<String>,
    pub hard_message: Option<String>,
    pub count_blank_lines: bool,
    pub count_comment_lines: bool,
}

/// The configuration of a run.
#[derive(Debug)]
pub struct Config {
    pub fissile_config_version: u32,
    pub scan: Scan,
    pub output: Output,
    pub exceptions: Exceptions,
    pub tokens: Tokens,
    pub messages: Vec<Message>,
    pub rules: Vec<RuleSpec>,
}

/// Why a configuration cannot be used.
#[derive(Debug)]
pub enum ConfigError {
    Io { path: String, reason: String },
    Parse { reason: String },
    UnsupportedVersion { found: u32 },
    EmptyInclude { rule: String },
    UnknownMessage { rule: String, message: String },
    MissingMessage { rule: String },
    Engine(String),
    InFile { path: String, error: Box<ConfigError> },
}

/// What a clean run prints unless the document says otherwise.
pub fn default_success() -> (r: String)
    ensures
        r@ == "ok"@,
{
    "ok".to_owned()
}

/// Comment lines count unless the document says otherwise.
pub fn default_true() -> (r: bool)
    ensures
        r,
{
    true
}

} // verus!
