//! The shape of a configuration document, which holds each rule's edit limit
//! beside what the effective configuration keeps.

use vstd::prelude::*;

use super::{
    default_success, Color, Config, ConfigError, Exceptions, Format, Message, Output, RuleSpec,
    Scan, Tokens, UnitSpec,
};

verus! {

/// `toml::Spanned`: a value with the place in the document where it stands.
/// Nothing is claimed of it; it is carried.
#[verifier::external_type_specification]
#[verifier::external_body]
#[verifier::reject_recursive_types(T)]
pub struct ExSpanned<T>(toml::Spanned<T>);

/// `toml::Value`: any TOML value. Nothing is claimed of it; it is carried.
#[verifier::external_type_specification]
#[verifier::external_body]
pub struct ExValue(toml::Value);

/// A rule's edit limit as the document writes it, with its place.
pub type SpannedLimit = Option<toml::Spanned<toml::Value>>;

/// The output table of a document.
#[derive(Debug)]
pub struct DocumentOutput {
    pub format: Format,
    pub color: Color,
    pub success: String,
}

impl Default for DocumentOutput {
    fn default() -> (r: Self)
        ensures
            r.format == Format::Text,
            r.color == Color::Auto,
            r.success@ == "ok"@,
    {
        DocumentOutput {
            format: Format::default(),
            color: Color::default(),
            success: default_success(),
        }
    }
}

/// A rule table of a document.
#[derive(Debug)]
pub struct DocumentRule {
    pub id: String,
    pub include_paths: Vec<String>,
    pub exclude: Vec<String>,
    pub unit: UnitSpec,
    pub soft: Option<u64>,
    pub hard: Option<u64>,
    pub priority: i32,
    pub message: Option<String>,
    pub soft_message: Option<String>,
    pub hard_message: Option<String>,
    pub count_blank_lines: bool,
    pub count_comment_lines: bool,
    pub soft_edit_limit: SpannedLimit,
}

/// A configuration document.
#[derive(Debug)]
pub struct Document {
    pub fissile_config_version: u32,
    pub scan: Scan,
    pub output: DocumentOutput,
    pub exceptions: Exceptions,
    pub tokens: Tokens,
    pub messages: Vec<Message>,
    pub rules: Vec<DocumentRule>,
}

/// A document's rule without its edit limit.
pub open spec fn rule_spec(rule: DocumentRule) -> RuleSpec {
    RuleSpec {
        id: rule.id,
        include_paths: rule.include_paths,
        exclude: rule.exclude,
        unit: rule.unit,
        soft: rule.soft,
        hard: rule.hard,
        priority: rule.priority,
        message: rule.message,
        soft_message: rule.soft_message,
        hard_message: rule.hard_message,
        count_blank_lines: rule.count_blank_lines,
        count_comment_lines: rule.count_comment_lines,
    }
}

/// The configuration of a document that was read, and each rule's edit limit
/// in the order of the rules; or the reason why it was not read.
pub fn parse(document: Result<Document, String>) -> (r: Result<
    (Config, Vec<SpannedLimit>),
    ConfigError,
>)
    ensures
        match document {
            Err(reason) => r == Err::<(Config, Vec<SpannedLimit>), ConfigError>(
                ConfigError::Parse { reason },
            ),
            Ok(d) => {
                &&& r matches Ok((config, limits))
                &&& config.fissile_config_version == d.fissile_config_version
                &&& config.scan == d.scan
                &&& config.output.format == d.output.format
                &&& config.output.color == d.output.color
                &&& config.output.success == d.output.success
                &&& config.exceptions == d.exceptions
                &&& config.tokens == d.tokens
                &&& config.messages == d.messages
                &&& config.rules@ == d.rules@.map_values(|rule: DocumentRule| rule_spec(rule))
                &&& limits@ == d.rules@.map_values(|rule: DocumentRule| rule.soft_edit_limit)
            },
        },
{
    let document = match document {
        Err(reason) => {
            return Err(ConfigError::Parse { reason });
        },
        Ok(document) => document,
    };
    let ghost declared = document.rules@;
    let mut rules: Vec<RuleSpec> = Vec::new();
    let mut limits: Vec<SpannedLimit> = Vec::new();
    for rule in it: document.rules
        invariant
            it.seq() == declared,
            rules@ =~= declared.take(it.index() as int).map_values(
                |rule: DocumentRule| rule_spec(rule),
            ),
            limits@ =~= declared.take(it.index() as int).map_values(
                |rule: DocumentRule| rule.soft_edit_limit,
            ),
    {
        assert(rule == declared[it.index() as int]);
        rules.push(
            RuleSpec {
                id: rule.id,
                include_paths: rule.include_paths,
                exclude: rule.exclude,
                unit: rule.unit,
                soft: rule.soft,
                hard: rule.hard,
                priority: rule.priority,
                message: rule.message,
                soft_message: rule.soft_message,
                hard_message: rule.hard_message,
                count_blank_lines: rule.count_blank_lines,
                count_comment_lines: rule.count_comment_lines,
            },
        );
        limits.push(rule.soft_edit_limit);
    }
    assert(declared.take(declared.len() as int) =~= declared);
    Ok(
        (
            Config {
                fissile_config_version: document.fissile_config_version,
                scan: document.scan,
                output: Output {
                    format: document.output.format,
                    color: document.output.color,
                    success: document.output.success,
                },
                exceptions: document.exceptions,
                tokens: document.tokens,
                messages: document.messages,
                rules,
            },
            limits,
        ),
    )
}

} // verus!
