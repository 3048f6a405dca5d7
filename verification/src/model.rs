//! Core data model: node kinds, change kinds, commit status, validation
//! rules and node metadata, and the error type of the configuration core.

use vstd::prelude::*;

verus! {

/// Kind of a configuration node.
#[derive(Clone, Copy, Debug, PartialEq, Eq, Structural)]
pub enum ConfigNodeType {
    /// Leaf node carrying a value.
    Leaf,
    /// Interior node with children.
    Container,
    /// Tag node that can have multiple instances.
    Tag,
    /// List node.
    List,
}

/// Kind of a recorded configuration change.
#[derive(Clone, Copy, Debug, PartialEq, Eq, Structural)]
pub enum ConfigChangeType {
    Retrieve,
    Configure,
    Generate,
    Rollback,
    Import,
}

/// Status of a commit recorded in the history ledger.
#[derive(Clone, Copy, Debug, PartialEq, Eq, Structural)]
pub enum ConfigCommitStatus {
    Pending,
    Success,
    Failed,
    Partial,
}

/// Classification of one path in a diff.
#[derive(Clone, Copy, Debug, PartialEq, Eq, Structural)]
pub enum DiffChangeType {
    Added,
    Deleted,
    Modified,
}

/// What part of a node a search matches against.
#[derive(Clone, Copy, Debug, PartialEq, Eq, Structural)]
pub enum SearchType {
    Path,
    Value,
    Both,
}

/// Direction in which history entries are listed.
#[derive(Clone, Copy, Debug, PartialEq, Eq, Structural)]
pub enum SortOrder {
    Asc,
    Desc,
}

impl Default for SortOrder {
    /// History listings default to most-recent-first.
    fn default() -> (r: Self)
        ensures
            r == SortOrder::Desc,
    {
        SortOrder::Desc
    }
}

/// Validation rule attached to a configuration value.
#[derive(Debug)]
pub enum ValidationRule {
    /// Length bounds, and an optional fragment the value must contain.
    String { min_length: Option<usize>, max_length: Option<usize>, pattern: Option<String> },
    /// Decimal integer within the given bounds.
    Integer { min: Option<i64>, max: Option<i64> },
    /// Dotted-quad IPv4 address.
    IpAddress,
    /// IPv4 address followed by `/` and a prefix length of at most 32.
    Cidr,
    /// Six colon-separated pairs of hexadecimal digits.
    MacAddress,
    /// Decimal port number, at most 65535.
    Port,
    /// Exactly `true` or `false`.
    Boolean,
    /// One of a fixed set of values.
    Enum { values: Vec<String> },
}

/// Metadata carried by a configuration node.
#[derive(Debug)]
pub struct ConfigMetadata {
    pub is_readonly: bool,
    pub is_required: bool,
    pub default_value: Option<String>,
    pub validation: Option<ValidationRule>,
    pub help_text: Option<String>,
}

/// View of an optional string as an optional character sequence.
pub open spec fn opt_view(o: Option<String>) -> Option<Seq<char>> {
    match o {
        Some(s) => Some(s@),
        None => None,
    }
}

/// View of a list of strings as a sequence of character sequences.
pub open spec fn strs_view(v: Seq<String>) -> Seq<Seq<char>> {
    v.map_values(|s: String| s@)
}

/// Two validation rules are alike when they agree up to string views.
pub open spec fn rule_like(a: ValidationRule, b: ValidationRule) -> bool {
    match (a, b) {
        (
            ValidationRule::String { min_length: amin, max_length: amax, pattern: apat },
            ValidationRule::String { min_length: bmin, max_length: bmax, pattern: bpat },
        ) => amin == bmin && amax == bmax && opt_view(apat) == opt_view(bpat),
        (
            ValidationRule::Integer { min: amin, max: amax },
            ValidationRule::Integer { min: bmin, max: bmax },
        ) => amin == bmin && amax == bmax,
        (ValidationRule::IpAddress, ValidationRule::IpAddress) => true,
        (ValidationRule::Cidr, ValidationRule::Cidr) => true,
        (ValidationRule::MacAddress, ValidationRule::MacAddress) => true,
        (ValidationRule::Port, ValidationRule::Port) => true,
        (ValidationRule::Boolean, ValidationRule::Boolean) => true,
        (ValidationRule::Enum { values: av }, ValidationRule::Enum { values: bv }) => strs_view(
            av@,
        ) == strs_view(bv@),
        _ => false,
    }
}

/// Two optional validation rules are alike when both are absent or alike.
pub open spec fn opt_rule_like(a: Option<ValidationRule>, b: Option<ValidationRule>) -> bool {
    match (a, b) {
        (Some(ra), Some(rb)) => rule_like(ra, rb),
        (None, None) => true,
        _ => false,
    }
}

/// Two metadata records are alike when they agree up to string views.
pub open spec fn meta_like(a: ConfigMetadata, b: ConfigMetadata) -> bool {
    &&& a.is_readonly == b.is_readonly
    &&& a.is_required == b.is_required
    &&& opt_view(a.default_value) == opt_view(b.default_value)
    &&& opt_rule_like(a.validation, b.validation)
    &&& opt_view(a.help_text) == opt_view(b.help_text)
}

impl Clone for ValidationRule {
    fn clone(&self) -> (r: Self)
        ensures
            rule_like(*self, r),
    {
        match self {
            ValidationRule::String { min_length, max_length, pattern } => ValidationRule::String {
                min_length: *min_length,
                max_length: *max_length,
                pattern: clone_opt_string(pattern),
            },
            ValidationRule::Integer { min, max } => ValidationRule::Integer {
                min: *min,
                max: *max,
            },
            ValidationRule::IpAddress => ValidationRule::IpAddress,
            ValidationRule::Cidr => ValidationRule::Cidr,
            ValidationRule::MacAddress => ValidationRule::MacAddress,
            ValidationRule::Port => ValidationRule::Port,
            ValidationRule::Boolean => ValidationRule::Boolean,
            ValidationRule::Enum { values } => ValidationRule::Enum {
                values: clone_strings(values),
            },
        }
    }
}

impl Clone for ConfigMetadata {
    fn clone(&self) -> (r: Self)
        ensures
            meta_like(*self, r),
    {
        ConfigMetadata {
            is_readonly: self.is_readonly,
            is_required: self.is_required,
            default_value: clone_opt_string(&self.default_value),
            validation: match &self.validation {
                Some(rule) => Some(rule.clone()),
                None => None,
            },
            help_text: clone_opt_string(&self.help_text),
        }
    }
}

/// Clone an optional string, keeping its view.
pub fn clone_opt_string(o: &Option<String>) -> (r: Option<String>)
    ensures
        opt_view(r) == opt_view(*o),
{
    match o {
        Some(s) => Some(s.clone()),
        None => None,
    }
}

/// Clone a list of strings, keeping their views.
pub fn clone_strings(v: &Vec<String>) -> (r: Vec<String>)
    ensures
        strs_view(r@) == strs_view(v@),
{
    let mut out: Vec<String> = Vec::new();
    let mut i: usize = 0;
    while i < v.len()
        invariant
            i <= v@.len(),
            out@.len() == i,
            forall|j: int| 0 <= j < i ==> out@[j]@ == v@[j]@,
        decreases v@.len() - i,
    {
        out.push(v[i].clone());
        i = i + 1;
    }
    proof {
        assert(strs_view(out@) =~= strs_view(v@));
    }
    out
}

/// Metadata with every flag clear and nothing attached.
pub open spec fn default_meta(m: ConfigMetadata) -> bool {
    &&& !m.is_readonly
    &&& !m.is_required
    &&& m.default_value is None
    &&& m.validation is None
    &&& m.help_text is None
}

/// Build the default metadata.
pub fn empty_metadata() -> (m: ConfigMetadata)
    ensures
        default_meta(m),
{
    ConfigMetadata {
        is_readonly: false,
        is_required: false,
        default_value: None,
        validation: None,
        help_text: None,
    }
}

/// Error raised by the configuration core.
#[derive(Debug)]
pub enum ConfigError {
    /// A value or path failed validation, naming the offending path and,
    /// where a node's own rule rejected the value, that rule.
    Validation { path: String, message: String, rule: Option<ValidationRule> },
    /// No node exists at the given path.
    NotFound { path: String },
    /// No history entry exists with the given id.
    HistoryNotFound { id: u64 },
    /// A concurrent mutation of the same working tree was detected.
    Conflict,
    /// The device client failed to apply or persist the configuration.
    ExternalApply { message: String },
    /// An internal limit stopped the single operation in progress.
    Internal { message: String },
}

} // verus!
