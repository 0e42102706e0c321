//! Vocabulary: the closed sets and structured scalars a declaration is built
//! from. No naked primitive ever stands for a domain-meaningful value.
use vstd::prelude::*;
use crate::version::{Version, spec_this_version, this_version, version_text};

verus! {

/// The coarse wire *kind* a variable exposes in the contract.
#[derive(Clone, Copy, PartialEq, Eq, Structural, Debug)]
pub enum Type {
    /// Opaque text with no further structure.
    String,
    /// A two-state toggle (`1/0`, `true/false`, `on/off`).
    Bool,
    /// Exactly one token from `allowed`.
    Enum,
    /// A separated list of tokens from `allowed`.
    List,
    /// A non-negative integer.
    Uint,
    /// A signed integer.
    Int,
    /// A floating-point number.
    Float,
    /// A filesystem path.
    Path,
}

/// The wire spelling of a type.
pub open spec fn wire_type_name(t: Type) -> Seq<char> {
    match t {
        Type::String => "string"@,
        Type::Bool => "bool"@,
        Type::Enum => "enum"@,
        Type::List => "list"@,
        Type::Uint => "uint"@,
        Type::Int => "int"@,
        Type::Float => "float"@,
        Type::Path => "path"@,
    }
}

impl Type {
    /// The wire spelling used in the JSON contract.
    pub fn as_str(self) -> (s: &'static str)
        ensures
            s@ == wire_type_name(self),
    {
        match self {
            Type::String => "string",
            Type::Bool => "bool",
            Type::Enum => "enum",
            Type::List => "list",
            Type::Uint => "uint",
            Type::Int => "int",
            Type::Float => "float",
            Type::Path => "path",
        }
    }

    /// Every wire spelling, in declaration order: the schema's `enum` list.
    pub const ALL: [&'static str; 8] = ["string", "bool", "enum", "list", "uint", "int", "float", "path"];
}

/// How much a consumer may rely on a variable.
#[derive(Clone, Copy, PartialEq, Eq, Structural, Debug)]
pub enum Stability {
    /// Not yet classified. The honest default for a freshly harvested name.
    Unknown,
    /// Safe to depend on; changes follow the project's compatibility policy.
    Stable,
    /// May change or vanish without notice.
    Experimental,
    /// Diagnostic knob. Present in shipped builds, but not a supported interface.
    Debug,
    /// Scheduled for removal; see [`Deprecation`] for the migration path.
    Deprecated,
}

/// The wire spelling of a stability.
pub open spec fn stability_name(s: Stability) -> Seq<char> {
    match s {
        Stability::Unknown => "unknown"@,
        Stability::Stable => "stable"@,
        Stability::Experimental => "experimental"@,
        Stability::Debug => "debug"@,
        Stability::Deprecated => "deprecated"@,
    }
}

impl Stability {
    /// The wire spelling used in the JSON contract.
    pub fn as_str(self) -> (s: &'static str)
        ensures
            s@ == stability_name(self),
    {
        match self {
            Stability::Unknown => "unknown",
            Stability::Stable => "stable",
            Stability::Experimental => "experimental",
            Stability::Debug => "debug",
            Stability::Deprecated => "deprecated",
        }
    }

    /// Every wire spelling: the schema's `enum` list.
    pub const ALL: [&'static str; 5] = ["unknown", "stable", "experimental", "debug", "deprecated"];
}

/// When a variable was introduced, never a bare string.
#[derive(Clone, Copy, PartialEq, Eq, Structural, Debug)]
pub enum Since {
    /// Not yet classified.
    Unknown,
    /// Introduced in the version currently being built.
    This,
    /// Introduced in an explicit, parsed, comparable version.
    At(Version),
}

/// The concrete version a `Since` stands for, if known.
pub open spec fn spec_resolve(s: Since) -> Option<Version> {
    match s {
        Since::Unknown => None,
        Since::This => Some(spec_this_version()),
        Since::At(v) => Some(v),
    }
}

impl Since {
    /// Resolve to a concrete version, if known.
    pub fn resolve(self) -> (v: Option<Version>)
        ensures
            v == spec_resolve(self),
    {
        match self {
            Since::Unknown => None,
            Since::This => Some(this_version()),
            Since::At(v) => Some(v),
        }
    }

    /// The resolved version's spelling, if known.
    pub fn to_json(self) -> (t: Option<String>)
        ensures
            t matches Some(s) ==> spec_resolve(self) matches Some(v) && s@ == version_text(v),
            t is None ==> spec_resolve(self) is None,
    {
        match self.resolve() {
            Some(v) => Some(v.to_string()),
            None => None,
        }
    }
}

/// A reference to a key in another configuration surface that this variable
/// bridges to (for example a `.conf` key the variable overrides).
///
/// Format-validated: must be namespaced (`section.key`).
#[derive(Clone, Copy, PartialEq, Eq, Debug)]
pub struct ConfigKeyRef(pub &'static str);

impl ConfigKeyRef {
    /// Validate and wrap a namespaced config key: it must contain a `.`.
    pub fn new(s: &'static str) -> (k: ConfigKeyRef)
        requires
            s@.contains('.'),
        ensures
            k.0 == s,
    {
        ConfigKeyRef(s)
    }

    /// The key as written.
    pub fn to_string(&self) -> (t: String)
        ensures
            t@ == self.0@,
    {
        crate::text::owned(self.0)
    }
}

/// Why a variable is going away and what to do instead.
///
/// Bundled into one struct so an entry cannot be half-deprecated.
#[derive(Clone, Copy, Debug)]
pub struct Deprecation {
    /// The version in which the variable became deprecated.
    pub since: Version,
    /// The key of the successor, when there is a clean 1:1 replacement.
    pub replaced_by: Option<&'static str>,
    /// Human guidance when there is no clean successor. Advisory prose.
    pub migration: &'static str,
}

/// The portable form of deprecation details, as a contract document carries
/// them: `{ since, replaced_by, migration }`.
#[derive(Clone, Debug, PartialEq)]
pub struct DeprecationInfo {
    /// The deprecating version's spelling.
    pub since: Option<String>,
    /// The successor's key, if any.
    pub replaced_by: Option<String>,
    /// Migration guidance, if any.
    pub migration: Option<String>,
}

impl Deprecation {
    /// The portable form: `since` spelled out, `replaced_by` as given, and an
    /// empty `migration` left out.
    pub fn to_json(self) -> (j: DeprecationInfo)
        ensures
            j.since matches Some(s) && s@ == version_text(self.since),
            match j.replaced_by {
                Some(r) => self.replaced_by matches Some(k) && r@ == k@,
                None => self.replaced_by is None,
            },
            match j.migration {
                Some(m) => m@ == self.migration@ && self.migration@.len() > 0,
                None => self.migration@.len() == 0,
            },
    {
        DeprecationInfo {
            since: Some(self.since.to_string()),
            replaced_by: match self.replaced_by {
                Some(k) => Some(crate::text::owned(k)),
                None => None,
            },
            migration: if self.migration.unicode_len() == 0 {
                None
            } else {
                Some(crate::text::owned(self.migration))
            },
        }
    }
}

} // verus!
