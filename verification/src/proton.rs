//! The standard environment-variable contract for the Proton stack: the
//! environment-only form of the model, with its own authoring types
//! ([`Meta`], [`Var`]) and portable [`Record`].
use vstd::prelude::*;
use crate::text::{owned, trim, trimmed, str_eq, read_int, int_text, decimal};
use crate::version::{core_version, version_text, version_lt};
use crate::vocabulary::DeprecationInfo;
use crate::record::DefaultValue;
use crate::lint::opt_view;
use crate::text::{views, str_views, owned_all};
use crate::vocabulary::stability_name;
use crate::date::{date_text, date_lt, date_of_day};

pub use crate::date::ReviewDate;
pub use crate::vocabulary::{Stability, ConfigKeyRef};

verus! {

/// A project version (`major.minor.patch`), ordered by its components.
#[derive(Clone, Copy, PartialEq, Eq, Structural, PartialOrd, Ord, Debug, Hash)]
pub struct Version {
    /// Major component.
    pub major: u16,
    /// Minor component.
    pub minor: u16,
    /// Patch component.
    pub patch: u16,
}

/// The same version in the richer model's type, for reusing its spellings.
pub open spec fn as_core(v: Version) -> crate::version::Version {
    crate::version::Version { major: v.major, minor: v.minor, patch: v.patch }
}

/// The version a string spells: digits and at most two dots, every
/// component within `u16`; the empty string spells `0.0.0`.
pub open spec fn spec_parse_version(s: Seq<char>) -> Option<Version> {
    match core_version(s) {
        Some(v) => Some(Version { major: v.major, minor: v.minor, patch: v.patch }),
        None => None,
    }
}

/// The version of the build emitting the schema, `2.3.0`: the model's own
/// declarations name versions up to it.
pub open spec fn spec_this_version() -> Version {
    Version { major: 2, minor: 3, patch: 0 }
}

/// The version of the build emitting the schema.
pub fn this_version() -> (v: Version)
    ensures
        v == spec_this_version(),
{
    Version { major: 2, minor: 3, patch: 0 }
}

impl Version {
    /// Parse `major.minor.patch` (missing components are 0).
    ///
    /// The text may hold only digits and at most two dots, with no component
    /// above `u16::MAX`.
    pub fn parse(s: &str) -> (v: Version)
        requires
            spec_parse_version(s@) is Some,
        ensures
            Some(v) == spec_parse_version(s@),
    {
        let (r, c) = crate::version::scan(s);
        proof {
            crate::version::lemma_scan_chars(s@);
            assert forall|j: int| 0 <= j < s@.len() implies !crate::version::is_suffix_mark(#[trigger] s@[j]) by {
                assert(s@[j] == '.' || crate::text::is_digit(s@[j]));
            }
            crate::version::lemma_core_len(s@, s@.len() as int);
            assert(s@.take(s@.len() as int) =~= s@);
        }
        let v = r.unwrap();
        Version { major: v.major, minor: v.minor, patch: v.patch }
    }

    /// The spelling `major.minor.patch`.
    pub fn to_string(&self) -> (t: String)
        ensures
            t@ == version_text(as_core(*self)),
    {
        crate::version::Version { major: self.major, minor: self.minor, patch: self.patch }.to_string()
    }

    /// Whether `self` is an earlier release than `other`.
    pub fn is_before(&self, other: &Version) -> (r: bool)
        ensures
            r == version_lt(as_core(*self), as_core(*other)),
    {
        self.major < other.major || (self.major == other.major && (self.minor < other.minor || (
        self.minor == other.minor && self.patch < other.patch)))
    }
}


/// Coarse wire kind of a variable: the portable label the contract exposes.
/// The rich type on [`Var`] is the real enforcement.
#[derive(Clone, Copy, PartialEq, Eq, Structural, Debug)]
pub enum Type {
    String,
    Bool,
    Enum,
    Flags,
    Uint,
    Int,
    Float,
    Path,
}

/// The wire spelling of a kind.
pub open spec fn kind_name(t: Type) -> Seq<char> {
    match t {
        Type::String => "string"@,
        Type::Bool => "bool"@,
        Type::Enum => "enum"@,
        Type::Flags => "flags"@,
        Type::Uint => "uint"@,
        Type::Int => "int"@,
        Type::Float => "float"@,
        Type::Path => "path"@,
    }
}

impl Type {
    /// The wire spelling used in the contract.
    pub fn as_str(self) -> (s: &'static str)
        ensures
            s@ == kind_name(self),
    {
        match self {
            Type::String => "string",
            Type::Bool => "bool",
            Type::Enum => "enum",
            Type::Flags => "flags",
            Type::Uint => "uint",
            Type::Int => "int",
            Type::Float => "float",
            Type::Path => "path",
        }
    }
}

/// When a variable was introduced.
#[derive(Clone, Copy, PartialEq, Eq, Structural, Debug)]
pub enum Since {
    /// Not yet classified.
    Unknown,
    /// Introduced in the version being built.
    This,
    /// Introduced in an explicit version.
    At(Version),
}

/// The concrete version a `Since` stands for, if known.
pub open spec fn since_version(s: Since) -> Option<Version> {
    match s {
        Since::Unknown => None,
        Since::This => Some(spec_this_version()),
        Since::At(v) => Some(v),
    }
}

impl Since {
    /// The version's spelling, or nothing when it is unknown.
    pub fn to_json(self) -> (t: Option<String>)
        ensures
            match since_version(self) {
                Some(v) => t matches Some(x) && x@ == version_text(as_core(v)),
                None => t is None,
            },
    {
        match self {
            Since::Unknown => None,
            Since::This => Some(this_version().to_string()),
            Since::At(v) => Some(v.to_string()),
        }
    }
}

/// Deprecation details, bundled so an entry cannot be half-deprecated.
#[derive(Clone, Copy, Debug)]
pub struct Deprecation {
    /// The version in which the variable became deprecated.
    pub since: Version,
    /// The successor's name, when there is one.
    pub replaced_by: Option<&'static str>,
    /// Freeform guidance for the no-clean-successor case.
    pub migration: &'static str,
}

impl Deprecation {
    /// The portable form: `since` spelled out, `replaced_by` as given, an empty
    /// `migration` left out.
    pub fn to_json(&self) -> (j: DeprecationInfo)
        ensures
            j.since matches Some(s) && s@ == version_text(as_core(self.since)),
            match j.replaced_by {
                Some(r) => self.replaced_by matches Some(k) && r@ == k@,
                None => self.replaced_by is None,
            },
            match j.migration {
                Some(m) => m@ == self.migration@ && self.migration@.len() > 0,
                None => self.migration@.len() == 0,
            },
    {
        DeprecationInfo {
            since: Some(self.since.to_string()),
            replaced_by: match self.replaced_by {
                Some(k) => Some(owned(k)),
                None => None,
            },
            migration: opt_string(self.migration),
        }
    }
}

/// An empty text as absent, any other as itself.
pub open spec fn spec_opt_string(s: Seq<char>) -> Option<Seq<char>> {
    if s.len() == 0 {
        None
    } else {
        Some(s)
    }
}

/// An empty text as absent, any other as an owned copy.
pub fn opt_string(s: &str) -> (r: Option<String>)
    ensures
        match spec_opt_string(s@) {
            Some(t) => r matches Some(x) && x@ == t,
            None => r is None,
        },
{
    if s.unicode_len() == 0 {
        None
    } else {
        Some(owned(s))
    }
}

/// Log verbosity; its tokens are the single source for parsing and for the
/// contract's `allowed` list. (`Off` is spelled `none` on the wire.)
#[derive(Clone, Copy, PartialEq, Eq, Structural, Debug)]
pub enum LogLevel {
    Trace,
    Debug,
    Info,
    Warn,
    Error,
    Off,
}

/// The level a (trimmed) token names.
pub open spec fn spec_log_level(t: Seq<char>) -> Option<LogLevel> {
    if t == "trace"@ {
        Some(LogLevel::Trace)
    } else if t == "debug"@ {
        Some(LogLevel::Debug)
    } else if t == "info"@ {
        Some(LogLevel::Info)
    } else if t == "warn"@ {
        Some(LogLevel::Warn)
    } else if t == "error"@ {
        Some(LogLevel::Error)
    } else if t == "none"@ {
        Some(LogLevel::Off)
    } else {
        None
    }
}

impl LogLevel {
    /// The accepted tokens, in declaration order.
    pub const TOKENS: [&'static str; 6] = ["trace", "debug", "info", "warn", "error", "none"];

    /// Parse a token, ignoring surrounding whitespace.
    pub fn parse(s: &str) -> (r: Option<LogLevel>)
        ensures
            r == spec_log_level(trimmed(s@)),
    {
        let t = trim(s);
        if str_eq(t, "trace") {
            Some(LogLevel::Trace)
        } else if str_eq(t, "debug") {
            Some(LogLevel::Debug)
        } else if str_eq(t, "info") {
            Some(LogLevel::Info)
        } else if str_eq(t, "warn") {
            Some(LogLevel::Warn)
        } else if str_eq(t, "error") {
            Some(LogLevel::Error)
        } else if str_eq(t, "none") {
            Some(LogLevel::Off)
        } else {
            None
        }
    }
}

/// A frame-rate cap with an explicit sentinel: `0` means uncapped.
#[derive(Clone, Copy, PartialEq, Eq, Structural, Debug)]
pub enum FrameCap {
    Uncapped,
    Fps(u32),
}

/// The cap a text denotes: a `u32` (as Rust reads one) after trimming.
pub open spec fn spec_frame_cap(s: Seq<char>) -> Option<FrameCap> {
    match int_text(trimmed(s), false) {
        Some(n) => if n == 0 {
            Some(FrameCap::Uncapped)
        } else if 0 < n <= u32::MAX {
            Some(FrameCap::Fps(n as u32))
        } else {
            None
        },
        None => None,
    }
}

impl FrameCap {
    /// Parse a cap; `0` is uncapped.
    pub fn parse(s: &str) -> (r: Option<FrameCap>)
        ensures
            r == spec_frame_cap(s@),
    {
        match read_int(trim(s), false) {
            Some((_, m)) => if m == 0 {
                Some(FrameCap::Uncapped)
            } else if m <= 4294967295 {
                Some(FrameCap::Fps(m as u32))
            } else {
                None
            },
            None => None,
        }
    }
}

/// A three-state toggle.
#[derive(Clone, Copy, PartialEq, Eq, Structural, Debug)]
pub enum Tristate {
    Auto,
    On,
    Off,
}

/// The state a (trimmed) token names; the empty token is `Auto`.
pub open spec fn spec_tristate(t: Seq<char>) -> Option<Tristate> {
    if t == "auto"@ || t.len() == 0 {
        Some(Tristate::Auto)
    } else if t == "on"@ || t == "1"@ || t == "true"@ {
        Some(Tristate::On)
    } else if t == "off"@ || t == "0"@ || t == "false"@ {
        Some(Tristate::Off)
    } else {
        None
    }
}

impl Default for Tristate {
    fn default() -> (t: Tristate)
        ensures
            t == Tristate::Auto,
    {
        Tristate::Auto
    }
}

impl Tristate {
    /// The canonical tokens.
    pub const TOKENS: [&'static str; 3] = ["auto", "on", "off"];

    /// Parse a token, ignoring surrounding whitespace.
    pub fn parse(s: &str) -> (r: Option<Tristate>)
        ensures
            r == spec_tristate(trimmed(s@)),
    {
        let t = trim(s);
        if str_eq(t, "auto") || t.unicode_len() == 0 {
            Some(Tristate::Auto)
        } else if str_eq(t, "on") || str_eq(t, "1") || str_eq(t, "true") {
            Some(Tristate::On)
        } else if str_eq(t, "off") || str_eq(t, "0") || str_eq(t, "false") {
            Some(Tristate::Off)
        } else {
            None
        }
    }
}


/// The rich authoring record of one variable. Every domain-meaningful field is
/// one of the typed primitives above.
#[derive(Clone, Copy)]
pub struct Meta {
    /// The exact environment variable name.
    pub name: &'static str,
    /// Coarse wire kind.
    pub ty: Type,
    /// Domain tokens for `Enum`/`Flags`; wire them to the type's `TOKENS`.
    pub allowed: &'static [&'static str],
    pub required: bool,
    pub stability: Stability,
    pub since: Since,
    pub deprecation: Option<Deprecation>,
    pub group: &'static str,
    pub maps_to: Option<ConfigKeyRef>,
    pub example: &'static str,
    /// A resolved-config field this variable flips.
    pub observe: Option<&'static str>,
    /// Hand-written human verification date; absent when nobody vouched for it.
    pub reviewed: Option<ReviewDate>,
    /// Freeform prose.
    pub summary: &'static str,
}

impl Meta {
    /// The empty baseline: author a variable by overriding only what is known,
    /// `Meta { name: "...", ty: ..., ..Meta::empty() }`.
    pub fn empty() -> (m: Meta)
        ensures
            m.name@.len() == 0,
            m.ty == Type::String,
            m.allowed@.len() == 0,
            !m.required,
            m.stability == Stability::Unknown,
            m.since == Since::Unknown,
            m.deprecation is None,
            m.group@.len() == 0,
            m.maps_to is None,
            m.example@.len() == 0,
            m.observe is None,
            m.reviewed is None,
            m.summary@.len() == 0,
    {
        let none: &'static [&'static str] = &[];
        proof {
            reveal_strlit("");
        }
        Meta {
            name: "",
            ty: Type::String,
            allowed: none,
            required: false,
            stability: Stability::Unknown,
            since: Since::Unknown,
            deprecation: None,
            group: "",
            maps_to: None,
            example: "",
            observe: None,
            reviewed: None,
            summary: "",
        }
    }
}

/// A typed handle: the schema row, the typed default and the parser of one
/// variable, fused.
pub struct Var<T: 'static, P> {
    pub meta: Meta,
    /// The typed default, rendered into the contract at emit time.
    pub default: Option<T>,
    /// Parses the raw text into the domain type; `None` for invalid text.
    pub parse: P,
}

/// The value a parse outcome leaves, with `fallback` for an absent one.
pub open spec fn or_fallback<T>(p: Option<T>, fallback: T) -> T {
    match p {
        Some(v) => v,
        None => fallback,
    }
}

impl<T: 'static, P: Fn(&str) -> Option<T>> Var<T, P> {
    /// The typed value of a raw read (`None` when the variable is unset):
    /// absent and invalid are both `None`, never a silent empty value.
    pub fn get(&self, raw: Option<&str>) -> (r: Option<T>)
        requires
            raw matches Some(s) ==> call_requires(self.parse, (s,)),
        ensures
            raw is None ==> r is None,
            raw matches Some(s) ==> call_ensures(self.parse, (s,), r),
    {
        match raw {
            Some(s) => (self.parse)(s),
            None => None,
        }
    }

    /// The typed value of a raw read (`None` when the variable is unset),
    /// with `fallback` when it is absent or invalid.
    pub fn get_or(&self, raw: Option<&str>, fallback: T) -> (r: T)
        requires
            raw matches Some(s) ==> call_requires(self.parse, (s,)),
        ensures
            raw is None ==> r == fallback,
            raw matches Some(s) ==> exists|p: Option<T>|
                #[trigger] call_ensures(self.parse, (s,), p) && r == or_fallback(p, fallback),
    {
        match raw {
            Some(s) => {
                let p = (self.parse)(s);
                let ghost q = p;
                let r = match p {
                    Some(v) => v,
                    None => fallback,
                };
                assert(call_ensures(self.parse, (s,), q) && r == or_fallback(q, fallback));
                r
            },
            None => fallback,
        }
    }
}

/// `r` is a clone of the default `d`, or absent with it.
pub open spec fn defaulted<T: Clone>(d: Option<T>, r: Option<T>) -> bool {
    match d {
        Some(x) => r matches Some(y) && cloned(x, y),
        None => r is None,
    }
}

impl<T: 'static + Clone, P: Fn(&str) -> Option<T>> Var<T, P> {
    /// The typed value of a raw read, or a clone of the declared default when
    /// it is absent or invalid.
    pub fn get_or_default(&self, raw: Option<&str>) -> (r: Option<T>)
        requires
            raw matches Some(s) ==> call_requires(self.parse, (s,)),
        ensures
            raw is None ==> defaulted(self.default, r),
            raw matches Some(s) ==> exists|p: Option<T>| #[trigger]
                call_ensures(self.parse, (s,), p) && match p {
                    Some(v) => r == Some(v),
                    None => defaulted(self.default, r),
                },
    {
        let parsed = match raw {
            Some(s) => (self.parse)(s),
            None => None,
        };
        match parsed {
            Some(v) => Some(v),
            None => match &self.default {
                Some(d) => Some(d.clone()),
                None => None,
            },
        }
    }
}


/// The portable contract form of one variable: what the JSON schema describes
/// and what every language binding produces.
#[derive(Clone, Debug, PartialEq)]
pub struct Record {
    pub name: String,
    /// The wire kind (`type` on the wire).
    pub ty: String,
    /// The typed default in its JSON form.
    pub default: Option<DefaultValue>,
    pub allowed: Vec<String>,
    pub required: bool,
    pub stability: String,
    pub since: Option<String>,
    pub deprecation: Option<DeprecationInfo>,
    pub group: Option<String>,
    pub maps_to: Option<String>,
    pub example: Option<String>,
    pub observe: Option<String>,
    pub reviewed: Option<String>,
    pub summary: Option<String>,
    /// Provenance stamped by tooling; never hand-written.
    pub modified: Option<String>,
}

/// `j` is the portable form of `d`.
pub open spec fn deprecation_info(j: DeprecationInfo, d: Deprecation) -> bool {
    &&& j.since matches Some(s) && s@ == version_text(as_core(d.since))
    &&& match j.replaced_by {
        Some(r) => d.replaced_by matches Some(k) && r@ == k@,
        None => d.replaced_by is None,
    }
    &&& match j.migration {
        Some(m) => m@ == d.migration@ && d.migration@.len() > 0,
        None => d.migration@.len() == 0,
    }
}

/// `r` renders `m`, with `default` as the rendered default.
pub open spec fn renders(r: Record, m: Meta, default: Option<DefaultValue>) -> bool {
    &&& r.name@ == m.name@
    &&& r.ty@ == kind_name(m.ty)
    &&& r.default == default
    &&& views(r.allowed@) == str_views(m.allowed@)
    &&& r.required == m.required
    &&& r.stability@ == stability_name(m.stability)
    &&& opt_view(r.since) == match since_version(m.since) {
        Some(v) => Some(version_text(as_core(v))),
        None => None,
    }
    &&& match (r.deprecation, m.deprecation) {
        (Some(j), Some(d)) => deprecation_info(j, d),
        (None, None) => true,
        _ => false,
    }
    &&& opt_view(r.group) == spec_opt_string(m.group@)
    &&& opt_view(r.maps_to) == match m.maps_to {
        Some(c) => Some(c.0@),
        None => None,
    }
    &&& opt_view(r.example) == spec_opt_string(m.example@)
    &&& opt_view(r.observe) == match m.observe {
        Some(o) => Some(o@),
        None => None,
    }
    &&& opt_view(r.reviewed) == match m.reviewed {
        Some(d) => Some(date_text(d)),
        None => None,
    }
    &&& opt_view(r.summary) == spec_opt_string(m.summary@)
    &&& r.modified is None
}

impl Meta {
    /// Render to the portable [`Record`], with `default` as the already
    /// rendered default (its JSON form depends on the variable's type).
    pub fn to_record_with(&self, default: Option<DefaultValue>) -> (r: Record)
        ensures
            renders(r, *self, default),
    {
        Record {
            name: owned(self.name),
            ty: owned(self.ty.as_str()),
            default,
            allowed: owned_all(self.allowed),
            required: self.required,
            stability: owned(self.stability.as_str()),
            since: self.since.to_json(),
            deprecation: match &self.deprecation {
                Some(d) => Some(d.to_json()),
                None => None,
            },
            group: opt_string(self.group),
            maps_to: match self.maps_to {
                Some(c) => Some(c.to_string()),
                None => None,
            },
            example: opt_string(self.example),
            observe: match self.observe {
                Some(o) => Some(owned(o)),
                None => None,
            },
            reviewed: match self.reviewed {
                Some(d) => Some(d.to_string()),
                None => None,
            },
            summary: opt_string(self.summary),
            modified: None,
        }
    }
}

impl<T: 'static, P> Var<T, P> {
    /// Render this declaration to the portable [`Record`], with `default` as
    /// the JSON form of its typed default.
    pub fn to_record_with(&self, default: Option<DefaultValue>) -> (r: Record)
        ensures
            renders(r, self.meta, default),
    {
        self.meta.to_record_with(default)
    }
}

/// The spelling of the build's own version.
pub open spec fn build_text() -> Seq<char> {
    version_text(as_core(spec_this_version()))
}

/// An empty name.
pub open spec fn empty_name_problem(m: Meta) -> Seq<Seq<char>> {
    if m.name@.len() == 0 {
        seq!["a variable has an empty name"@]
    } else {
        Seq::empty()
    }
}

/// An introducing version newer than the build.
pub open spec fn since_problem(m: Meta) -> Seq<Seq<char>> {
    match m.since {
        Since::At(v) => if version_lt(as_core(spec_this_version()), as_core(v)) {
            seq![m.name@ + ": since "@ + version_text(as_core(v)) + " is newer than the current build "@ + build_text()]
        } else {
            Seq::empty()
        },
        _ => Seq::empty(),
    }
}

/// A review dated after `today`.
pub open spec fn reviewed_problem(m: Meta, today: ReviewDate) -> Seq<Seq<char>> {
    match m.reviewed {
        Some(r) => if date_lt(today, r) {
            seq![m.name@ + ": reviewed date "@ + date_text(r) + " is in the future"@]
        } else {
            Seq::empty()
        },
        None => Seq::empty(),
    }
}

/// Stability and deprecation details that disagree.
pub open spec fn pairing_problem(m: Meta) -> Seq<Seq<char>> {
    if m.stability == Stability::Deprecated && m.deprecation is None {
        seq![m.name@ + ": marked Deprecated but has no Deprecation info"@]
    } else if m.stability != Stability::Deprecated && m.deprecation is Some {
        seq![m.name@ + ": has Deprecation info but stability is not Deprecated"@]
    } else {
        Seq::empty()
    }
}

/// A deprecating version newer than the build.
pub open spec fn deprecated_since_problem(m: Meta) -> Seq<Seq<char>> {
    match m.deprecation {
        Some(d) => if version_lt(as_core(spec_this_version()), as_core(d.since)) {
            seq![m.name@ + ": deprecated-since "@ + version_text(as_core(d.since)) + " is newer than the current build "@ + build_text()]
        } else {
            Seq::empty()
        },
        None => Seq::empty(),
    }
}

/// The problems one declaration has, judged on the day `today`, in the order
/// they are reported.
pub open spec fn meta_problems(m: Meta, today: ReviewDate) -> Seq<Seq<char>> {
    empty_name_problem(m) + since_problem(m) + reviewed_problem(m, today) + pairing_problem(m)
        + deprecated_since_problem(m)
}

/// The problems of a set of declarations, in order, judged on `today`.
pub open spec fn spec_validate(ms: Seq<Meta>, today: ReviewDate) -> Seq<Seq<char>>
    decreases ms.len(),
{
    if ms.len() == 0 {
        Seq::empty()
    } else {
        spec_validate(ms.drop_last(), today) + meta_problems(ms.last(), today)
    }
}

/// Every rule holds of one declaration on the day `today`: it has a name, it
/// names no version newer than the build, its review is not dated after
/// `today`, and it carries deprecation details exactly when it is deprecated.
pub open spec fn meta_ok(m: Meta, today: ReviewDate) -> bool {
    let this = as_core(spec_this_version());
    &&& m.name@.len() > 0
    &&& m.since matches Since::At(v) ==> !version_lt(this, as_core(v))
    &&& m.reviewed matches Some(r) ==> !date_lt(today, r)
    &&& (m.stability == Stability::Deprecated) == (m.deprecation is Some)
    &&& m.deprecation matches Some(d) ==> !version_lt(this, as_core(d.since))
}

/// A set of declarations has no problems exactly when every rule holds of
/// each of them.
pub proof fn lemma_valid_iff_every_rule_holds(ms: Seq<Meta>, today: ReviewDate)
    ensures
        spec_validate(ms, today).len() == 0 <==> forall|i: int| 0 <= i < ms.len() ==> meta_ok(#[trigger] ms[i], today),
    decreases ms.len(),
{
    if ms.len() > 0 {
        let front = ms.drop_last();
        lemma_valid_iff_every_rule_holds(front, today);
        assert(ms[ms.len() - 1] == ms.last());
        if forall|i: int| 0 <= i < ms.len() ==> meta_ok(#[trigger] ms[i], today) {
            assert forall|i: int| 0 <= i < front.len() implies meta_ok(#[trigger] front[i], today) by {
                assert(front[i] == ms[i]);
            }
        }
        if spec_validate(ms, today).len() == 0 {
            assert forall|i: int| 0 <= i < ms.len() implies meta_ok(#[trigger] ms[i], today) by {
                if i < front.len() {
                    assert(front[i] == ms[i]);
                }
            }
        }
    }
}

/// `name`, then `a`.
fn said(name: &str, a: &str) -> (r: String)
    ensures
        r@ == name@ + a@,
{
    let mut r = owned(name);
    r.append(a);
    r
}

/// `name`, then `a`, `v`, `b` and `w`.
fn said_at(name: &str, a: &str, v: &str, b: &str, w: &str) -> (r: String)
    ensures
        r@ == name@ + a@ + v@ + b@ + w@,
{
    let mut r = owned(name);
    r.append(a);
    r.append(v);
    r.append(b);
    r.append(w);
    r
}

/// Appends the problems of one declaration.
fn check_meta(m: &Meta, today: ReviewDate, errs: &mut Vec<String>)
    ensures
        views(final(errs)@) == views(old(errs)@) + meta_problems(*m, today),
{
    let ghost start = views(errs@);
    let this = this_version();
    let build = this.to_string();
    if m.name.unicode_len() == 0 {
        errs.push(owned("a variable has an empty name"));
    }
    assert(views(errs@) =~= start + empty_name_problem(*m));
    if let Since::At(v) = m.since {
        if this.is_before(&v) {
            let vt = v.to_string();
            errs.push(said_at(m.name, ": since ", vt.as_str(), " is newer than the current build ", build.as_str()));
        }
    }
    assert(views(errs@) =~= start + empty_name_problem(*m) + since_problem(*m));
    if let Some(r) = m.reviewed {
        if today.is_before(&r) {
            let rt = r.to_string();
            errs.push(said_at(m.name, ": reviewed date ", rt.as_str(), " is in the future", ""));
            proof {
                reveal_strlit("");
                assert(rt@ + " is in the future"@ + ""@ =~= rt@ + " is in the future"@);
            }
        }
    }
    assert(views(errs@) =~= start + empty_name_problem(*m) + since_problem(*m) + reviewed_problem(*m, today));
    let deprecated = m.stability == Stability::Deprecated;
    let has_details = m.deprecation.is_some();
    if deprecated && !has_details {
        errs.push(said(m.name, ": marked Deprecated but has no Deprecation info"));
    } else if !deprecated && has_details {
        errs.push(said(m.name, ": has Deprecation info but stability is not Deprecated"));
    }
    assert(views(errs@) =~= start + empty_name_problem(*m) + since_problem(*m) + reviewed_problem(*m, today)
        + pairing_problem(*m));
    if let Some(d) = &m.deprecation {
        if this.is_before(&d.since) {
            let dt = d.since.to_string();
            errs.push(said_at(m.name, ": deprecated-since ", dt.as_str(), " is newer than the current build ", build.as_str()));
        }
    }
    assert(views(errs@) =~= start + meta_problems(*m, today));
}

/// The problems of a set of declarations, judged on the day `today`: empty
/// names, versions newer than the build, reviews dated in the future, and
/// stability that disagrees with the deprecation details.
pub fn validate_at(metas: &[Meta], today: ReviewDate) -> (errs: Vec<String>)
    ensures
        views(errs@) == spec_validate(metas@, today),
{
    let mut errs: Vec<String> = Vec::new();
    let mut i: usize = 0;
    while i < metas.len()
        invariant
            i <= metas@.len(),
            views(errs@) == spec_validate(metas@.take(i as int), today),
        decreases metas.len() - i,
    {
        check_meta(&metas[i], today, &mut errs);
        proof {
            assert(metas@.take(i + 1).drop_last() =~= metas@.take(i as int));
        }
        i += 1;
    }
    assert(metas@.take(metas@.len() as int) =~= metas@);
    errs
}

/// Check the invariants over a set of declarations, judging review dates
/// against today's date in UTC. Empty means valid.
///
/// The clock is read, so nothing fixes which day "today" is: the result is
/// the problems as judged on the date of some moment.
pub fn validate(metas: &[Meta]) -> (errs: Vec<String>)
    ensures
        exists|secs: i64| views(errs@) == spec_validate(metas@, #[trigger] date_of_day(secs as int / 86400)),
{
    let today = ReviewDate::today();
    validate_at(metas, today)
}


/// Bump on any breaking change to [`Record`]; additive changes keep it.
pub const CONTRACT_VERSION: u32 = 1;

/// A project's rendered records in the standard envelope.
#[derive(Clone, Debug)]
pub struct Document {
    /// The contract format version.
    pub contract_version: u32,
    /// The emitting project and revision, e.g. `dxvk@0ff9cd3`.
    pub source: String,
    /// When the document was emitted, RFC 3339 in UTC.
    pub generated: String,
    /// The records.
    pub vars: Vec<Record>,
}

/// Wrap a project's rendered records in the standard envelope (version and
/// provenance), stamped with the current moment.
///
/// The clock is read, so nothing fixes which moment: `generated` is the UTC
/// timestamp of some moment.
pub fn document(source: &str, records: Vec<Record>) -> (d: Document)
    ensures
        d.contract_version == CONTRACT_VERSION,
        d.source@ == source@,
        crate::date::is_timestamp(d.generated@),
        d.vars@ == records@,
{
    Document {
        contract_version: CONTRACT_VERSION,
        source: owned(source),
        generated: crate::date::now_iso(),
        vars: records,
    }
}


/// The tokens are the single source for parsing and for `allowed`: each of
/// `LogLevel::TOKENS` parses, each to a level of its own, in declaration order.
pub proof fn lemma_log_level_tokens()
    ensures
        spec_log_level(trimmed(LogLevel::TOKENS@[0]@)) == Some(LogLevel::Trace),
        spec_log_level(trimmed(LogLevel::TOKENS@[1]@)) == Some(LogLevel::Debug),
        spec_log_level(trimmed(LogLevel::TOKENS@[2]@)) == Some(LogLevel::Info),
        spec_log_level(trimmed(LogLevel::TOKENS@[3]@)) == Some(LogLevel::Warn),
        spec_log_level(trimmed(LogLevel::TOKENS@[4]@)) == Some(LogLevel::Error),
        spec_log_level(trimmed(LogLevel::TOKENS@[5]@)) == Some(LogLevel::Off),
{
    reveal_strlit("trace");
    reveal_strlit("debug");
    reveal_strlit("info");
    reveal_strlit("warn");
    reveal_strlit("error");
    reveal_strlit("none");
    let t = LogLevel::TOKENS@;
    assert(trimmed(t[0]@) == t[0]@);
    assert(trimmed(t[1]@) == t[1]@);
    assert(t[1]@[0] != "trace"@[0]);
    assert(trimmed(t[2]@) == t[2]@);
    assert(t[2]@[0] != "trace"@[0]);
    assert(t[2]@[0] != "debug"@[0]);
    assert(trimmed(t[3]@) == t[3]@);
    assert(t[3]@[0] != "trace"@[0]);
    assert(t[3]@[0] != "debug"@[0]);
    assert(t[3]@[0] != "info"@[0]);
    assert(trimmed(t[4]@) == t[4]@);
    assert(t[4]@[0] != "trace"@[0]);
    assert(t[4]@[0] != "debug"@[0]);
    assert(t[4]@[0] != "info"@[0]);
    assert(t[4]@[0] != "warn"@[0]);
    assert(trimmed(t[5]@) == t[5]@);
    assert(t[5]@[0] != "trace"@[0]);
    assert(t[5]@[0] != "debug"@[0]);
    assert(t[5]@[0] != "info"@[0]);
    assert(t[5]@[0] != "warn"@[0]);
    assert(t[5]@[0] != "error"@[0]);
}

impl LogLevel {
    /// The token naming this level on the wire; it parses back to the level.
    pub fn token(self) -> (t: &'static str)
        ensures
            spec_log_level(t@) == Some(self),
    {
        proof {
            lemma_log_level_tokens();
        }
        match self {
            LogLevel::Trace => LogLevel::TOKENS[0],
            LogLevel::Debug => LogLevel::TOKENS[1],
            LogLevel::Info => LogLevel::TOKENS[2],
            LogLevel::Warn => LogLevel::TOKENS[3],
            LogLevel::Error => LogLevel::TOKENS[4],
            LogLevel::Off => LogLevel::TOKENS[5],
        }
    }
}

impl Tristate {
    /// The token naming this state on the wire; it parses back to the state.
    pub fn token(self) -> (t: &'static str)
        ensures
            spec_tristate(t@) == Some(self),
    {
        proof {
            lemma_tristate_tokens();
        }
        match self {
            Tristate::Auto => Tristate::TOKENS[0],
            Tristate::On => Tristate::TOKENS[1],
            Tristate::Off => Tristate::TOKENS[2],
        }
    }
}

/// Each of `Tristate::TOKENS` parses, each to a state of its own, in
/// declaration order.
pub proof fn lemma_tristate_tokens()
    ensures
        spec_tristate(trimmed(Tristate::TOKENS@[0]@)) == Some(Tristate::Auto),
        spec_tristate(trimmed(Tristate::TOKENS@[1]@)) == Some(Tristate::On),
        spec_tristate(trimmed(Tristate::TOKENS@[2]@)) == Some(Tristate::Off),
        forall|k: int| 0 <= k < 3 ==> trimmed(#[trigger] Tristate::TOKENS@[k]@) == Tristate::TOKENS@[k]@,
{
    reveal_strlit("auto");
    reveal_strlit("on");
    reveal_strlit("off");
    reveal_strlit("1");
    reveal_strlit("true");
    let t = Tristate::TOKENS@;
    assert(trimmed(t[0]@) == t[0]@);
    assert(trimmed(t[1]@) == t[1]@);
    assert(trimmed(t[2]@) == t[2]@);
    assert(t[1]@[0] != "auto"@[0]);
    assert(t[2]@[0] != "auto"@[0]);
    assert(t[2]@.len() != "on"@.len());
    assert(t[2]@[0] != "1"@[0]);
    assert(t[2]@[0] != "true"@[0]);
}

impl FrameCap {
    /// The number the contract carries: `0` for uncapped.
    pub fn wire_value(self) -> (n: u32)
        ensures
            n == match self {
                FrameCap::Uncapped => 0,
                FrameCap::Fps(k) => k,
            },
    {
        match self {
            FrameCap::Uncapped => 0,
            FrameCap::Fps(k) => k,
        }
    }
}

/// A cap reads back from the number the contract carries for it.
pub proof fn lemma_frame_cap_round_trip(c: FrameCap)
    requires
        c matches FrameCap::Fps(k) ==> k > 0,
    ensures
        spec_frame_cap(decimal(match c {
            FrameCap::Uncapped => 0nat,
            FrameCap::Fps(k) => k as nat,
        })) == Some(c),
{
    let n: nat = match c {
        FrameCap::Uncapped => 0nat,
        FrameCap::Fps(k) => k as nat,
    };
    crate::text::lemma_decimal(n);
    let d = decimal(n);
    assert(crate::text::is_digit(d[0]) && crate::text::is_digit(d.last()));
    assert(trimmed(d) == d);
}

} // verus!
