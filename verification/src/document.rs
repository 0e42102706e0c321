//! Contract documents: the checks a published document must pass before any
//! consumer relies on it.
//!
//! The checks read a handful of plain facts from each entry (which fields it
//! has, the spelling of a few of them, which bindings it declares); the JSON
//! text itself is read by the caller.
use vstd::prelude::*;
use crate::text::{views, decimal, owned, cat, cat3, contains_str, str_eq, push_decimal};
use crate::version::{Version, spec_try_parse};
use crate::date::{ReviewDate, spec_try_parse_date};
use crate::record::CONTRACT_VERSION;

verus! {

/// What the checks read of an entry's environment binding.
#[derive(Clone, Debug)]
pub struct EnvFacts {
    /// Its `name`, when that is a string.
    pub name: Option<String>,
}

/// What the checks read of an entry's argument binding.
#[derive(Clone, Debug)]
pub struct ArgFacts {
    /// Its `long` form, when that is a string.
    pub long: Option<String>,
    /// Its `short` form, when that is a string.
    pub short: Option<String>,
    /// Its `arity`, when that is a non-negative integer.
    pub arity: Option<u64>,
}

/// What the checks read of one entry of a document's `inputs`.
#[derive(Clone, Debug)]
pub struct InputFacts {
    /// Its `key`, when that is a string.
    pub key: Option<String>,
    /// The names of its fields, in the order the entry lists them (none when
    /// the entry is not an object).
    pub fields: Vec<String>,
    /// Its `type`, when that is a string.
    pub ty: Option<String>,
    /// Its `stability`, when that is a string.
    pub stability: Option<String>,
    /// Whether it has a `deprecation` field.
    pub has_deprecation: bool,
    /// Its `since`, when that is a string.
    pub since: Option<String>,
    /// Its `reviewed`, when that is a string.
    pub reviewed: Option<String>,
    /// Its `modified`, when that is a string.
    pub modified: Option<String>,
    /// How many tokens its `allowed` array holds (0 when it is not an array).
    pub allowed: usize,
    /// How many entries its `separators` array holds (0 when it is not an array).
    pub separators: usize,
    /// Its `env` binding, when it has the field.
    pub env: Option<EnvFacts>,
    /// Its `arg` binding, when it has the field.
    pub arg: Option<ArgFacts>,
}

/// What the checks read of a whole document.
#[derive(Clone, Debug)]
pub struct DocumentFacts {
    /// Its `contract_version`, when that is a non-negative integer.
    pub contract_version: Option<u64>,
    /// Its `inputs`, when that is an array.
    pub inputs: Option<Vec<InputFacts>>,
}

/// The text of an optional string; empty when absent.
pub open spec fn opt_text(o: Option<String>) -> Seq<char> {
    match o {
        Some(s) => s@,
        None => Seq::empty(),
    }
}

/// The fields this version of the contract knows.
pub open spec fn is_known_field(k: Seq<char>) -> bool {
    ||| k == "key"@
    ||| k == "type"@
    ||| k == "default"@
    ||| k == "allowed"@
    ||| k == "separators"@
    ||| k == "required"@
    ||| k == "stability"@
    ||| k == "since"@
    ||| k == "deprecation"@
    ||| k == "group"@
    ||| k == "maps_to"@
    ||| k == "example"@
    ||| k == "observe"@
    ||| k == "reviewed"@
    ||| k == "summary"@
    ||| k == "modified"@
    ||| k == "source"@
    ||| k == "env"@
    ||| k == "arg"@
}

/// The wire spellings of the kinds.
pub open spec fn is_kind(t: Seq<char>) -> bool {
    ||| t == "string"@
    ||| t == "bool"@
    ||| t == "enum"@
    ||| t == "list"@
    ||| t == "uint"@
    ||| t == "int"@
    ||| t == "float"@
    ||| t == "path"@
}

/// The wire spellings of the stabilities.
pub open spec fn is_stability(s: Seq<char>) -> bool {
    ||| s == "unknown"@
    ||| s == "stable"@
    ||| s == "experimental"@
    ||| s == "debug"@
    ||| s == "deprecated"@
}

/// How an entry is named in a problem: its key, or its position when it has
/// none.
pub open spec fn entry_label(f: InputFacts, i: int) -> Seq<char> {
    if opt_text(f.key).len() == 0 {
        "inputs["@ + decimal(i as nat) + "]"@
    } else {
        opt_text(f.key)
    }
}

/// The non-empty keys of `es`, in order.
pub open spec fn keys_seen(es: Seq<InputFacts>) -> Seq<Seq<char>>
    decreases es.len(),
{
    if es.len() == 0 {
        Seq::empty()
    } else {
        let k = opt_text(es.last().key);
        keys_seen(es.drop_last()) + if k.len() == 0 {
            Seq::empty()
        } else {
            seq![k]
        }
    }
}

/// The environment name an entry claims.
pub open spec fn env_claim(f: InputFacts) -> Seq<Seq<char>> {
    match f.env {
        Some(e) => match e.name {
            Some(n) => seq![n@],
            None => Seq::empty(),
        },
        None => Seq::empty(),
    }
}

/// The environment names `es` claim, in order.
pub open spec fn env_names_seen(es: Seq<InputFacts>) -> Seq<Seq<char>>
    decreases es.len(),
{
    if es.len() == 0 {
        Seq::empty()
    } else {
        env_names_seen(es.drop_last()) + env_claim(es.last())
    }
}

/// The long flag an entry claims, spelled with its dashes.
pub open spec fn long_claim(f: InputFacts) -> Seq<Seq<char>> {
    match f.arg {
        Some(a) => match a.long {
            Some(l) => seq!["--"@ + l@],
            None => Seq::empty(),
        },
        None => Seq::empty(),
    }
}

/// The short flag an entry claims, spelled with its dash.
pub open spec fn short_claim(f: InputFacts) -> Seq<Seq<char>> {
    match f.arg {
        Some(a) => match a.short {
            Some(s) => seq!["-"@ + s@],
            None => Seq::empty(),
        },
        None => Seq::empty(),
    }
}

/// The flags `es` claim, in order.
pub open spec fn flags_seen(es: Seq<InputFacts>) -> Seq<Seq<char>>
    decreases es.len(),
{
    if es.len() == 0 {
        Seq::empty()
    } else {
        flags_seen(es.drop_last()) + long_claim(es.last()) + short_claim(es.last())
    }
}

/// A missing or repeated key.
pub open spec fn key_problem(earlier: Seq<InputFacts>, f: InputFacts, at: Seq<char>) -> Seq<Seq<char>> {
    let k = opt_text(f.key);
    if k.len() == 0 {
        seq![at + ": missing or empty key"@]
    } else if keys_seen(earlier).contains(k) {
        seq![at + ": duplicate key"@]
    } else {
        Seq::empty()
    }
}

/// Every field this version does not know, in order.
pub open spec fn field_problems(fields: Seq<Seq<char>>, at: Seq<char>) -> Seq<Seq<char>>
    decreases fields.len(),
{
    if fields.len() == 0 {
        Seq::empty()
    } else {
        field_problems(fields.drop_last(), at) + if is_known_field(fields.last()) {
            Seq::empty()
        } else {
            seq![at + ": unrecognised field `"@ + fields.last()
                + "` (a typo, or a field from a later contract version)"@]
        }
    }
}

/// A missing or unknown kind.
pub open spec fn kind_problem(f: InputFacts, at: Seq<char>) -> Seq<Seq<char>> {
    let t = opt_text(f.ty);
    if t.len() == 0 {
        seq![at + ": missing type"@]
    } else if is_kind(t) {
        Seq::empty()
    } else {
        seq![at + ": unknown type `"@ + t + "`"@]
    }
}

/// An unknown stability, or one that disagrees with the deprecation details.
pub open spec fn stability_problem(f: InputFacts, at: Seq<char>) -> Seq<Seq<char>> {
    match f.stability {
        None => Seq::empty(),
        Some(s) => if is_stability(s@) {
            (if s@ == "deprecated"@ && !f.has_deprecation {
                seq![at + ": deprecated but no deprecation details"@]
            } else {
                Seq::empty()
            }) + (if s@ != "deprecated"@ && f.has_deprecation {
                seq![at + ": has deprecation details but stability is `"@ + s@ + "`"@]
            } else {
                Seq::empty()
            })
        } else {
            seq![at + ": unknown stability `"@ + s@ + "`"@]
        },
    }
}

/// A `since` that is not a version.
pub open spec fn since_problem(f: InputFacts, at: Seq<char>) -> Seq<Seq<char>> {
    match f.since {
        Some(s) => if spec_try_parse(s@) is None {
            seq![at + ": malformed since `"@ + s@ + "`"@]
        } else {
            Seq::empty()
        },
        None => Seq::empty(),
    }
}

/// A date field that is not a date.
pub open spec fn date_problem(d: Option<String>, field: Seq<char>, at: Seq<char>) -> Seq<Seq<char>> {
    match d {
        Some(s) => if spec_try_parse_date(s@) is None {
            seq![at + ": malformed "@ + field + " date `"@ + s@ + "`"@]
        } else {
            Seq::empty()
        },
        None => Seq::empty(),
    }
}

/// A closed set without tokens, or a list without separators.
pub open spec fn domain_problems(f: InputFacts, at: Seq<char>) -> Seq<Seq<char>> {
    let t = opt_text(f.ty);
    (if (t == "enum"@ || t == "list"@) && f.allowed == 0 {
        seq![at + ": type is `"@ + t + "` but allowed is empty"@]
    } else {
        Seq::empty()
    }) + (if t == "list"@ && f.separators == 0 {
        seq![at + ": type is `list` but no separators are declared"@]
    } else {
        Seq::empty()
    })
}

/// An entry nothing can set.
pub open spec fn binding_problem(f: InputFacts, at: Seq<char>) -> Seq<Seq<char>> {
    if f.env is None && f.arg is None {
        seq![at + ": declares no binding, so nothing can set it"@]
    } else {
        Seq::empty()
    }
}

/// An environment name an earlier entry already claimed.
pub open spec fn env_problem(earlier: Seq<InputFacts>, f: InputFacts, at: Seq<char>) -> Seq<Seq<char>> {
    match f.env {
        Some(e) => match e.name {
            Some(n) => if env_names_seen(earlier).contains(n@) {
                seq![at + ": environment name `"@ + n@ + "` is claimed twice"@]
            } else {
                Seq::empty()
            },
            None => Seq::empty(),
        },
        None => Seq::empty(),
    }
}

/// A flag already in `seen`.
pub open spec fn flag_problem(seen: Seq<Seq<char>>, flag: Seq<char>, at: Seq<char>) -> Seq<Seq<char>> {
    if seen.contains(flag) {
        seq![at + ": flag `"@ + flag + "` is claimed twice"@]
    } else {
        Seq::empty()
    }
}

/// An arity that is missing, or not 0 or 1.
pub open spec fn arity_problem(arity: Option<u64>, at: Seq<char>) -> Seq<Seq<char>> {
    match arity {
        Some(n) => if n <= 1 {
            Seq::empty()
        } else {
            seq![at + ": arity "@ + decimal(n as nat) + " is not 0 or 1"@]
        },
        None => seq![at + ": arg binding is missing arity"@],
    }
}

/// Flags claimed before, and an arity that is missing or not 0 or 1.
pub open spec fn arg_problems(earlier: Seq<InputFacts>, f: InputFacts, at: Seq<char>) -> Seq<Seq<char>> {
    match f.arg {
        None => Seq::empty(),
        Some(a) => {
            let seen = flags_seen(earlier);
            (match a.long {
                Some(l) => flag_problem(seen, "--"@ + l@, at),
                None => Seq::empty(),
            }) + (match a.short {
                Some(s) => flag_problem(seen + long_claim(f), "-"@ + s@, at),
                None => Seq::empty(),
            }) + arity_problem(a.arity, at)
        },
    }
}

/// The problems of an entry's own fields.
pub open spec fn field_value_problems(f: InputFacts, at: Seq<char>) -> Seq<Seq<char>> {
    kind_problem(f, at) + stability_problem(f, at)
        + since_problem(f, at) + date_problem(f.reviewed, "reviewed"@, at)
        + date_problem(f.modified, "modified"@, at) + domain_problems(f, at) + binding_problem(f, at)
}

/// The problems of entry `f`, which follows the entries `earlier`, in the
/// order they are reported.
pub open spec fn entry_problems(earlier: Seq<InputFacts>, f: InputFacts) -> Seq<Seq<char>> {
    let at = entry_label(f, earlier.len() as int);
    key_problem(earlier, f, at) + field_value_problems(f, at) + env_problem(earlier, f, at)
        + arg_problems(earlier, f, at)
}

/// The problems of every entry, in order.
pub open spec fn inputs_problems(es: Seq<InputFacts>) -> Seq<Seq<char>>
    decreases es.len(),
{
    if es.len() == 0 {
        Seq::empty()
    } else {
        inputs_problems(es.drop_last()) + entry_problems(es.drop_last(), es.last())
    }
}

/// The fields of every entry this version does not know, in order. They are
/// reported so an authoring typo is visible, without making the document
/// invalid: later versions legitimately add fields.
pub open spec fn inputs_notices(es: Seq<InputFacts>) -> Seq<Seq<char>>
    decreases es.len(),
{
    if es.len() == 0 {
        Seq::empty()
    } else {
        let f = es.last();
        inputs_notices(es.drop_last()) + field_problems(views(f.fields@), entry_label(f, es.len() - 1))
    }
}

/// The unrecognised fields of a document, in order.
pub open spec fn document_notices(d: DocumentFacts) -> Seq<Seq<char>> {
    match d.inputs {
        None => Seq::empty(),
        Some(es) => inputs_notices(es@),
    }
}

/// A missing or unsupported contract version.
pub open spec fn version_problem(v: Option<u64>) -> Seq<Seq<char>> {
    match v {
        Some(n) => if n == CONTRACT_VERSION {
            Seq::empty()
        } else {
            seq!["contract_version "@ + decimal(n as nat) + " is not supported (this tool speaks "@
                + decimal(CONTRACT_VERSION as nat) + ")"@]
        },
        None => seq!["missing contract_version"@],
    }
}

/// Every problem of a document, in the order they are reported.
pub open spec fn document_problems(d: DocumentFacts) -> Seq<Seq<char>> {
    version_problem(d.contract_version) + match d.inputs {
        None => seq!["missing inputs array"@],
        Some(es) => inputs_problems(es@),
    }
}


/// `a`, `b`, `c` and `d` in order, as a fresh string.
fn cat4(a: &str, b: &str, c: &str, d: &str) -> (r: String)
    ensures
        r@ == a@ + b@ + c@ + d@,
{
    let mut r = owned(a);
    r.append(b);
    r.append(c);
    r.append(d);
    r
}

/// The text of an optional string, borrowed; empty when absent.
fn text_of(o: &Option<String>) -> (r: &str)
    ensures
        r@ == opt_text(*o),
{
    match o {
        Some(s) => s.as_str(),
        None => {
            proof {
                reveal_strlit("");
            }
            ""
        },
    }
}

/// Whether `k` is a field this version of the contract knows.
fn known_field(k: &str) -> (r: bool)
    ensures
        r == is_known_field(k@),
{
    str_eq(k, "key") || str_eq(k, "type") || str_eq(k, "default") || str_eq(k, "allowed")
        || str_eq(k, "separators") || str_eq(k, "required") || str_eq(k, "stability")
        || str_eq(k, "since") || str_eq(k, "deprecation") || str_eq(k, "group")
        || str_eq(k, "maps_to") || str_eq(k, "example") || str_eq(k, "observe")
        || str_eq(k, "reviewed") || str_eq(k, "summary") || str_eq(k, "modified")
        || str_eq(k, "source") || str_eq(k, "env") || str_eq(k, "arg")
}

/// Whether `t` spells a kind.
fn kind_name(t: &str) -> (r: bool)
    ensures
        r == is_kind(t@),
{
    str_eq(t, "string") || str_eq(t, "bool") || str_eq(t, "enum") || str_eq(t, "list")
        || str_eq(t, "uint") || str_eq(t, "int") || str_eq(t, "float") || str_eq(t, "path")
}

/// Whether `s` spells a stability.
fn stability_word(s: &str) -> (r: bool)
    ensures
        r == is_stability(s@),
{
    str_eq(s, "unknown") || str_eq(s, "stable") || str_eq(s, "experimental") || str_eq(s, "debug")
        || str_eq(s, "deprecated")
}

/// How entry `i` is named in its problems.
fn label(f: &InputFacts, i: usize) -> (r: String)
    ensures
        r@ == entry_label(*f, i as int),
{
    let k = text_of(&f.key);
    if k.unicode_len() == 0 {
        let mut s = owned("inputs[");
        push_decimal(&mut s, i as u64);
        s.append("]");
        s
    } else {
        owned(k)
    }
}

fn push_key_problem(Ghost(earlier): Ghost<Seq<InputFacts>>, keys: &Vec<String>, f: &InputFacts, at: &str, errs: &mut Vec<String>)
    requires
        views(keys@) == keys_seen(earlier),
    ensures
        views(final(errs)@) == views(old(errs)@) + key_problem(earlier, *f, at@),
{
    let ghost start = views(errs@);
    let k = text_of(&f.key);
    if k.unicode_len() == 0 {
        errs.push(cat(at, ": missing or empty key"));
    } else if contains_str(keys.as_slice(), k) {
        errs.push(cat(at, ": duplicate key"));
    }
    assert(views(errs@) =~= start + key_problem(earlier, *f, at@));
}

fn push_field_problems(fields: &Vec<String>, at: &str, errs: &mut Vec<String>)
    ensures
        views(final(errs)@) == views(old(errs)@) + field_problems(views(fields@), at@),
{
    let ghost start = views(errs@);
    let mut i: usize = 0;
    while i < fields.len()
        invariant
            i <= fields@.len(),
            views(errs@) == start + field_problems(views(fields@.take(i as int)), at@),
        decreases fields.len() - i,
    {
        let k = fields[i].as_str();
        let ghost prev = views(errs@);
        if !known_field(k) {
            errs.push(cat4(at, ": unrecognised field `", k, "` (a typo, or a field from a later contract version)"));
        }
        proof {
            let t = views(fields@.take(i + 1));
            assert(t.drop_last() =~= views(fields@.take(i as int)));
            assert(t.last() == k@);
            let here = if is_known_field(k@) {
                Seq::empty()
            } else {
                seq![at@ + ": unrecognised field `"@ + k@ + "` (a typo, or a field from a later contract version)"@]
            };
            assert(field_problems(t, at@) == field_problems(views(fields@.take(i as int)), at@) + here);
            assert(views(errs@) =~= prev + here);
        }
        i += 1;
    }
    assert(fields@.take(fields@.len() as int) =~= fields@);
}


fn push_kind_problem(f: &InputFacts, at: &str, errs: &mut Vec<String>)
    ensures
        views(final(errs)@) == views(old(errs)@) + kind_problem(*f, at@),
{
    let ghost start = views(errs@);
    let t = text_of(&f.ty);
    if t.unicode_len() == 0 {
        errs.push(cat(at, ": missing type"));
    } else if !kind_name(t) {
        errs.push(cat4(at, ": unknown type `", t, "`"));
    }
    assert(views(errs@) =~= start + kind_problem(*f, at@));
}

fn push_stability_problem(f: &InputFacts, at: &str, errs: &mut Vec<String>)
    ensures
        views(final(errs)@) == views(old(errs)@) + stability_problem(*f, at@),
{
    let ghost start = views(errs@);
    match &f.stability {
        None => {},
        Some(s) => {
            let s = s.as_str();
            if stability_word(s) {
                let deprecated = str_eq(s, "deprecated");
                if deprecated && !f.has_deprecation {
                    errs.push(cat(at, ": deprecated but no deprecation details"));
                }
                if !deprecated && f.has_deprecation {
                    errs.push(cat4(at, ": has deprecation details but stability is `", s, "`"));
                }
            } else {
                errs.push(cat4(at, ": unknown stability `", s, "`"));
            }
        },
    }
    assert(views(errs@) =~= start + stability_problem(*f, at@));
}

fn push_since_problem(f: &InputFacts, at: &str, errs: &mut Vec<String>)
    ensures
        views(final(errs)@) == views(old(errs)@) + since_problem(*f, at@),
{
    let ghost start = views(errs@);
    if let Some(s) = &f.since {
        if Version::try_parse(s.as_str()).is_none() {
            errs.push(cat4(at, ": malformed since `", s.as_str(), "`"));
        }
    }
    assert(views(errs@) =~= start + since_problem(*f, at@));
}

fn push_date_problem(d: &Option<String>, field: &str, at: &str, errs: &mut Vec<String>)
    ensures
        views(final(errs)@) == views(old(errs)@) + date_problem(*d, field@, at@),
{
    let ghost start = views(errs@);
    if let Some(s) = d {
        if ReviewDate::try_parse(s.as_str()).is_none() {
            let mut m = cat3(at, ": malformed ", field);
            m.append(" date `");
            m.append(s.as_str());
            m.append("`");
            errs.push(m);
        }
    }
    assert(views(errs@) =~= start + date_problem(*d, field@, at@));
}

fn push_domain_problems(f: &InputFacts, at: &str, errs: &mut Vec<String>)
    ensures
        views(final(errs)@) == views(old(errs)@) + domain_problems(*f, at@),
{
    let ghost start = views(errs@);
    let t = text_of(&f.ty);
    let is_list = str_eq(t, "list");
    if (str_eq(t, "enum") || is_list) && f.allowed == 0 {
        errs.push(cat4(at, ": type is `", t, "` but allowed is empty"));
    }
    if is_list && f.separators == 0 {
        errs.push(cat(at, ": type is `list` but no separators are declared"));
    }
    assert(views(errs@) =~= start + domain_problems(*f, at@));
}

fn push_binding_problem(f: &InputFacts, at: &str, errs: &mut Vec<String>)
    ensures
        views(final(errs)@) == views(old(errs)@) + binding_problem(*f, at@),
{
    let ghost start = views(errs@);
    if f.env.is_none() && f.arg.is_none() {
        errs.push(cat(at, ": declares no binding, so nothing can set it"));
    }
    assert(views(errs@) =~= start + binding_problem(*f, at@));
}

fn push_env_problem(Ghost(earlier): Ghost<Seq<InputFacts>>, names: &Vec<String>, f: &InputFacts, at: &str, errs: &mut Vec<String>)
    requires
        views(names@) == env_names_seen(earlier),
    ensures
        views(final(errs)@) == views(old(errs)@) + env_problem(earlier, *f, at@),
{
    let ghost start = views(errs@);
    if let Some(e) = &f.env {
        if let Some(n) = &e.name {
            if contains_str(names.as_slice(), n.as_str()) {
                errs.push(cat4(at, ": environment name `", n.as_str(), "` is claimed twice"));
            }
        }
    }
    assert(views(errs@) =~= start + env_problem(earlier, *f, at@));
}

fn push_flag_problem(flags: &mut Vec<String>, flag: String, at: &str, errs: &mut Vec<String>)
    ensures
        views(final(errs)@) == views(old(errs)@) + flag_problem(views(old(flags)@), flag@, at@),
        views(final(flags)@) == views(old(flags)@).push(flag@),
{
    let ghost start = views(errs@);
    if contains_str(flags.as_slice(), flag.as_str()) {
        errs.push(cat4(at, ": flag `", flag.as_str(), "` is claimed twice"));
    }
    assert(views(errs@) =~= start + flag_problem(views(old(flags)@), flag@, at@));
    let ghost before = flags@;
    flags.push(flag);
    assert(views(flags@) =~= views(before).push(flag@));
}

fn push_arity_problem(arity: Option<u64>, at: &str, errs: &mut Vec<String>)
    ensures
        views(final(errs)@) == views(old(errs)@) + arity_problem(arity, at@),
{
    let ghost start = views(errs@);
    match arity {
        Some(n) => if n > 1 {
            let mut m = cat(at, ": arity ");
            push_decimal(&mut m, n);
            m.append(" is not 0 or 1");
            errs.push(m);
        },
        None => errs.push(cat(at, ": arg binding is missing arity")),
    }
    assert(views(errs@) =~= start + arity_problem(arity, at@));
}

fn push_arg_problems(Ghost(earlier): Ghost<Seq<InputFacts>>, flags: &mut Vec<String>, f: &InputFacts, at: &str, errs: &mut Vec<String>)
    requires
        views(old(flags)@) == flags_seen(earlier),
    ensures
        views(final(errs)@) == views(old(errs)@) + arg_problems(earlier, *f, at@),
        views(final(flags)@) == flags_seen(earlier) + long_claim(*f) + short_claim(*f),
{
    let ghost start = views(errs@);
    let ghost seen = flags_seen(earlier);
    match &f.arg {
        None => {
            assert(views(flags@) =~= seen + long_claim(*f) + short_claim(*f));
            assert(views(errs@) =~= start + arg_problems(earlier, *f, at@));
        },
        Some(a) => {
            let ghost p1: Seq<Seq<char>> = Seq::empty();
            if let Some(l) = &a.long {
                let flag = cat("--", l.as_str());
                push_flag_problem(flags, flag, at, errs);
                proof {
                    p1 = flag_problem(seen, "--"@ + l@, at@);
                }
            }
            assert(views(errs@) =~= start + p1);
            assert(views(flags@) =~= seen + long_claim(*f));
            let ghost p2: Seq<Seq<char>> = Seq::empty();
            if let Some(sh) = &a.short {
                let flag = cat("-", sh.as_str());
                push_flag_problem(flags, flag, at, errs);
                proof {
                    p2 = flag_problem(seen + long_claim(*f), "-"@ + sh@, at@);
                }
            }
            assert(views(errs@) =~= start + p1 + p2);
            assert(views(flags@) =~= seen + long_claim(*f) + short_claim(*f));
            push_arity_problem(a.arity, at, errs);
            assert(views(errs@) =~= start + arg_problems(earlier, *f, at@));
        },
    }
}

fn push_field_value_problems(f: &InputFacts, at: &str, errs: &mut Vec<String>)
    ensures
        views(final(errs)@) == views(old(errs)@) + field_value_problems(*f, at@),
{
    let ghost start = views(errs@);
    push_kind_problem(f, at, errs);
    push_stability_problem(f, at, errs);
    push_since_problem(f, at, errs);
    push_date_problem(&f.reviewed, "reviewed", at, errs);
    push_date_problem(&f.modified, "modified", at, errs);
    push_domain_problems(f, at, errs);
    push_binding_problem(f, at, errs);
    assert(views(errs@) =~= start + field_value_problems(*f, at@));
}

fn check_entry(
    Ghost(earlier): Ghost<Seq<InputFacts>>,
    keys: &mut Vec<String>,
    names: &mut Vec<String>,
    flags: &mut Vec<String>,
    f: &InputFacts,
    i: usize,
    errs: &mut Vec<String>,
)
    requires
        i == earlier.len(),
        views(old(keys)@) == keys_seen(earlier),
        views(old(names)@) == env_names_seen(earlier),
        views(old(flags)@) == flags_seen(earlier),
    ensures
        views(final(errs)@) == views(old(errs)@) + entry_problems(earlier, *f),
        views(final(keys)@) == keys_seen(earlier.push(*f)),
        views(final(names)@) == env_names_seen(earlier.push(*f)),
        views(final(flags)@) == flags_seen(earlier.push(*f)),
{
    let ghost start = views(errs@);
    let at = label(f, i);
    let at = at.as_str();
    push_key_problem(Ghost(earlier), keys, f, at, errs);
    push_field_value_problems(f, at, errs);
    push_env_problem(Ghost(earlier), names, f, at, errs);
    push_arg_problems(Ghost(earlier), flags, f, at, errs);
    assert(views(errs@) =~= start + entry_problems(earlier, *f));
    let ghost next = earlier.push(*f);
    assert(next.drop_last() =~= earlier);
    let k = text_of(&f.key);
    let ghost kb = keys@;
    if k.unicode_len() > 0 {
        keys.push(owned(k));
    }
    assert(views(keys@) =~= keys_seen(next)) by {
        assert(views(kb) == keys_seen(earlier));
    }
    let ghost nb = names@;
    if let Some(e) = &f.env {
        if let Some(n) = &e.name {
            names.push(owned(n.as_str()));
        }
    }
    assert(views(names@) =~= env_names_seen(next)) by {
        assert(views(nb) == env_names_seen(earlier));
    }
}

fn check_inputs(inputs: &Vec<InputFacts>, errs: &mut Vec<String>)
    ensures
        views(final(errs)@) == views(old(errs)@) + inputs_problems(inputs@),
{
    let ghost start = views(errs@);
    let mut keys: Vec<String> = Vec::new();
    let mut names: Vec<String> = Vec::new();
    let mut flags: Vec<String> = Vec::new();
    let mut i: usize = 0;
    assert(views(keys@) =~= keys_seen(inputs@.take(0)));
    assert(views(names@) =~= env_names_seen(inputs@.take(0)));
    assert(views(flags@) =~= flags_seen(inputs@.take(0)));
    assert(views(errs@) =~= start + inputs_problems(inputs@.take(0)));
    while i < inputs.len()
        invariant
            i <= inputs@.len(),
            views(errs@) == start + inputs_problems(inputs@.take(i as int)),
            views(keys@) == keys_seen(inputs@.take(i as int)),
            views(names@) == env_names_seen(inputs@.take(i as int)),
            views(flags@) == flags_seen(inputs@.take(i as int)),
        decreases inputs.len() - i,
    {
        let ghost earlier = inputs@.take(i as int);
        let ghost before = views(errs@);
        check_entry(Ghost(earlier), &mut keys, &mut names, &mut flags, &inputs[i], i, errs);
        proof {
            let next = inputs@.take(i + 1);
            assert(next =~= earlier.push(inputs@[i as int]));
            assert(next.drop_last() =~= earlier);
            assert(inputs_problems(next) == inputs_problems(earlier) + entry_problems(earlier, inputs@[i as int]));
            assert(views(errs@) =~= start + inputs_problems(next));
        }
        i += 1;
    }
    assert(inputs@.take(inputs@.len() as int) =~= inputs@);
}

/// Check a contract document: its version, and every entry's key, kind,
/// stability, version and date spellings, closed sets, bindings and claimed
/// names. Returns the problems in the order found; empty means valid.
/// Unrecognised fields are not problems (see [`unrecognised_fields`]).
pub fn validate_document(doc: &DocumentFacts) -> (errs: Vec<String>)
    ensures
        views(errs@) == document_problems(*doc),
{
    let mut errs: Vec<String> = Vec::new();
    match doc.contract_version {
        Some(v) => if v != CONTRACT_VERSION as u64 {
            let mut m = owned("contract_version ");
            push_decimal(&mut m, v);
            m.append(" is not supported (this tool speaks ");
            push_decimal(&mut m, CONTRACT_VERSION as u64);
            m.append(")");
            errs.push(m);
        },
        None => errs.push(owned("missing contract_version")),
    }
    let ghost first = views(errs@);
    assert(first =~= version_problem(doc.contract_version));
    match &doc.inputs {
        None => errs.push(owned("missing inputs array")),
        Some(inputs) => check_inputs(inputs, &mut errs),
    }
    assert(views(errs@) =~= document_problems(*doc));
    errs
}


/// The fields of a document's entries this version of the contract does not
/// know, one notice each, in order: a typo, or a field from a later version.
pub fn unrecognised_fields(doc: &DocumentFacts) -> (notes: Vec<String>)
    ensures
        views(notes@) == document_notices(*doc),
{
    let mut notes: Vec<String> = Vec::new();
    match &doc.inputs {
        None => {},
        Some(inputs) => {
            let mut i: usize = 0;
            while i < inputs.len()
                invariant
                    i <= inputs@.len(),
                    views(notes@) == inputs_notices(inputs@.take(i as int)),
                decreases inputs.len() - i,
            {
                let f = &inputs[i];
                let at = label(f, i);
                push_field_problems(&f.fields, at.as_str(), &mut notes);
                proof {
                    let next = inputs@.take(i + 1);
                    assert(next.drop_last() =~= inputs@.take(i as int));
                    assert(next.last() == *f);
                }
                i += 1;
            }
            assert(inputs@.take(inputs@.len() as int) =~= inputs@);
        },
    }
    notes
}

} // verus!
