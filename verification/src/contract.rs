//! JSON Schema enrichment — the part of the cross-language contract a bare
//! derive cannot know.
//!
//! The base schema is derived from the record type, so it cannot drift from
//! it. This module decides what to add to it: the description of every field,
//! the closed sets of the kinds and stabilities, and the formats of the
//! structured scalars. It looks every property up by name and refuses when one
//! is missing, so a rename fails loudly instead of silently dropping
//! documentation.
use vstd::prelude::*;
use crate::text::{views, owned, owned_all, cat3, contains_str, str_views, str_eq};
use crate::vocabulary::{Type, Stability};

verus! {

/// The canonical schema identifier, served as a plain GET endpoint.
pub const SCHEMA_ID: &'static str = "https://argenv-opencommons.github.io/argenv/v1/contract.schema.json";

/// The format of a key: transport-free `snake_case`.
pub const KEY_PATTERN: &'static str = "^[a-z][a-z0-9_]*$";
/// The format of an environment name: settable from a shell.
pub const ENV_NAME_PATTERN: &'static str = "^[A-Za-z_][A-Za-z0-9_]*$";
/// The format of a long flag: kebab-case, no dashes in front.
pub const LONG_PATTERN: &'static str = "^[a-z][a-z0-9-]*$";
/// The format of a short flag: one letter or digit.
pub const SHORT_PATTERN: &'static str = "^[A-Za-z0-9]$";
/// The format of a version, with an optional pre-release or build suffix.
pub const VERSION_PATTERN: &'static str = "^\\d+(\\.\\d+){0,2}([-+][0-9A-Za-z.-]+)?$";
/// The format of a date, `YYYY-MM-DD`.
pub const DATE_PATTERN: &'static str = "^\\d{4}-(0[1-9]|1[0-2])-(0[1-9]|[12]\\d|3[01])$";

/// One change to the derived schema.
#[derive(Clone, Debug, PartialEq)]
pub enum Edit {
    /// Set the `description` of a record property.
    Describe { field: String, text: String },
    /// Replace a record property's `type` and `format` by an `enum` of tokens.
    Enumerate { field: String, tokens: Vec<String> },
    /// Set the `pattern` of a record property.
    Pattern { field: String, pattern: String },
    /// Set the `description`, and the `pattern` when there is one, of a field
    /// of a nested definition.
    DescribeNested { def: String, field: String, text: String, pattern: Option<String> },
}

/// An edit, by the texts it carries.
pub enum EditView {
    Describe { field: Seq<char>, text: Seq<char> },
    Enumerate { field: Seq<char>, tokens: Seq<Seq<char>> },
    Pattern { field: Seq<char>, pattern: Seq<char> },
    DescribeNested { def: Seq<char>, field: Seq<char>, text: Seq<char>, pattern: Option<Seq<char>> },
}

impl View for Edit {
    type V = EditView;

    open spec fn view(&self) -> EditView {
        match self {
            Edit::Describe { field, text } => EditView::Describe { field: field@, text: text@ },
            Edit::Enumerate { field, tokens } => EditView::Enumerate { field: field@, tokens: views(tokens@) },
            Edit::Pattern { field, pattern } => EditView::Pattern { field: field@, pattern: pattern@ },
            Edit::DescribeNested { def, field, text, pattern } => EditView::DescribeNested {
                def: def@,
                field: field@,
                text: text@,
                pattern: match pattern {
                    Some(p) => Some(p@),
                    None => None,
                },
            },
        }
    }
}

/// The views of a sequence of edits.
pub open spec fn edit_views(e: Seq<Edit>) -> Seq<EditView> {
    e.map_values(|x: Edit| x@)
}

/// The documentation of each record field, in the order it is applied.
pub open spec fn field_docs() -> Seq<(Seq<char>, Seq<char>)> {
    seq![
        ("key"@, "Transport-free identity of the input, snake_case. The join key across every source and every generated binding."@),
        ("type"@, "The kind of value. Also fixes how many values the argument form takes: none for bool, one otherwise."@),
        ("default"@, "Value used when nothing supplies the input, in its natural JSON form."@),
        ("allowed"@, "Accepted tokens; meaningful for the enum and list kinds."@),
        ("separators"@, "Characters that separate items in a list value, so a consumer can split it."@),
        ("required"@, "Whether the program requires this input."@),
        ("stability"@, "How much a consumer may rely on this input."@),
        ("since"@, "Version in which the input was introduced."@),
        ("deprecation"@, "Present only when stability is deprecated: when, what replaces it, and how to migrate."@),
        ("group"@, "Free-form grouping tag for documentation and help output."@),
        ("maps_to"@, "A namespaced key in another configuration surface this input bridges to."@),
        ("example"@, "A copy-pasteable usage example."@),
        ("observe"@, "A field in the program's resolved-configuration output that this input visibly changes; the hook for confirming a declaration empirically."@),
        ("reviewed"@, "Date a human last verified this entry. Hand-written: it asserts human judgement that cannot be derived."@),
        ("summary"@, "What the input does, in prose."@),
        ("modified"@, "Date the declaration was last edited. Stamped by tooling from version control, never hand-written."@),
        ("source"@, "Project and revision this record came from; populated when records from several documents are merged."@),
        ("env"@, "How the value may arrive from the environment."@),
        ("arg"@, "How the value may arrive from the argument vector."@)
    ]
}

/// The documentation of each record field, as an executable table.
fn field_docs_table() -> (t: Vec<(&'static str, &'static str)>)
    ensures
        t@.map_values(|p: (&str, &str)| (p.0@, p.1@)) == field_docs(),
{
    let mut t: Vec<(&'static str, &'static str)> = Vec::new();
    t.push(("key", "Transport-free identity of the input, snake_case. The join key across every source and every generated binding."));
    t.push(("type", "The kind of value. Also fixes how many values the argument form takes: none for bool, one otherwise."));
    t.push(("default", "Value used when nothing supplies the input, in its natural JSON form."));
    t.push(("allowed", "Accepted tokens; meaningful for the enum and list kinds."));
    t.push(("separators", "Characters that separate items in a list value, so a consumer can split it."));
    t.push(("required", "Whether the program requires this input."));
    t.push(("stability", "How much a consumer may rely on this input."));
    t.push(("since", "Version in which the input was introduced."));
    t.push(("deprecation", "Present only when stability is deprecated: when, what replaces it, and how to migrate."));
    t.push(("group", "Free-form grouping tag for documentation and help output."));
    t.push(("maps_to", "A namespaced key in another configuration surface this input bridges to."));
    t.push(("example", "A copy-pasteable usage example."));
    t.push(("observe", "A field in the program's resolved-configuration output that this input visibly changes; the hook for confirming a declaration empirically."));
    t.push(("reviewed", "Date a human last verified this entry. Hand-written: it asserts human judgement that cannot be derived."));
    t.push(("summary", "What the input does, in prose."));
    t.push(("modified", "Date the declaration was last edited. Stamped by tooling from version control, never hand-written."));
    t.push(("source", "Project and revision this record came from; populated when records from several documents are merged."));
    t.push(("env", "How the value may arrive from the environment."));
    t.push(("arg", "How the value may arrive from the argument vector."));
    assert(t@.map_values(|p: (&str, &str)| (p.0@, p.1@)) =~= field_docs());
    t
}


/// The wire spellings of the kinds, in declaration order.
pub open spec fn kind_tokens() -> Seq<Seq<char>> {
    seq!["string"@, "bool"@, "enum"@, "list"@, "uint"@, "int"@, "float"@, "path"@]
}

/// The wire spellings of the stabilities, in declaration order.
pub open spec fn stability_tokens() -> Seq<Seq<char>> {
    seq!["unknown"@, "stable"@, "experimental"@, "debug"@, "deprecated"@]
}

/// The record properties that carry a format, with it.
pub open spec fn record_patterns() -> Seq<(Seq<char>, Seq<char>)> {
    seq![("key"@, KEY_PATTERN@), ("since"@, VERSION_PATTERN@), ("reviewed"@, DATE_PATTERN@), ("modified"@, DATE_PATTERN@)]
}

/// The documentation of the nested binding definitions: each definition's
/// name, and each of its fields with its description and format.
pub open spec fn binding_docs() -> Seq<(Seq<char>, Seq<(Seq<char>, Seq<char>, Option<Seq<char>>)>)> {
    seq![
        ("EnvBinding"@, seq![
            ("name"@, "The variable name."@, Some(ENV_NAME_PATTERN@)),
            ("aliases"@, "Other names still honoured, so a legacy name is recognised rather than reported as a mistake."@, None)
        ]),
        ("ArgBinding"@, seq![
            ("long"@, "The long form, without dashes."@, Some(LONG_PATTERN@)),
            ("short"@, "The short form, without its dash."@, Some(SHORT_PATTERN@)),
            ("arity"@, "How many values the flag consumes: 0 for a boolean whose presence is the value, 1 otherwise. Derived from the type and written out explicitly so no consumer has to re-derive it."@, None),
            ("value_name"@, "The placeholder shown in help for the value."@, None),
            ("negatable"@, "Whether --no-<long> is accepted."@, None),
            ("repeatable"@, "Whether the flag may be repeated, accumulating values."@, None)
        ])
    ]
}

/// Every edit, in the order it is applied.
pub open spec fn all_edits() -> Seq<EditView> {
    field_docs().map_values(|p: (Seq<char>, Seq<char>)| EditView::Describe { field: p.0, text: p.1 })
        + seq![
        EditView::Enumerate { field: "type"@, tokens: kind_tokens() },
        EditView::Enumerate { field: "stability"@, tokens: stability_tokens() },
    ] + record_patterns().map_values(|p: (Seq<char>, Seq<char>)| EditView::Pattern { field: p.0, pattern: p.1 })
        + nested_edits(binding_docs())
}

/// The edits of the nested definitions, in order.
pub open spec fn nested_edits(docs: Seq<(Seq<char>, Seq<(Seq<char>, Seq<char>, Option<Seq<char>>)>)>) -> Seq<EditView>
    decreases docs.len(),
{
    if docs.len() == 0 {
        Seq::empty()
    } else {
        nested_edits(docs.drop_last()) + definition_edits(docs.last().0, docs.last().1)
    }
}

/// A check that fails with `msg` unless `ok`.
pub open spec fn need(ok: bool, msg: Seq<char>) -> Option<Seq<char>> {
    if ok {
        None
    } else {
        Some(msg)
    }
}

/// The first failing check, if any.
pub open spec fn first_failure(checks: Seq<Option<Seq<char>>>) -> Option<Seq<char>>
    decreases checks.len(),
{
    if checks.len() == 0 {
        None
    } else if checks[0] is Some {
        checks[0]
    } else {
        first_failure(checks.drop_first())
    }
}

/// The failure when the documentation table names a field the derived
/// record schema lacks.
pub open spec fn undocumented(field: Seq<char>) -> Seq<char> {
    "enrichment names unknown Record field `"@ + field + "` \u{2014} was it renamed?"@
}

/// The failure when a closed set or format is set on a missing field.
pub open spec fn unknown_field(field: Seq<char>) -> Seq<char> {
    "unknown Record field `"@ + field + "`"@
}

/// The checks on the record's own properties, in order.
pub open spec fn record_checks(props: Seq<Seq<char>>) -> Seq<Option<Seq<char>>> {
    field_docs().map_values(|p: (Seq<char>, Seq<char>)| need(props.contains(p.0), undocumented(p.0)))
        + seq!["type"@, "stability"@, "key"@, "since"@, "reviewed"@, "modified"@].map_values(
        |f: Seq<char>| need(props.contains(f), unknown_field(f)),
    )
}

/// The property names of the definition called `name`, when there is one:
/// `Some(None)` for a definition without properties.
pub open spec fn lookup(defs: Seq<(Seq<char>, Option<Seq<Seq<char>>>)>, name: Seq<char>) -> Option<Option<Seq<Seq<char>>>>
    decreases defs.len(),
{
    if defs.len() == 0 {
        None
    } else if defs[0].0 == name {
        Some(defs[0].1)
    } else {
        lookup(defs.drop_first(), name)
    }
}

/// The checks on one nested definition: that it exists, that it has
/// properties, and that it has each documented field.
pub open spec fn definition_checks(
    defs: Seq<(Seq<char>, Option<Seq<Seq<char>>>)>,
    name: Seq<char>,
    fields: Seq<(Seq<char>, Seq<char>, Option<Seq<char>>)>,
) -> Seq<Option<Seq<char>>> {
    let d = lookup(defs, name);
    seq![
        need(d is Some, "the derived schema has no definition for `"@ + name + "`"@),
        need(!(d matches Some(None)), "`"@ + name + "` has no properties"@),
    ] + fields.map_values(
        |f: (Seq<char>, Seq<char>, Option<Seq<char>>)|
            need(
                match d {
                    Some(Some(ps)) => ps.contains(f.0),
                    _ => true,
                },
                "`"@ + name + "` has no field `"@ + f.0 + "`"@,
            ),
    )
}

/// Every check, in the order it is made.
pub open spec fn all_checks(props: Seq<Seq<char>>, defs: Seq<(Seq<char>, Option<Seq<Seq<char>>>)>) -> Seq<Option<Seq<char>>> {
    record_checks(props) + definition_checks(defs, binding_docs()[0].0, binding_docs()[0].1)
        + definition_checks(defs, binding_docs()[1].0, binding_docs()[1].1)
}


/// The definitions of a derived schema by their names and property names.
pub open spec fn def_views(defs: Seq<(String, Option<Vec<String>>)>) -> Seq<(Seq<char>, Option<Seq<Seq<char>>>)> {
    defs.map_values(
        |d: (String, Option<Vec<String>>)|
            (d.0@, match d.1 {
                Some(v) => Some(views(v@)),
                None => None,
            }),
    )
}

proof fn lemma_first_failure(s: Seq<Option<Seq<char>>>, i: int)
    requires
        0 <= i <= s.len(),
        forall|k: int| 0 <= k < i ==> (#[trigger] s[k]) is None,
    ensures
        i == s.len() ==> first_failure(s) is None,
        i < s.len() && s[i] is Some ==> first_failure(s) == s[i],
    decreases i,
{
    if i > 0 {
        assert forall|k: int| 0 <= k < i - 1 implies (#[trigger] s.drop_first()[k]) is None by {
            assert(s.drop_first()[k] == s[k + 1]);
        }
        lemma_first_failure(s.drop_first(), i - 1);
        assert(s[0] is None);
    }
}

proof fn lemma_first_failure_append(a: Seq<Option<Seq<char>>>, b: Seq<Option<Seq<char>>>)
    ensures
        first_failure(a + b) == if first_failure(a) is Some {
            first_failure(a)
        } else {
            first_failure(b)
        },
    decreases a.len(),
{
    if a.len() > 0 {
        assert((a + b).drop_first() =~= a.drop_first() + b);
        lemma_first_failure_append(a.drop_first(), b);
    } else {
        assert(a + b =~= b);
    }
}

/// The checks that every documented record field exists.
pub open spec fn doc_checks(props: Seq<Seq<char>>) -> Seq<Option<Seq<char>>> {
    field_docs().map_values(|p: (Seq<char>, Seq<char>)| need(props.contains(p.0), undocumented(p.0)))
}

/// The checks that the fields given a closed set or a format exist.
pub open spec fn shape_checks(props: Seq<Seq<char>>) -> Seq<Option<Seq<char>>> {
    seq!["type"@, "stability"@, "key"@, "since"@, "reviewed"@, "modified"@].map_values(
        |f: Seq<char>| need(props.contains(f), unknown_field(f)),
    )
}

/// The description edits of the record's fields.
pub open spec fn doc_edits() -> Seq<EditView> {
    field_docs().map_values(|p: (Seq<char>, Seq<char>)| EditView::Describe { field: p.0, text: p.1 })
}

/// The closed-set and format edits of the record's fields.
pub open spec fn shape_edits() -> Seq<EditView> {
    seq![
        EditView::Enumerate { field: "type"@, tokens: kind_tokens() },
        EditView::Enumerate { field: "stability"@, tokens: stability_tokens() },
    ] + record_patterns().map_values(|p: (Seq<char>, Seq<char>)| EditView::Pattern { field: p.0, pattern: p.1 })
}

fn describe_fields(props: &[String], edits: &mut Vec<Edit>) -> (r: Result<(), String>)
    ensures
        match r {
            Ok(()) => first_failure(doc_checks(views(props@))) is None && edit_views(final(edits)@)
                == edit_views(old(edits)@) + doc_edits(),
            Err(m) => first_failure(doc_checks(views(props@))) == Some(m@),
        },
{
    let table = field_docs_table();
    let ghost cs = doc_checks(views(props@));
    let ghost start = edit_views(edits@);
    let mut j: usize = 0;
    while j < table.len()
        invariant
            j <= table@.len(),
            table@.map_values(|p: (&str, &str)| (p.0@, p.1@)) == field_docs(),
            cs == doc_checks(views(props@)),
            cs.len() == table@.len(),
            forall|k: int| 0 <= k < j ==> (#[trigger] cs[k]) is None,
            edit_views(edits@) == start + doc_edits().take(j as int),
        decreases table.len() - j,
    {
        let (field, text) = table[j];
        assert(field_docs()[j as int] == (field@, text@));
        if !contains_str(props, field) {
            let mut m = owned("enrichment names unknown Record field `");
            m.append(field);
            m.append("` \u{2014} was it renamed?");
            proof {
                lemma_first_failure(cs, j as int);
            }
            return Err(m);
        }
        let ghost before = edits@;
        edits.push(Edit::Describe { field: owned(field), text: owned(text) });
        proof {
            assert(edit_views(edits@) =~= edit_views(before).push(EditView::Describe { field: field@, text: text@ }));
            assert(doc_edits().take(j + 1) =~= doc_edits().take(j as int).push(EditView::Describe { field: field@, text: text@ }));
        }
        j += 1;
    }
    proof {
        lemma_first_failure(cs, cs.len() as int);
        assert(doc_edits().take(table@.len() as int) =~= doc_edits());
    }
    Ok(())
}

fn check_shapes(props: &[String]) -> (r: Result<(), String>)
    ensures
        match r {
            Ok(()) => first_failure(shape_checks(views(props@))) is None,
            Err(m) => first_failure(shape_checks(views(props@))) == Some(m@),
        },
{
    let mut names: Vec<&str> = Vec::new();
    names.push("type");
    names.push("stability");
    names.push("key");
    names.push("since");
    names.push("reviewed");
    names.push("modified");
    let ghost cs = shape_checks(views(props@));
    assert(str_views(names@) =~= seq!["type"@, "stability"@, "key"@, "since"@, "reviewed"@, "modified"@]);
    let mut j: usize = 0;
    while j < names.len()
        invariant
            j <= names@.len(),
            str_views(names@) == seq!["type"@, "stability"@, "key"@, "since"@, "reviewed"@, "modified"@],
            cs == shape_checks(views(props@)),
            cs.len() == names@.len(),
            forall|k: int| 0 <= k < j ==> (#[trigger] cs[k]) is None,
        decreases names.len() - j,
    {
        let f = names[j];
        assert(str_views(names@)[j as int] == f@);
        if !contains_str(props, f) {
            proof {
                lemma_first_failure(cs, j as int);
            }
            return Err(cat3("unknown Record field `", f, "`"));
        }
        j += 1;
    }
    proof {
        lemma_first_failure(cs, cs.len() as int);
    }
    Ok(())
}

fn push_shape_edits(edits: &mut Vec<Edit>)
    ensures
        edit_views(final(edits)@) == edit_views(old(edits)@) + shape_edits(),
{
    let ghost start = edit_views(edits@);
    let kinds = owned_all(&Type::ALL);
    let stabilities = owned_all(&Stability::ALL);
    assert(str_views(Type::ALL@) =~= kind_tokens());
    assert(str_views(Stability::ALL@) =~= stability_tokens());
    edits.push(Edit::Enumerate { field: owned("type"), tokens: kinds });
    edits.push(Edit::Enumerate { field: owned("stability"), tokens: stabilities });
    edits.push(Edit::Pattern { field: owned("key"), pattern: owned(KEY_PATTERN) });
    edits.push(Edit::Pattern { field: owned("since"), pattern: owned(VERSION_PATTERN) });
    edits.push(Edit::Pattern { field: owned("reviewed"), pattern: owned(DATE_PATTERN) });
    edits.push(Edit::Pattern { field: owned("modified"), pattern: owned(DATE_PATTERN) });
    assert(edit_views(edits@) =~= start + shape_edits());
}


/// A table of nested fields, by their texts.
pub open spec fn triples(t: Seq<(&str, &str, Option<&str>)>) -> Seq<(Seq<char>, Seq<char>, Option<Seq<char>>)> {
    t.map_values(
        |f: (&str, &str, Option<&str>)|
            (f.0@, f.1@, match f.2 {
                Some(p) => Some(p@),
                None => None,
            }),
    )
}

fn env_binding_fields() -> (t: Vec<(&'static str, &'static str, Option<&'static str>)>)
    ensures
        triples(t@) == binding_docs()[0].1,
{
    let mut t: Vec<(&'static str, &'static str, Option<&'static str>)> = Vec::new();
    t.push(("name", "The variable name.", Some(ENV_NAME_PATTERN)));
    t.push(("aliases", "Other names still honoured, so a legacy name is recognised rather than reported as a mistake.", None));
    assert(triples(t@) =~= binding_docs()[0].1);
    t
}

fn arg_binding_fields() -> (t: Vec<(&'static str, &'static str, Option<&'static str>)>)
    ensures
        triples(t@) == binding_docs()[1].1,
{
    let mut t: Vec<(&'static str, &'static str, Option<&'static str>)> = Vec::new();
    t.push(("long", "The long form, without dashes.", Some(LONG_PATTERN)));
    t.push(("short", "The short form, without its dash.", Some(SHORT_PATTERN)));
    t.push(("arity", "How many values the flag consumes: 0 for a boolean whose presence is the value, 1 otherwise. Derived from the type and written out explicitly so no consumer has to re-derive it.", None));
    t.push(("value_name", "The placeholder shown in help for the value.", None));
    t.push(("negatable", "Whether --no-<long> is accepted.", None));
    t.push(("repeatable", "Whether the flag may be repeated, accumulating values.", None));
    assert(triples(t@) =~= binding_docs()[1].1);
    t
}

/// The first definition called `name`.
fn find_definition(defs: &[(String, Option<Vec<String>>)], name: &str) -> (r: Option<usize>)
    ensures
        match lookup(def_views(defs@), name@) {
            None => r is None,
            Some(p) => r matches Some(i) && i < defs@.len() && def_views(defs@)[i as int].1 == p,
        },
{
    let ghost dv = def_views(defs@);
    let mut i: usize = 0;
    assert(dv.skip(0) =~= dv);
    while i < defs.len()
        invariant
            i <= defs@.len(),
            dv == def_views(defs@),
            lookup(dv, name@) == lookup(dv.skip(i as int), name@),
        decreases defs.len() - i,
    {
        assert(dv.skip(i as int)[0] == dv[i as int]);
        assert(dv[i as int].0 == defs@[i as int].0@);
        if str_eq(defs[i].0.as_str(), name) {
            return Some(i);
        }
        assert(dv.skip(i as int).drop_first() =~= dv.skip(i + 1));
        i += 1;
    }
    None
}

/// The edits of one nested definition.
pub open spec fn definition_edits(name: Seq<char>, fields: Seq<(Seq<char>, Seq<char>, Option<Seq<char>>)>) -> Seq<EditView> {
    fields.map_values(
        |f: (Seq<char>, Seq<char>, Option<Seq<char>>)|
            EditView::DescribeNested { def: name, field: f.0, text: f.1, pattern: f.2 },
    )
}

fn describe_definition(
    defs: &[(String, Option<Vec<String>>)],
    name: &str,
    fields: &Vec<(&'static str, &'static str, Option<&'static str>)>,
    edits: &mut Vec<Edit>,
) -> (r: Result<(), String>)
    ensures
        match r {
            Ok(()) => first_failure(definition_checks(def_views(defs@), name@, triples(fields@))) is None
                && edit_views(final(edits)@) == edit_views(old(edits)@) + definition_edits(name@, triples(fields@)),
            Err(m) => first_failure(definition_checks(def_views(defs@), name@, triples(fields@))) == Some(m@),
        },
{
    let ghost dv = def_views(defs@);
    let ghost fv = triples(fields@);
    let ghost cs = definition_checks(dv, name@, fv);
    let ghost start = edit_views(edits@);
    let at = match find_definition(defs, name) {
        Some(i) => i,
        None => {
            proof {
                lemma_first_failure(cs, 0);
            }
            return Err(cat3("the derived schema has no definition for `", name, "`"));
        },
    };
    let props = match &defs[at].1 {
        Some(p) => p,
        None => {
            proof {
                lemma_first_failure(cs, 1);
            }
            return Err(cat3("`", name, "` has no properties"));
        },
    };
    assert(lookup(dv, name@) == Some(Some(views(props@))));
    let mut j: usize = 0;
    while j < fields.len()
        invariant
            j <= fields@.len(),
            fv == triples(fields@),
            dv == def_views(defs@),
            cs == definition_checks(dv, name@, fv),
            lookup(dv, name@) == Some(Some(views(props@))),
            cs.len() == fields@.len() + 2,
            forall|k: int| 0 <= k < j + 2 ==> (#[trigger] cs[k]) is None,
            edit_views(edits@) == start + definition_edits(name@, fv).take(j as int),
        decreases fields.len() - j,
    {
        let (field, text, pattern) = fields[j];
        assert(fv[j as int] == (field@, text@, match pattern {
            Some(p) => Some(p@),
            None => None,
        }));
        if !contains_str(props.as_slice(), field) {
            let mut m = cat3("`", name, "` has no field `");
            m.append(field);
            m.append("`");
            proof {
                assert(cs[j + 2] == need(views(props@).contains(field@), "`"@ + name@ + "` has no field `"@ + field@ + "`"@));
                lemma_first_failure(cs, j + 2);
            }
            return Err(m);
        }
        let e = Edit::DescribeNested {
            def: owned(name),
            field: owned(field),
            text: owned(text),
            pattern: match pattern {
                Some(p) => Some(owned(p)),
                None => None,
            },
        };
        let ghost before = edits@;
        edits.push(e);
        proof {
            assert(edit_views(edits@) =~= edit_views(before).push(e@));
            assert(definition_edits(name@, fv).take(j + 1) =~= definition_edits(name@, fv).take(j as int).push(e@));
        }
        j += 1;
    }
    proof {
        lemma_first_failure(cs, cs.len() as int);
        assert(definition_edits(name@, fv).take(fields@.len() as int) =~= definition_edits(name@, fv));
    }
    Ok(())
}

/// What to add to the derived schema: a description for every record field
/// and every field of the nested bindings, the closed sets of the kinds and
/// stabilities, and the formats of the structured scalars. `props` names the
/// derived record's properties; `defs` names each derived definition and its
/// properties, when it has any.
///
/// Fails with the first documented name the derived schema lacks, which means
/// the wire types were renamed without updating the documentation.
pub fn schema_edits(props: &[String], defs: &[(String, Option<Vec<String>>)]) -> (r: Result<Vec<Edit>, String>)
    ensures
        match r {
            Ok(e) => first_failure(all_checks(views(props@), def_views(defs@))) is None && edit_views(e@)
                == all_edits(),
            Err(m) => first_failure(all_checks(views(props@), def_views(defs@))) == Some(m@),
        },
{
    let ghost pv = views(props@);
    let ghost dv = def_views(defs@);
    proof {
        assert(record_checks(pv) =~= doc_checks(pv) + shape_checks(pv));
        lemma_first_failure_append(doc_checks(pv), shape_checks(pv));
        let env = definition_checks(dv, binding_docs()[0].0, binding_docs()[0].1);
        let arg = definition_checks(dv, binding_docs()[1].0, binding_docs()[1].1);
        lemma_first_failure_append(record_checks(pv), env);
        lemma_first_failure_append(record_checks(pv) + env, arg);
        assert(all_checks(pv, dv) == record_checks(pv) + env + arg);
    }
    let mut edits: Vec<Edit> = Vec::new();
    match describe_fields(props, &mut edits) {
        Ok(()) => {},
        Err(m) => return Err(m),
    }
    match check_shapes(props) {
        Ok(()) => {},
        Err(m) => return Err(m),
    }
    push_shape_edits(&mut edits);
    let env_fields = env_binding_fields();
    proof {
        reveal_strlit("EnvBinding");
    }
    match describe_definition(defs, "EnvBinding", &env_fields, &mut edits) {
        Ok(()) => {},
        Err(m) => return Err(m),
    }
    let arg_fields = arg_binding_fields();
    match describe_definition(defs, "ArgBinding", &arg_fields, &mut edits) {
        Ok(()) => {},
        Err(m) => return Err(m),
    }
    proof {
        let docs = binding_docs();
        assert(docs.drop_last().drop_last() =~= Seq::<(Seq<char>, Seq<(Seq<char>, Seq<char>, Option<Seq<char>>)>)>::empty());
        assert(docs.drop_last().last() == docs[0]);
        assert(docs.last() == docs[1]);
        assert(nested_edits(docs.drop_last().drop_last()) == Seq::<EditView>::empty());
        assert(nested_edits(docs.drop_last()) == nested_edits(docs.drop_last().drop_last()) + definition_edits(docs[0].0, docs[0].1));
        assert(nested_edits(docs) =~= definition_edits(docs[0].0, docs[0].1) + definition_edits(docs[1].0, docs[1].1));
        assert(edit_views(edits@) =~= all_edits());
    }
    Ok(edits)
}

} // verus!
