//! Concrete instances of the library's laws, its formulas and its error
//! messages.
use argenv::contract::{schema_edits, Edit};
use argenv::date::{iso_timestamp, now_iso};
use argenv::document::{
    unrecognised_fields, validate_document, ArgFacts, DocumentFacts, EnvFacts, InputFacts,
};
use argenv::report::{check_report, lint_report, split_lint_args, stamp_source, usage_lines};
use argenv::{
    check_unique, lint, ArgBinding, DefaultValue, EnvBinding, EnvSource, Finding, FromRaw,
    Invocation, LogLevel, Record, ReviewDate, Since, Source, Stability, Tristate, Type, Version,
};
use std::collections::{BTreeMap, HashMap};

fn strings(items: &[&str]) -> Vec<String> {
    items.iter().map(|s| s.to_string()).collect()
}

fn record(key: &str, ty: &str) -> Record {
    Record {
        key: key.to_string(),
        ty: ty.to_string(),
        default: None,
        allowed: Vec::new(),
        separators: Vec::new(),
        required: false,
        stability: "stable".to_string(),
        since: None,
        deprecation: None,
        group: None,
        maps_to: None,
        example: None,
        observe: None,
        reviewed: None,
        summary: None,
        modified: None,
        source: None,
        env: None,
        arg: None,
    }
}

fn with_env(mut r: Record, name: &str) -> Record {
    r.env = Some(EnvBinding {
        name: name.to_string(),
        aliases: Vec::new(),
    });
    r
}

fn with_long(mut r: Record, long: &str, arity: u8) -> Record {
    r.arg = Some(ArgBinding {
        long: Some(long.to_string()),
        short: None,
        arity,
        value_name: None,
        negatable: false,
        repeatable: false,
    });
    r
}

fn facts(key: &str) -> InputFacts {
    InputFacts {
        key: Some(key.to_string()),
        fields: strings(&["env", "key", "type"]),
        ty: Some("string".to_string()),
        stability: None,
        has_deprecation: false,
        since: None,
        reviewed: None,
        modified: None,
        allowed: 0,
        separators: 0,
        env: Some(EnvFacts {
            name: Some(format!("APP_{}", key.to_uppercase())),
        }),
        arg: None,
    }
}

fn doc(inputs: Vec<InputFacts>) -> DocumentFacts {
    DocumentFacts {
        contract_version: Some(1),
        inputs: Some(inputs),
    }
}

// ---------------------------------------------------------------------------
// Dates
// ---------------------------------------------------------------------------

#[test]
fn the_next_day_crosses_month_and_year_ends() {
    let d = |s: &str| ReviewDate::parse(s);
    assert_eq!(d("2026-07-21").next_day(), d("2026-07-22"));
    assert_eq!(d("2026-01-31").next_day(), d("2026-02-01"));
    assert_eq!(d("2024-02-28").next_day(), d("2024-02-29"));
    assert_eq!(d("2023-02-28").next_day(), d("2023-03-01"));
    assert_eq!(d("1900-02-28").next_day(), d("1900-03-01"));
    assert_eq!(d("2000-02-28").next_day(), d("2000-02-29"));
    assert_eq!(d("2025-12-31").next_day(), d("2026-01-01"));
    assert!(d("2025-12-31").is_before(&d("2025-12-31").next_day()));
}

#[test]
fn a_date_reads_back_from_its_text() {
    for s in ["2026-07-21", "0001-01-01", "9999-12-31", "2024-02-29"] {
        let d = ReviewDate::parse(s);
        assert_eq!(d.to_string(), s);
        assert_eq!(ReviewDate::try_parse(&d.to_string()), Some(d));
    }
    assert_eq!(ReviewDate::try_parse("2026-7-21"), None);
    assert_eq!(ReviewDate::try_parse("2026-00-10"), None);
    assert_eq!(ReviewDate::try_parse("2026-01-32"), None);
    assert_eq!(ReviewDate::try_parse("2026/01/01"), None);
}

#[test]
fn the_epoch_and_its_neighbours_are_placed_on_the_calendar() {
    assert_eq!(ReviewDate::from_unix_secs(0), ReviewDate::parse("1970-01-01"));
    assert_eq!(ReviewDate::from_unix_secs(-1), ReviewDate::parse("1969-12-31"));
    assert_eq!(ReviewDate::from_unix_secs(951_782_400), ReviewDate::parse("2000-02-29"));
    assert_eq!(iso_timestamp(0), "1970-01-01T00:00:00Z");
    assert_eq!(iso_timestamp(1_784_592_000 + 3_723), "2026-07-21T01:02:03Z");
    assert_eq!(iso_timestamp(-1), "1969-12-31T23:59:59Z");
}

#[test]
fn the_clock_gives_a_timestamp_of_this_era() {
    let t = now_iso();
    assert_eq!(t.len(), 20);
    assert!(t.ends_with('Z'));
    assert!(t.as_str() > "2020-01-01T00:00:00Z", "{t}");
    assert!(ReviewDate::today().to_string().as_str() > "2020-01-01");
}

// ---------------------------------------------------------------------------
// Versions
// ---------------------------------------------------------------------------

#[test]
fn a_version_reads_back_from_its_text_and_orders_by_components() {
    let v = Version::try_parse("1.20.3").unwrap();
    assert_eq!(v.to_string(), "1.20.3");
    assert_eq!(Version::try_parse(&v.to_string()), Some(v));
    assert_eq!(Version::try_parse("2"), Some(Version::parse("2.0.0")));
    assert_eq!(Version::try_parse(""), None);
    assert_eq!(Version::try_parse("-rc1"), None);
    assert_eq!(Version::try_parse("1.2.3.4"), None);
    assert_eq!(Version::try_parse("65536"), None);
    assert!(Version::parse("1.9").is_before(&Version::parse("1.10")));
    assert_eq!(Since::This.resolve(), Some(Version::parse("0.1.0")));
    assert_eq!(Since::Unknown.to_json(), None);
}

// ---------------------------------------------------------------------------
// Raw values
// ---------------------------------------------------------------------------

#[test]
fn raw_values_parse_within_their_domains() {
    assert_eq!(u8::from_raw(" 42 "), Some(42));
    assert_eq!(u8::from_raw("256"), None);
    assert_eq!(u8::from_raw("-1"), None);
    assert_eq!(i8::from_raw("-128"), Some(-128));
    assert_eq!(i64::from_raw("+7"), Some(7));
    assert_eq!(bool::from_raw("yes"), Some(true));
    assert_eq!(bool::from_raw(""), Some(false));
    assert_eq!(bool::from_raw("maybe"), None);
    assert_eq!(LogLevel::from_raw("warning"), Some(LogLevel::Warn));
    assert_eq!(LogLevel::from_raw("off"), Some(LogLevel::Off));
    assert_eq!(Tristate::from_raw("no"), Some(Tristate::Off));
    assert_eq!(String::from_raw(" x "), Some(" x ".to_string()));
    assert_eq!(
        std::path::PathBuf::from_raw("/tmp/app.log"),
        Some(std::path::PathBuf::from("/tmp/app.log"))
    );
    assert_eq!(std::path::PathBuf::from_raw("  "), None);
    for t in LogLevel::TOKENS {
        assert!(LogLevel::from_raw(t).is_some(), "{t}");
    }
    for t in Tristate::TOKENS {
        assert!(Tristate::from_raw(t).is_some(), "{t}");
    }
}

#[test]
fn the_closed_sets_spell_every_variant() {
    assert_eq!(Type::List.as_str(), "list");
    assert_eq!(Stability::Experimental.as_str(), "experimental");
    assert_eq!(Type::ALL.len(), 8);
    assert_eq!(Stability::ALL.len(), 5);
    assert_eq!(Source::Env.as_str(), "environment");
}

// ---------------------------------------------------------------------------
// Environment sources
// ---------------------------------------------------------------------------

#[test]
fn both_kinds_of_map_are_sources() {
    let mut h: HashMap<String, String> = HashMap::new();
    h.insert("A_X".to_string(), "1".to_string());
    h.insert("B".to_string(), "2".to_string());
    assert_eq!(h.get_value("A_X"), Some("1".to_string()));
    assert_eq!(h.get_value("C"), None);
    let mut names = h.names();
    names.sort();
    assert_eq!(names, strings(&["A_X", "B"]));

    let b: BTreeMap<String, String> = h.into_iter().collect();
    assert_eq!(b.get_value("B"), Some("2".to_string()));
    assert_eq!(b.names(), strings(&["A_X", "B"]));
}

trait GetValue {
    fn get_value(&self, name: &str) -> Option<String>;
}

impl<E: EnvSource> GetValue for E {
    fn get_value(&self, name: &str) -> Option<String> {
        EnvSource::get(self, name)
    }
}

// ---------------------------------------------------------------------------
// Precedence and provenance
// ---------------------------------------------------------------------------

#[test]
fn an_argument_wins_then_the_first_environment_name_then_the_default() {
    let mut r = with_long(record("level", "string"), "level", 1);
    r.env = Some(EnvBinding {
        name: "APP_LEVEL".to_string(),
        aliases: strings(&["APP_LVL"]),
    });
    r.default = Some(DefaultValue::String("info".to_string()));
    let model = vec![r];
    let resolve = |argv: &[&str], vars: &[(&str, &str)]| {
        let a = strings(argv);
        let e: BTreeMap<String, String> =
            vars.iter().map(|(k, v)| (k.to_string(), v.to_string())).collect();
        let res = Invocation { args: &a, env: &e }.resolve(&model);
        (res.raw("level").map(str::to_string), res.source("level"))
    };
    assert_eq!(
        resolve(&["--level", "a"], &[("APP_LEVEL", "b")]),
        (Some("a".to_string()), Some(Source::Arg))
    );
    assert_eq!(
        resolve(&[], &[("APP_LVL", "c"), ("APP_LEVEL", "b")]),
        (Some("b".to_string()), Some(Source::Env)),
        "the primary name wins over its alias"
    );
    assert_eq!(
        resolve(&[], &[("APP_LVL", "c")]),
        (Some("c".to_string()), Some(Source::Env))
    );
    assert_eq!(resolve(&[], &[]), (Some("info".to_string()), Some(Source::Default)));
}

#[test]
fn only_variables_sharing_a_declared_prefix_are_mentioned() {
    let model = vec![with_env(record("level", "string"), "APP_LEVEL")];
    let a: Vec<String> = Vec::new();
    let e: BTreeMap<String, String> = [("APP_LEVL", "x"), ("APX_LEVEL", "y"), ("LEVEL", "z")]
        .iter()
        .map(|(k, v)| (k.to_string(), v.to_string()))
        .collect();
    let f = lint(&model, &Invocation { args: &a, env: &e });
    assert_eq!(
        f,
        vec![Finding::UnknownEnv {
            name: "APP_LEVL".to_string(),
            did_you_mean: "APP_LEVEL".to_string(),
        }]
    );
}

#[test]
fn findings_read_as_sentences() {
    let f = Finding::UnknownToken {
        key: "hud".to_string(),
        token: "bogus".to_string(),
        allowed: strings(&["fps", "gpuload"]),
    };
    assert_eq!(f.to_string(), "hud contains unknown token `bogus`; accepted: fps, gpuload");
    let f = Finding::MissingRequired {
        key: "licence_key".to_string(),
        via: strings(&["--licence-key", "APP_KEY"]),
    };
    assert_eq!(f.to_string(), "licence_key is required; supply it with --licence-key or APP_KEY");
    let f = Finding::UnknownArg {
        arg: "--x".to_string(),
        did_you_mean: None,
    };
    assert_eq!(f.to_string(), "--x is not a declared flag");
}

#[test]
fn a_clash_names_both_claimants() {
    let a = with_env(record("a", "string"), "APP_X");
    let b = with_env(record("b", "string"), "APP_X");
    let problems = check_unique(&[a, b]);
    assert_eq!(problems.len(), 1);
    assert!(problems[0].contains("APP_X"), "{problems:?}");
}

// ---------------------------------------------------------------------------
// Documents
// ---------------------------------------------------------------------------

#[test]
fn every_document_problem_has_its_own_message() {
    let mut nameless = facts("");
    nameless.key = None;
    let mut unknown = facts("b");
    unknown.ty = Some("colour".to_string());
    unknown.stability = Some("shaky".to_string());
    let mut listy = facts("c");
    listy.ty = Some("list".to_string());
    let mut dated = facts("d");
    dated.since = Some("v1".to_string());
    dated.modified = Some("yesterday".to_string());
    dated.stability = Some("stable".to_string());
    dated.has_deprecation = true;
    let mut unbound = facts("e");
    unbound.env = None;
    let mut flags = facts("f");
    flags.arg = Some(ArgFacts {
        long: Some("x".to_string()),
        short: Some("-x".to_string()),
        arity: Some(2),
    });
    let mut twice = facts("f");
    twice.env = Some(EnvFacts {
        name: Some("APP_B".to_string()),
    });
    twice.arg = Some(ArgFacts {
        long: None,
        short: None,
        arity: None,
    });
    let d = DocumentFacts {
        contract_version: Some(4_294_967_298),
        inputs: Some(vec![nameless, unknown, listy, dated, unbound, flags, twice]),
    };
    assert_eq!(
        validate_document(&d),
        strings(&[
            "contract_version 4294967298 is not supported (this tool speaks 1)",
            "inputs[0]: missing or empty key",
            "b: unknown type `colour`",
            "b: unknown stability `shaky`",
            "c: type is `list` but allowed is empty",
            "c: type is `list` but no separators are declared",
            "d: has deprecation details but stability is `stable`",
            "d: malformed since `v1`",
            "d: malformed modified date `yesterday`",
            "e: declares no binding, so nothing can set it",
            "f: flag `--x` is claimed twice",
            "f: arity 2 is not 0 or 1",
            "f: duplicate key",
            "f: environment name `APP_B` is claimed twice",
            "f: arg binding is missing arity",
        ])
    );
}

#[test]
fn a_contract_version_must_be_exactly_the_one_spoken() {
    let mut d = doc(vec![facts("a")]);
    assert!(validate_document(&d).is_empty());
    d.contract_version = Some(4_294_967_297);
    assert_eq!(
        validate_document(&d),
        strings(&["contract_version 4294967297 is not supported (this tool speaks 1)"])
    );
    d.contract_version = None;
    d.inputs = None;
    assert_eq!(
        validate_document(&d),
        strings(&["missing contract_version", "missing inputs array"])
    );
}

#[test]
fn an_unrecognised_field_is_reported_without_invalidating_the_document() {
    let mut a = facts("a");
    a.fields.push("sumary".to_string());
    let d = doc(vec![a]);
    assert_eq!(
        unrecognised_fields(&d),
        strings(&["a: unrecognised field `sumary` (a typo, or a field from a later contract version)"])
    );
    let out = check_report("x.json", &d);
    assert!(!out.failed);
    assert_eq!(out.stdout, strings(&["x.json: ok (1 inputs)"]));
    assert_eq!(
        out.stderr,
        strings(&["x.json: a: unrecognised field `sumary` (a typo, or a field from a later contract version)"])
    );
}

#[test]
fn records_are_attributed_to_their_document() {
    let mut own = record("b", "string");
    own.source = Some("other@1".to_string());
    let stamped = stamp_source(vec![record("a", "string"), own.clone()], Some("app@2"), "doc.json");
    assert_eq!(stamped[0].source.as_deref(), Some("app@2"));
    assert_eq!(stamped[1], own);
    let stamped = stamp_source(vec![record("a", "string")], None, "doc.json");
    assert_eq!(stamped[0].source.as_deref(), Some("doc.json"));
}

// ---------------------------------------------------------------------------
// The tool's reports
// ---------------------------------------------------------------------------

#[test]
fn lint_operands_split_at_the_first_double_dash() {
    let (p, a) = split_lint_args(&strings(&["doc.json", "--", "-x", "--", "y"]));
    assert_eq!(p, strings(&["doc.json"]));
    assert_eq!(a, strings(&["-x", "--", "y"]));
    let (p, a) = split_lint_args(&strings(&["doc.json"]));
    assert_eq!(p, strings(&["doc.json"]));
    assert!(a.is_empty());
}

#[test]
fn a_lint_report_separates_errors_from_warnings() {
    let ok = lint_report(&[], 3);
    assert_eq!(ok.stdout, strings(&["invocation satisfies 3 declared inputs"]));
    assert!(!ok.failed);

    let warn = Finding::UnknownArg {
        arg: "--x".to_string(),
        did_you_mean: None,
    };
    let err = Finding::MissingValue {
        arg: "--y".to_string(),
    };
    let r = lint_report(&[warn.clone()], 3);
    assert_eq!(r.stderr, strings(&["warning: --x is not a declared flag"]));
    assert!(!r.failed);
    let r = lint_report(&[warn, err], 3);
    assert_eq!(
        r.stderr,
        strings(&["warning: --x is not a declared flag", "error: --y needs a value"])
    );
    assert!(r.failed);
}

#[test]
fn help_is_grouped_sorted_and_aligned() {
    let mut a = with_long(record("a", "string"), "alpha", 1);
    a.group = Some("zeta".to_string());
    a.summary = Some("First".to_string());
    let mut b = with_env(record("b", "string"), "APP_B");
    b.env.as_mut().unwrap().aliases = strings(&["APP_BB"]);
    b.summary = Some("Second".to_string());
    let mut c = with_long(record("c", "bool"), "c", 0);
    c.group = Some("zeta".to_string());
    let lines = usage_lines(&[a, b, c]);
    assert_eq!(
        lines,
        strings(&[
            "",
            "OPTIONS",
            "    APP_B, APP_BB                  Second",
            "",
            "ZETA",
            "    --alpha <VALUE>                First",
            "    --c                            ",
        ])
    );
}

#[test]
fn the_schema_is_enriched_or_the_missing_field_is_named() {
    let props = strings(&[
        "key", "type", "default", "allowed", "separators", "required", "stability", "since",
        "deprecation", "group", "maps_to", "example", "observe", "reviewed", "summary",
        "modified", "source", "env", "arg",
    ]);
    let defs = vec![
        ("EnvBinding".to_string(), Some(strings(&["name", "aliases"]))),
        (
            "ArgBinding".to_string(),
            Some(strings(&["long", "short", "arity", "value_name", "negatable", "repeatable"])),
        ),
    ];
    let edits = schema_edits(&props, &defs).unwrap();
    assert_eq!(edits.len(), 33);
    assert!(edits.contains(&Edit::Enumerate {
        field: "type".to_string(),
        tokens: strings(&Type::ALL),
    }));

    let mut short = props.clone();
    short.retain(|p| p != "observe");
    assert_eq!(
        schema_edits(&short, &defs),
        Err("enrichment names unknown Record field `observe` \u{2014} was it renamed?".to_string())
    );
    let mut no_arity = defs.clone();
    no_arity[1].1.as_mut().unwrap().retain(|f| f != "arity");
    assert_eq!(
        schema_edits(&props, &no_arity),
        Err("`ArgBinding` has no field `arity`".to_string())
    );
    assert_eq!(
        schema_edits(&props, &defs[..1]),
        Err("the derived schema has no definition for `ArgBinding`".to_string())
    );
}

// ---------------------------------------------------------------------------
// What the schema enrichment promises
// ---------------------------------------------------------------------------

fn record_props() -> Vec<String> {
    strings(&[
        "key", "type", "default", "allowed", "separators", "required", "stability", "since",
        "deprecation", "group", "maps_to", "example", "observe", "reviewed", "summary",
        "modified", "source", "env", "arg",
    ])
}

fn binding_defs() -> Vec<(String, Option<Vec<String>>)> {
    vec![
        ("EnvBinding".to_string(), Some(strings(&["name", "aliases"]))),
        (
            "ArgBinding".to_string(),
            Some(strings(&["long", "short", "arity", "value_name", "negatable", "repeatable"])),
        ),
    ]
}

fn enrichment() -> Vec<Edit> {
    schema_edits(&record_props(), &binding_defs()).unwrap()
}

#[test]
fn every_field_of_a_record_is_present_and_documented() {
    let edits = enrichment();
    for field in record_props() {
        assert!(
            edits.iter().any(|e| matches!(
                e, Edit::Describe { field: f, text } if *f == field && !text.is_empty()
            )),
            "`{field}` undocumented"
        );
    }
}

#[test]
fn both_bindings_are_described_including_the_derived_arity() {
    let edits = enrichment();
    for (ty, fields) in binding_defs() {
        for f in fields.unwrap() {
            assert!(
                edits.iter().any(|e| matches!(
                    e, Edit::DescribeNested { def, field, .. } if *def == ty && *field == f
                )),
                "{ty}.{f} undocumented"
            );
        }
    }
    assert!(
        edits.iter().any(|e| matches!(
            e, Edit::DescribeNested { def, field, text, .. }
                if def == "ArgBinding" && field == "arity" && text.contains("re-derive")
        )),
        "arity must explain why it is written out"
    );
}

#[test]
fn closed_sets_are_taken_from_the_rust_enums() {
    let edits = enrichment();
    assert!(edits.contains(&Edit::Enumerate {
        field: "type".to_string(),
        tokens: strings(&Type::ALL),
    }));
    assert!(edits.contains(&Edit::Enumerate {
        field: "stability".to_string(),
        tokens: strings(&Stability::ALL),
    }));
    assert_eq!(argenv::PRECEDENCE, ["arg", "env", "default"]);
}

#[test]
fn structured_scalars_carry_their_format() {
    let edits = enrichment();
    for field in ["key", "since", "reviewed", "modified"] {
        assert!(
            edits
                .iter()
                .any(|e| matches!(e, Edit::Pattern { field: f, .. } if f == field)),
            "`{field}` needs a pattern"
        );
    }
    assert!(edits.iter().any(|e| matches!(
        e, Edit::DescribeNested { def, field, pattern: Some(_), .. } if def == "EnvBinding" && field == "name"
    )));
    assert!(edits.iter().any(|e| matches!(
        e, Edit::DescribeNested { def, field, pattern: Some(_), .. } if def == "ArgBinding" && field == "long"
    )));
}

#[test]
fn the_day_after_today_comes_after_it() {
    let today = ReviewDate::today();
    assert!(today.is_before(&today.next_day()), "one day of slack");
}

#[test]
fn each_kind_rejects_a_value_with_its_own_reason() {
    let judge = |ty: &str, raw: &str| record("k", ty).accepts(raw);
    assert_eq!(judge("bool", "perhaps"), Err("expected a boolean".to_string()));
    assert_eq!(judge("bool", " on "), Ok(()));
    assert_eq!(judge("uint", "-3"), Err("expected a non-negative integer".to_string()));
    assert_eq!(judge("uint", "18446744073709551616"), Err("expected a non-negative integer".to_string()));
    assert_eq!(judge("uint", "18446744073709551615"), Ok(()));
    assert_eq!(judge("int", "-9223372036854775808"), Ok(()));
    assert_eq!(judge("int", "-9223372036854775809"), Err("expected an integer".to_string()));
    assert_eq!(judge("float", "1e-3"), Ok(()));
    assert_eq!(judge("float", "inf"), Ok(()));
    assert_eq!(judge("float", "1.2.3"), Err("expected a number".to_string()));
    assert_eq!(judge("path", ""), Ok(()));
    assert_eq!(judge("colour", "red"), Err("unknown declared type `colour`".to_string()));
    let mut e = record("k", "enum");
    e.allowed = strings(&["a", "b"]);
    assert_eq!(e.accepts(" a "), Ok(()));
    assert_eq!(e.accepts("c"), Err("accepted: a, b".to_string()));
}

#[test]
fn the_number_readers_agree_with_std_parsing() {
    let samples = [
        "0", " 42 ", "+7", "-7", "-0", "", " ", "1_000", "18446744073709551615",
        "18446744073709551616", "9223372036854775807", "9223372036854775808",
        "-9223372036854775808", "-9223372036854775809", "0x10", "12a", "+", "-", "١٢",
        "1.5", "1e3", ".5", "5.", "-inf", "NaN", "infinity", "1e", "e5", "+-1", "1.2.3",
    ];
    let float = record("f", "float");
    for s in samples {
        assert_eq!(u64::from_raw(s), s.trim().parse::<u64>().ok(), "u64 of {s:?}");
        assert_eq!(i64::from_raw(s), s.trim().parse::<i64>().ok(), "i64 of {s:?}");
        assert_eq!(
            float.accepts(s).is_ok(),
            s.trim().parse::<f64>().is_ok(),
            "f64 of {s:?}"
        );
    }
}

#[test]
fn resolution_ignores_variables_nobody_declared() {
    let mut r = record("level", "string");
    r.env = Some(EnvBinding { name: "APP_LEVEL".to_string(), aliases: Vec::new() });
    let model = vec![r];
    let args: Vec<String> = Vec::new();
    let mut quiet = BTreeMap::new();
    quiet.insert("APP_LEVEL".to_string(), "warn".to_string());
    let mut noisy = quiet.clone();
    noisy.insert("PATH".to_string(), "/bin".to_string());
    noisy.insert("APP_LEVL".to_string(), "debug".to_string());
    let a = Invocation { args: &args, env: &quiet }.resolve(&model);
    let b = Invocation { args: &args, env: &noisy }.resolve(&model);
    assert_eq!(a.raw("level"), Some("warn"));
    assert_eq!(a.values(), b.values());
}

#[test]
fn today_is_a_valid_date_with_a_later_successor() {
    let t = ReviewDate::today();
    assert!((1..=12).contains(&t.month) && (1..=31).contains(&t.day));
    assert!(t.is_before(&t.next_day()));
    assert_eq!(ReviewDate::try_parse(&t.to_string()), Some(t));
}
