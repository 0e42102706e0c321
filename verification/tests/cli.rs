//! What the command-line tool reports, from the facts it reads out of a
//! document and from the records it carries.
use argenv::document::{validate_document, ArgFacts, DocumentFacts, EnvFacts, InputFacts};
use argenv::report::{check_report, lint_report, split_lint_args, usage_lines};
use argenv::{lint, ArgBinding, EnvBinding, Invocation, Record};
use std::collections::BTreeMap;

fn strings(items: &[&str]) -> Vec<String> {
    items.iter().map(|s| s.to_string()).collect()
}

/// The entries of the document below, as the tool reads them.
fn hdr_facts() -> InputFacts {
    InputFacts {
        key: Some("hdr".to_string()),
        fields: strings(&["arg", "env", "key", "stability", "type"]),
        ty: Some("bool".to_string()),
        stability: Some("stable".to_string()),
        has_deprecation: false,
        since: None,
        reviewed: None,
        modified: None,
        allowed: 0,
        separators: 0,
        env: Some(EnvFacts {
            name: Some("APP_HDR".to_string()),
        }),
        arg: Some(ArgFacts {
            long: Some("hdr".to_string()),
            short: None,
            arity: Some(0),
        }),
    }
}

fn level_facts() -> InputFacts {
    InputFacts {
        key: Some("log_level".to_string()),
        fields: strings(&["allowed", "arg", "env", "key", "reviewed", "since", "stability", "type"]),
        ty: Some("enum".to_string()),
        stability: Some("stable".to_string()),
        has_deprecation: false,
        since: Some("1.0".to_string()),
        reviewed: Some("2026-01-01".to_string()),
        modified: None,
        allowed: 2,
        separators: 0,
        env: Some(EnvFacts {
            name: Some("APP_LOG_LEVEL".to_string()),
        }),
        arg: Some(ArgFacts {
            long: Some("log-level".to_string()),
            short: Some("l".to_string()),
            arity: Some(1),
        }),
    }
}

/// A small, valid document: `{"contract_version": 1, "inputs": [hdr, log_level], ...}`.
fn valid_document() -> DocumentFacts {
    DocumentFacts {
        contract_version: Some(1),
        inputs: Some(vec![hdr_facts(), level_facts()]),
    }
}

/// The records the same document carries.
fn valid_records() -> Vec<Record> {
    let blank = |key: &str, ty: &str| Record {
        key: key.to_string(),
        ty: ty.to_string(),
        default: None,
        allowed: Vec::new(),
        separators: Vec::new(),
        required: false,
        stability: "stable".to_string(),
        since: None,
        deprecation: None,
        group: None,
        maps_to: None,
        example: None,
        observe: None,
        reviewed: None,
        summary: None,
        modified: None,
        source: Some("app@test".to_string()),
        env: None,
        arg: None,
    };
    let mut hdr = blank("hdr", "bool");
    hdr.env = Some(EnvBinding {
        name: "APP_HDR".to_string(),
        aliases: Vec::new(),
    });
    hdr.arg = Some(ArgBinding {
        long: Some("hdr".to_string()),
        short: None,
        arity: 0,
        value_name: None,
        negatable: true,
        repeatable: false,
    });
    let mut level = blank("log_level", "enum");
    level.allowed = strings(&["info", "warn"]);
    level.since = Some("1.0".to_string());
    level.reviewed = Some("2026-01-01".to_string());
    level.env = Some(EnvBinding {
        name: "APP_LOG_LEVEL".to_string(),
        aliases: Vec::new(),
    });
    level.arg = Some(ArgBinding {
        long: Some("log-level".to_string()),
        short: Some("l".to_string()),
        arity: 1,
        value_name: Some("LEVEL".to_string()),
        negatable: false,
        repeatable: false,
    });
    vec![hdr, level]
}

fn run_lint(operands: &[&str], vars: &[(&str, &str)]) -> argenv::report::Report {
    let (paths, argv) = split_lint_args(&strings(operands));
    assert_eq!(paths, strings(&["doc.json"]));
    let records = valid_records();
    let e: BTreeMap<String, String> = vars
        .iter()
        .map(|(k, v)| (k.to_string(), v.to_string()))
        .collect();
    let findings = lint(&records, &Invocation { args: &argv, env: &e });
    lint_report(&findings, records.len())
}

#[test]
fn check_accepts_a_wellformed_document() {
    let out = check_report("doc.json", &valid_document());
    assert!(!out.failed, "{:?}", out.stderr);
    assert!(out.stdout.join("\n").contains("2 inputs"));
}

#[test]
fn check_rejects_every_kind_of_malformed_entry() {
    let cases: &[(&str, fn(&mut DocumentFacts))] = &[
        ("unknown type", |d| {
            d.inputs.as_mut().unwrap()[0].ty = Some("nonsense".to_string())
        }),
        ("unknown stability", |d| {
            d.inputs.as_mut().unwrap()[0].stability = Some("sorta".to_string())
        }),
        ("malformed version", |d| {
            d.inputs.as_mut().unwrap()[1].since = Some("1.x".to_string())
        }),
        ("malformed date", |d| {
            d.inputs.as_mut().unwrap()[1].reviewed = Some("2026-13-45".to_string())
        }),
        ("missing key", |d| {
            let e = &mut d.inputs.as_mut().unwrap()[0];
            e.key = None;
            e.fields.retain(|f| f != "key");
        }),
        ("enum without tokens", |d| {
            d.inputs.as_mut().unwrap()[1].allowed = 0
        }),
        ("deprecated without details", |d| {
            d.inputs.as_mut().unwrap()[0].stability = Some("deprecated".to_string())
        }),
        ("wrong contract version", |d| d.contract_version = Some(99)),
        ("no binding at all", |d| {
            let e = &mut d.inputs.as_mut().unwrap()[0];
            e.env = None;
            e.arg = None;
            e.fields.retain(|f| f != "env" && f != "arg");
        }),
        ("arg without arity", |d| {
            d.inputs.as_mut().unwrap()[0].arg.as_mut().unwrap().arity = None
        }),
        ("impossible arity", |d| {
            d.inputs.as_mut().unwrap()[0].arg.as_mut().unwrap().arity = Some(7)
        }),
        ("flag claimed twice", |d| {
            d.inputs.as_mut().unwrap()[1].arg.as_mut().unwrap().long = Some("hdr".to_string())
        }),
        ("variable claimed twice", |d| {
            d.inputs.as_mut().unwrap()[1].env.as_mut().unwrap().name = Some("APP_HDR".to_string())
        }),
    ];
    for (label, mutate) in cases {
        let mut doc = valid_document();
        mutate(&mut doc);
        let out = check_report("bad.json", &doc);
        assert!(out.failed, "`{label}` should have been rejected");
    }
}

#[test]
fn check_flags_an_unrecognised_field_so_a_typo_is_visible() {
    let mut doc = valid_document();
    doc.inputs.as_mut().unwrap()[0].fields.push("sumary".to_string());
    let out = check_report("typo-field.json", &doc);
    assert!(out.stderr.join("\n").contains("unrecognised field"));
}

#[test]
fn lint_checks_arguments_and_environment_together() {
    let ok = run_lint(&["doc.json", "--", "--log-level", "warn"], &[]);
    assert!(!ok.failed, "{:?}", ok.stderr);

    let bad_arg = run_lint(&["doc.json", "--", "--log-level", "loud"], &[]);
    assert!(bad_arg.failed, "an out-of-domain argument must fail");

    let bad_env = run_lint(&["doc.json"], &[("APP_HDR", "perhaps")]);
    assert!(bad_env.failed, "an out-of-domain variable must fail");
}

#[test]
fn lint_warns_about_typos_in_either_surface_without_failing() {
    let flag = run_lint(&["doc.json", "--", "--log-levl", "warn"], &[]);
    assert!(flag.stderr.join("\n").contains("did you mean --log-level"));
    assert!(!flag.failed, "a suspected typo is reported, not fatal");

    let var = run_lint(&["doc.json"], &[("APP_LOG_LEVL", "warn")]);
    assert!(var.stderr.join("\n").contains("did you mean APP_LOG_LEVEL"));
}

#[test]
fn lint_ignores_the_rest_of_the_environment() {
    let out = run_lint(&["doc.json"], &[("PATH", "/usr/bin"), ("HOME", "/root")]);
    assert!(!out.failed);
    assert!(!out.stderr.join("\n").contains("PATH"));
}

#[test]
fn usage_renders_help_from_the_contract() {
    let text = usage_lines(&valid_records()).join("\n");
    assert!(text.contains("-l, --log-level <LEVEL>"), "{text}");
    assert!(text.contains("--hdr"), "{text}");
}

#[test]
fn a_valid_document_has_no_problems() {
    assert!(validate_document(&valid_document()).is_empty());
}
