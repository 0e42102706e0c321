//! One small but complete invocation surface, read, checked and published.
use argenv::{
    check_unique, document, lint, lint_env, ArgBinding, DefaultValue, DeprecationInfo, EnvBinding,
    EnvSource, Finding, FromRaw, Invocation, LogLevel, Record, Resolution, ReviewDate, Severity,
    Source, Version, CONTRACT_VERSION, PRECEDENCE,
};
use std::collections::BTreeMap;

fn env(pairs: &[(&str, &str)]) -> BTreeMap<String, String> {
    pairs
        .iter()
        .map(|(k, v)| (k.to_string(), v.to_string()))
        .collect()
}

fn args(items: &[&str]) -> Vec<String> {
    items.iter().map(|s| s.to_string()).collect()
}

fn strings(items: &[&str]) -> Vec<String> {
    items.iter().map(|s| s.to_string()).collect()
}

fn blank(key: &str, ty: &str) -> Record {
    Record {
        key: key.to_string(),
        ty: ty.to_string(),
        default: None,
        allowed: Vec::new(),
        separators: Vec::new(),
        required: false,
        stability: "unknown".to_string(),
        since: None,
        deprecation: None,
        group: None,
        maps_to: None,
        example: None,
        observe: None,
        reviewed: None,
        summary: None,
        modified: None,
        source: None,
        env: None,
        arg: None,
    }
}

fn env_binding(name: &str, aliases: &[&str]) -> Option<EnvBinding> {
    Some(EnvBinding {
        name: name.to_string(),
        aliases: strings(aliases),
    })
}

fn arg_binding(
    long: Option<&str>,
    short: Option<&str>,
    arity: u8,
    value_name: Option<&str>,
    negatable: bool,
    repeatable: bool,
) -> Option<ArgBinding> {
    Some(ArgBinding {
        long: long.map(str::to_string),
        short: short.map(str::to_string),
        arity,
        value_name: value_name.map(str::to_string),
        negatable,
        repeatable,
    })
}

fn stable(mut r: Record, summary: &str) -> Record {
    r.stability = "stable".to_string();
    r.since = Some("0.1.0".to_string());
    r.reviewed = Some("2020-01-01".to_string());
    r.summary = Some(summary.to_string());
    r
}

/// Both doors, one setting.
fn level() -> Record {
    let mut r = stable(blank("log_level", "enum"), "Log verbosity");
    r.default = Some(DefaultValue::String("info".to_string()));
    r.allowed = strings(&LogLevel::TOKENS);
    r.env = env_binding("APP_LOG_LEVEL", &[]);
    r.arg = arg_binding(Some("log-level"), Some("l"), 1, Some("LEVEL"), false, false);
    r
}

/// A boolean whose presence is the value, and which can be negated.
fn hdr() -> Record {
    let mut r = stable(blank("hdr", "bool"), "Expose HDR output");
    r.default = Some(DefaultValue::Other("false".to_string()));
    r.env = env_binding("APP_HDR", &[]);
    r.arg = arg_binding(Some("hdr"), Some("H"), 0, None, true, false);
    r.maps_to = Some("display.enableHDR".to_string());
    r.observe = Some("hdr_enabled".to_string());
    r
}

/// A repeatable list.
fn hud() -> Record {
    let mut r = stable(blank("hud", "list"), "Overlay elements");
    r.allowed = strings(&["fps", "gpuload", "memory"]);
    r.separators = strings(&[",", ";"]);
    r.env = env_binding("APP_HUD", &[]);
    r.arg = arg_binding(Some("hud"), None, 1, Some("ELEMENT"), false, true);
    r
}

/// Environment only, with a legacy name still honoured.
fn log_path() -> Record {
    let mut r = blank("log_path", "path");
    r.env = env_binding("APP_LOG_PATH", &["APP_LOGFILE"]);
    r.group = Some("logging".to_string());
    r
}

/// A short-only boolean, for bundling.
fn verbose() -> Record {
    let mut r = stable(blank("verbose", "bool"), "Explain what is happening");
    r.arg = arg_binding(None, Some("v"), 0, None, false, false);
    r
}

/// Required, with no default.
fn key() -> Record {
    let mut r = stable(blank("licence_key", "string"), "Licence key");
    r.required = true;
    r.env = env_binding("APP_KEY", &[]);
    r.arg = arg_binding(Some("licence-key"), None, 1, Some("KEY"), false, false);
    r
}

/// On its way out, pointing at its successor.
fn profile() -> Record {
    let mut r = stable(blank("profile", "bool"), "Deprecated profiling overlay");
    r.stability = "deprecated".to_string();
    r.env = env_binding("APP_PROFILE", &[]);
    r.arg = arg_binding(Some("profile"), None, 0, None, false, false);
    r.deprecation = Some(DeprecationInfo {
        since: Some("0.1.0".to_string()),
        replaced_by: Some("hud".to_string()),
        migration: Some("use --hud gpuload instead".to_string()),
    });
    r
}

fn model() -> Vec<Record> {
    vec![level(), hdr(), hud(), log_path(), verbose(), key(), profile()]
}

fn resolve(argv: &[&str], vars: &[(&str, &str)]) -> Resolution {
    let a = args(argv);
    let e = env(vars);
    Invocation { args: &a, env: &e }.resolve(&model())
}

/// The typed value a resolution holds for `key`: absent and invalid alike are `None`.
fn get_from<T: FromRaw>(r: &Resolution, key: &str) -> Option<T> {
    r.raw(key).and_then(T::from_raw)
}

/// The typed value an environment holds for a record, read directly.
fn get_in<T: FromRaw, E: EnvSource>(r: &Record, e: &E) -> Option<T> {
    let b = r.env.as_ref()?;
    let mut names = vec![b.name.clone()];
    names.extend(b.aliases.iter().cloned());
    names.iter().find_map(|n| e.get(n)).and_then(|v| T::from_raw(&v))
}

fn check(argv: &[&str], vars: &[(&str, &str)]) -> Vec<Finding> {
    let a = args(argv);
    let e = env(vars);
    lint(&model(), &Invocation { args: &a, env: &e })
}

fn errors(f: &[Finding]) -> Vec<&Finding> {
    f.iter()
        .filter(|f| f.severity() == Severity::Error)
        .collect()
}

// ---------------------------------------------------------------------------
// Reading
// ---------------------------------------------------------------------------

#[test]
fn a_value_arrives_typed_from_either_door() {
    let from_arg = resolve(&["--log-level", "warn"], &[]);
    assert_eq!(get_from::<LogLevel>(&from_arg, "log_level"), Some(LogLevel::Warn));

    let from_env = resolve(&[], &[("APP_LOG_LEVEL", "error")]);
    assert_eq!(get_from::<LogLevel>(&from_env, "log_level"), Some(LogLevel::Error));
}

#[test]
fn an_argument_beats_an_environment_variable_which_beats_the_default() {
    let both = resolve(&["--log-level", "warn"], &[("APP_LOG_LEVEL", "error")]);
    assert_eq!(get_from::<LogLevel>(&both, "log_level"), Some(LogLevel::Warn));
    assert_eq!(both.source("log_level"), Some(Source::Arg));

    let env_only = resolve(&[], &[("APP_LOG_LEVEL", "error")]);
    assert_eq!(env_only.source("log_level"), Some(Source::Env));

    let neither = resolve(&[], &[]);
    assert_eq!(neither.source("log_level"), Some(Source::Default));
    assert_eq!(PRECEDENCE, ["arg", "env", "default"]);
}

#[test]
fn every_value_says_where_it_came_from() {
    let r = resolve(&["--hdr"], &[("APP_LOG_LEVEL", "warn")]);
    assert_eq!(r.source("hdr"), Some(Source::Arg));
    assert_eq!(r.source("log_level"), Some(Source::Env));
    assert_eq!(
        r.source("hud"),
        None,
        "nothing supplied it and it has no default"
    );
}

#[test]
fn a_boolean_flag_is_true_by_its_presence_and_false_by_its_negation() {
    assert_eq!(get_from::<bool>(&resolve(&["--hdr"], &[]), "hdr"), Some(true));
    assert_eq!(get_from::<bool>(&resolve(&["--no-hdr"], &[]), "hdr"), Some(false));
    assert_eq!(get_from::<bool>(&resolve(&["-H"], &[]), "hdr"), Some(true));
}

#[test]
fn a_value_may_be_attached_or_separate() {
    for argv in [
        vec!["--log-level", "warn"],
        vec!["--log-level=warn"],
        vec!["-l", "warn"],
        vec!["-lwarn"],
    ] {
        assert_eq!(
            get_from::<LogLevel>(&resolve(&argv, &[]), "log_level"),
            Some(LogLevel::Warn),
            "{argv:?} should parse"
        );
    }
}

#[test]
fn short_boolean_flags_bundle() {
    let r = resolve(&["-vH"], &[]);
    assert_eq!(get_from::<bool>(&r, "verbose"), Some(true));
    assert_eq!(get_from::<bool>(&r, "hdr"), Some(true));
}

#[test]
fn a_repeatable_flag_accumulates() {
    let r = resolve(&["--hud", "fps", "--hud", "gpuload"], &[]);
    assert_eq!(r.raw("hud"), Some("fps,gpuload"));
}

#[test]
fn a_non_repeatable_flag_keeps_the_last_occurrence() {
    let r = resolve(&["--log-level", "warn", "--log-level", "error"], &[]);
    assert_eq!(get_from::<LogLevel>(&r, "log_level"), Some(LogLevel::Error));
}

#[test]
fn everything_after_a_double_dash_is_positional() {
    let r = resolve(&["--hdr", "--", "--log-level", "warn"], &[]);
    assert_eq!(get_from::<bool>(&r, "hdr"), Some(true));
    assert_eq!(
        r.positionals(),
        &["--log-level".to_string(), "warn".to_string()]
    );
    assert_eq!(
        r.source("log_level"),
        Some(Source::Default),
        "not parsed as a flag"
    );
}

#[test]
fn absent_and_invalid_are_both_none() {
    assert_eq!(
        get_from::<LogLevel>(&resolve(&[], &[]), "log_level"),
        Some(LogLevel::Info),
        "the default"
    );
    assert_eq!(
        get_from::<bool>(&resolve(&[], &[("APP_HDR", "perhaps")]), "hdr"),
        None,
        "invalid must never masquerade as a value"
    );
}

#[test]
fn a_legacy_environment_name_is_still_honoured() {
    let r = resolve(&[], &[("APP_LOGFILE", "/tmp/app.log")]);
    assert_eq!(r.raw("log_path"), Some("/tmp/app.log"));
}

#[test]
fn an_environment_alone_resolves_for_programs_that_take_no_arguments() {
    let e = env(&[("APP_LOG_LEVEL", "warn")]);
    let r = Invocation::from_env(&e).resolve(&model());
    assert_eq!(get_from::<LogLevel>(&r, "log_level"), Some(LogLevel::Warn));
    assert_eq!(get_in::<LogLevel, _>(&level(), &e), Some(LogLevel::Warn), "or read directly");
}

#[test]
fn a_foreign_snapshot_is_a_source_like_any_other() {
    // The NUL-separated form the kernel exposes at `/proc/<pid>/environ`,
    // read into a map.
    let snapshot: &[u8] = b"PATH=/usr/bin\0APP_LOG_LEVEL=warn\0";
    let vars: BTreeMap<String, String> = snapshot
        .split(|b| *b == 0)
        .filter(|s| !s.is_empty())
        .filter_map(|s| std::str::from_utf8(s).ok())
        .filter_map(|s| s.split_once('=').map(|(k, v)| (k.to_string(), v.to_string())))
        .collect();
    assert_eq!(get_in::<LogLevel, _>(&level(), &vars), Some(LogLevel::Warn));
}

// ---------------------------------------------------------------------------
// Linting
// ---------------------------------------------------------------------------

#[test]
fn a_satisfied_invocation_reports_nothing() {
    let f = check(&["--log-level", "warn"], &[("APP_KEY", "abc")]);
    assert!(errors(&f).is_empty(), "{f:#?}");
}

#[test]
fn a_misspelled_flag_is_caught_with_a_suggestion() {
    let f = check(&["--log-levl", "warn"], &[("APP_KEY", "k")]);
    assert!(
        f.iter().any(|f| matches!(
            f, Finding::UnknownArg { did_you_mean: Some(s), .. } if s == "--log-level"
        )),
        "{f:#?}"
    );
}

#[test]
fn a_misspelled_variable_is_caught_with_a_suggestion() {
    let f = check(&[], &[("APP_LOG_LEVL", "warn"), ("APP_KEY", "k")]);
    assert!(
        f.iter().any(|f| matches!(
            f, Finding::UnknownEnv { did_you_mean, .. } if did_you_mean == "APP_LOG_LEVEL"
        )),
        "{f:#?}"
    );
}

#[test]
fn the_rest_of_the_environment_is_never_mentioned() {
    let f = check(
        &[],
        &[("PATH", "/usr/bin"), ("HOME", "/root"), ("APP_KEY", "k")],
    );
    assert!(
        !f.iter().any(|f| matches!(f, Finding::UnknownEnv { .. })),
        "a lint that shouts about PATH is one nobody runs: {f:#?}"
    );
}

#[test]
fn a_flag_that_needs_a_value_and_gets_none_is_an_error() {
    let f = check(&["--log-level"], &[("APP_KEY", "k")]);
    assert!(f.iter().any(|f| matches!(f, Finding::MissingValue { .. })));
}

#[test]
fn a_flag_that_takes_no_value_and_gets_one_is_an_error() {
    let f = check(&["--hdr=yes"], &[("APP_KEY", "k")]);
    assert!(f
        .iter()
        .any(|f| matches!(f, Finding::UnexpectedValue { .. })));
}

#[test]
fn a_value_outside_its_domain_is_an_error_that_names_the_door() {
    let f = check(&["--log-level", "loud"], &[("APP_KEY", "k")]);
    let bad = f
        .iter()
        .find(|f| matches!(f, Finding::InvalidValue { .. }))
        .expect("expected InvalidValue");
    assert_eq!(bad.severity(), Severity::Error);
    assert!(bad.to_string().contains("argument"), "{}", bad.to_string());

    let from_env = check(&[], &[("APP_HDR", "perhaps"), ("APP_KEY", "k")]);
    let bad = from_env
        .iter()
        .find(|f| matches!(f, Finding::InvalidValue { .. }))
        .expect("expected InvalidValue");
    assert!(bad.to_string().contains("environment"), "{}", bad.to_string());
}

#[test]
fn a_declared_default_is_never_judged() {
    let f = check(&[], &[("APP_KEY", "k")]);
    assert!(
        !f.iter().any(|f| matches!(f, Finding::InvalidValue { .. })),
        "the program's own default is its choice: {f:#?}"
    );
}

#[test]
fn an_unknown_token_names_the_offender_and_spares_the_rest() {
    let f = check(&["--hud", "fps,bogus,gpuload"], &[("APP_KEY", "k")]);
    assert!(f.iter().any(|f| matches!(
        f, Finding::UnknownToken { token, .. } if token == "bogus"
    )));
    assert!(f.iter().all(|f| !matches!(
        f, Finding::UnknownToken { token, .. } if token == "fps" || token == "gpuload"
    )));
}

#[test]
fn a_missing_required_input_says_how_it_could_have_been_supplied() {
    let f = check(&[], &[]);
    let missing = f
        .iter()
        .find(|f| matches!(f, Finding::MissingRequired { key, .. } if key == "licence_key"))
        .expect("expected MissingRequired");
    let text = missing.to_string();
    assert!(
        text.contains("--licence-key") && text.contains("APP_KEY"),
        "{text}"
    );
}

#[test]
fn a_deprecated_input_in_use_is_a_warning_that_names_its_successor() {
    let f = check(&["--profile"], &[("APP_KEY", "k")]);
    let dep = f
        .iter()
        .find(|f| matches!(f, Finding::Deprecated { .. }))
        .expect("expected Deprecated");
    assert_eq!(dep.severity(), Severity::Warning);
    assert!(dep.to_string().contains("hud"), "{}", dep.to_string());
}

#[test]
fn a_legacy_name_is_recognised_rather_than_reported_as_a_mistake() {
    let f = check(&[], &[("APP_LOGFILE", "/tmp/a.log"), ("APP_KEY", "k")]);
    assert!(
        !f.iter().any(|f| matches!(f, Finding::UnknownEnv { .. })),
        "{f:#?}"
    );
}

#[test]
fn checking_works_from_a_published_document_alone() {
    // A consumer that never saw the declarations works from the published records.
    let doc = document("app@abc", model());
    let declared: Vec<Record> = doc.inputs.clone();

    let a = args(&["--log-level", "loud"]);
    let e = env(&[("APP_KEY", "k")]);
    let f = lint(&declared, &Invocation { args: &a, env: &e });
    assert!(f.iter().any(|f| matches!(f, Finding::InvalidValue { .. })));
}

#[test]
fn an_environment_only_program_can_be_checked_without_arguments() {
    let e = env(&[("APP_HDR", "perhaps"), ("APP_KEY", "k")]);
    let f = lint_env(&model(), &e);
    assert!(f.iter().any(|f| matches!(f, Finding::InvalidValue { .. })));
}

// ---------------------------------------------------------------------------
// The portable projection
// ---------------------------------------------------------------------------

#[test]
fn a_declaration_projects_without_losing_what_it_declared() {
    let r = level();
    assert_eq!(r.key, "log_level");
    assert_eq!(r.ty, "enum");
    assert_eq!(r.default, Some(DefaultValue::String("info".to_string())));
    assert_eq!(r.env.as_ref().unwrap().name, "APP_LOG_LEVEL");
    let arg = r.arg.as_ref().unwrap();
    assert_eq!(arg.long.as_deref(), Some("log-level"));
    assert_eq!(arg.short.as_deref(), Some("l"));
    assert_eq!(arg.arity, 1);
    assert_eq!(arg.value_name.as_deref(), Some("LEVEL"));
}

#[test]
fn a_binding_the_input_does_not_have_is_absent_not_empty() {
    let r = log_path();
    assert!(r.arg.is_none(), "an env-only input declares no arg binding");
    assert!(r.usage().is_empty());
    assert!(r.arg_labels().is_empty());
}

#[test]
fn the_envelope_carries_version_provenance_and_precedence() {
    let doc = document("app@a1b2c3d", model());
    assert_eq!(doc.contract_version, CONTRACT_VERSION);
    assert_eq!(doc.source, "app@a1b2c3d");
    assert!(doc.generated.ends_with('Z'));
    assert_eq!(doc.precedence, PRECEDENCE.to_vec());
    assert_eq!(doc.inputs.len(), model().len());
}

#[test]
fn a_record_judges_a_value_from_its_metadata_alone() {
    assert!(level().accepts("warn").is_ok());
    assert!(level().accepts("loud").is_err());
    assert!(hdr().accepts("1").is_ok());
    assert!(hdr().accepts("perhaps").is_err());
}

#[test]
fn a_list_splits_on_every_declared_separator() {
    let hud = hud();
    assert_eq!(
        hud.tokens("fps;gpuload,memory"),
        vec!["fps", "gpuload", "memory"]
    );
    assert!(hdr().tokens("a,b").is_empty(), "only lists split");
}

#[test]
fn a_record_renders_its_own_help_line() {
    assert_eq!(level().usage(), "-l, --log-level <LEVEL>");
    assert_eq!(hdr().usage(), "-H, --hdr");
    assert_eq!(verbose().usage(), "-v");
    assert_eq!(log_path().usage(), "", "no argument form, no usage line");
}

#[test]
fn a_record_lists_every_spelling_it_answers_to() {
    assert_eq!(hdr().arg_labels(), vec!["-H", "--hdr", "--no-hdr"]);
    assert_eq!(log_path().env_names(), vec!["APP_LOG_PATH", "APP_LOGFILE"]);
}

#[test]
fn versions_ignore_prerelease_labels_so_a_tagged_candidate_still_builds() {
    assert_eq!(Version::parse("0.2.0-rc1"), Version::parse("0.2.0"));
    assert_eq!(
        Version::try_parse("1.0.0+build7"),
        Some(Version::parse("1.0.0"))
    );
    assert_eq!(Version::try_parse("1.x"), None);
    assert_eq!(ReviewDate::try_parse("2026-13-01"), None);
}

#[test]
fn two_inputs_may_not_claim_the_same_key_name_or_flag() {
    assert!(check_unique(&model()).is_empty());

    let mut clash = hdr();
    clash.key = "log_level".to_string();
    assert!(!check_unique(&[level(), clash]).is_empty(), "same key");

    let mut clash = hud();
    clash.env = env_binding("APP_HDR", &[]);
    assert!(!check_unique(&[hdr(), clash]).is_empty(), "same variable");

    let mut clash = hud();
    clash.arg = arg_binding(Some("hdr"), None, 1, None, false, false);
    assert!(!check_unique(&[hdr(), clash]).is_empty(), "same flag");
}

// ---------------------------------------------------------------------------
// The whole life of a contract
// ---------------------------------------------------------------------------

#[test]
fn a_contract_is_declared_published_and_used_to_catch_a_broken_launch() {
    // ---- 1. A program declares its invocation surface. --------------------
    let surface = model();
    assert!(check_unique(&surface).is_empty(), "the surface is well formed");

    // ---- 2. It is published as one document. ------------------------------
    let published = document("app@a1b2c3d", surface.clone());
    assert_eq!(published.contract_version, 1);

    // ---- 3. A separate consumer reads it back. ----------------------------
    let declared: Vec<Record> = published.inputs.clone();
    assert_eq!(declared.len(), surface.len());

    // ---- 4. It assembles an invocation for a child process. ---------------
    let argv = args(&["--log-levl", "warn", "--hud", "fps,bogus", "--profile"]);
    let environment = env(&[
        ("PATH", "/usr/bin"),
        ("APP_HDR", "perhaps"),
        ("APP_LOG_LEVL", "info"),
    ]);
    let invocation = Invocation {
        args: &argv,
        env: &environment,
    };

    // ---- 5. The contract catches all of it, before anything is launched. --
    let findings = lint(&declared, &invocation);
    let has = |p: fn(&Finding) -> bool| findings.iter().any(p);

    assert!(
        has(|f| matches!(f, Finding::UnknownArg { arg, .. } if arg == "--log-levl")),
        "the misspelled flag: {findings:#?}"
    );
    assert!(
        has(|f| matches!(f, Finding::UnknownEnv { name, .. } if name == "APP_LOG_LEVL")),
        "the misspelled variable"
    );
    assert!(
        has(|f| matches!(f, Finding::InvalidValue { key, .. } if key == "hdr")),
        "the value outside its domain"
    );
    assert!(
        has(|f| matches!(f, Finding::UnknownToken { token, .. } if token == "bogus")),
        "the unknown token"
    );
    assert!(
        has(|f| matches!(f, Finding::MissingRequired { key, .. } if key == "licence_key")),
        "the missing required input"
    );
    assert!(
        has(|f| matches!(f, Finding::Deprecated { key, .. } if key == "profile")),
        "the deprecated input"
    );
    assert!(
        !has(|f| matches!(f, Finding::UnknownEnv { name, .. } if name == "PATH")),
        "unrelated variables must be left alone"
    );

    // ---- 6. Severity separates "stop" from "worth knowing". ---------------
    let errors = findings
        .iter()
        .filter(|f| f.severity() == Severity::Error)
        .count();
    let warnings = findings
        .iter()
        .filter(|f| f.severity() == Severity::Warning)
        .count();
    assert_eq!(errors, 3, "invalid value, unknown token, missing required");
    assert_eq!(warnings, 3, "two typos and the deprecated input");

    // ---- 7. A corrected invocation resolves cleanly, and says where from. --
    let argv = args(&["--log-level", "warn"]);
    let environment = env(&[("APP_KEY", "abc"), ("APP_HDR", "1")]);
    let invocation = Invocation {
        args: &argv,
        env: &environment,
    };
    assert!(lint(&declared, &invocation)
        .iter()
        .all(|f| f.severity() != Severity::Error));

    let resolved = invocation.resolve(&declared);
    assert_eq!(get_from::<LogLevel>(&resolved, "log_level"), Some(LogLevel::Warn));
    assert_eq!(resolved.source("log_level"), Some(Source::Arg));
    assert_eq!(get_from::<bool>(&resolved, "hdr"), Some(true));
    assert_eq!(resolved.source("hdr"), Some(Source::Env));

    // ---- 8. The same document renders the program's help. -----------------
    let usage: Vec<String> = declared
        .iter()
        .map(Record::usage)
        .filter(|u| !u.is_empty())
        .collect();
    assert!(usage.contains(&"-l, --log-level <LEVEL>".to_string()));
}

#[test]
fn a_repeated_list_flag_accumulates_across_a_bundle_of_short_flags() {
    let r = resolve(&["--hud", "fps", "-vH", "--hud", "gpuload"], &[]);
    assert_eq!(r.raw("hud"), Some("fps,gpuload"));
    assert_eq!(get_from::<bool>(&r, "verbose"), Some(true));
    assert_eq!(get_from::<bool>(&r, "hdr"), Some(true));
}

#[test]
fn resolved_values_come_out_in_order_of_key() {
    let r = resolve(&["-v", "--log-level", "warn"], &[("APP_KEY", "k")]);
    let seen: Vec<(&str, &str, Source)> =
        r.values().iter().map(|(k, v)| (k.as_str(), v.raw.as_str(), v.source)).collect();
    assert_eq!(
        seen,
        vec![
            ("hdr", "false", Source::Default),
            ("licence_key", "k", Source::Env),
            ("log_level", "warn", Source::Arg),
            ("verbose", "true", Source::Arg),
        ]
    );
}

#[test]
fn misspelled_environment_names_are_reported_in_order_of_name() {
    let e = env(&[("APP_LOG_LEVL", "warn"), ("APP_HUDD", "fps"), ("APP_HDRR", "1")]);
    let names: Vec<(String, String)> = lint_env(&model(), &e)
        .into_iter()
        .filter_map(|f| match f {
            Finding::UnknownEnv { name, did_you_mean } => Some((name, did_you_mean)),
            _ => None,
        })
        .collect();
    assert_eq!(
        names,
        vec![
            ("APP_HDRR".to_string(), "APP_HDR".to_string()),
            ("APP_HUDD".to_string(), "APP_HUD".to_string()),
            ("APP_LOG_LEVL".to_string(), "APP_LOG_LEVEL".to_string()),
        ]
    );
}
