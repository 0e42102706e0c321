//! The environment-only model: authoring types, reads, rendering and the
//! invariants over a set of declarations.
use argenv::proton::{
    document, opt_string, validate, validate_at, ConfigKeyRef, Deprecation, FrameCap, LogLevel,
    Meta, ReviewDate, Since, Stability, Tristate, Type, Var, Version, CONTRACT_VERSION,
};
use argenv::{DefaultValue, DeprecationInfo};

fn p_bool(s: &str) -> Option<bool> {
    match s.trim() {
        "1" | "true" | "on" => Some(true),
        "0" | "false" | "off" | "" => Some(false),
        _ => None,
    }
}

fn hdr() -> Meta {
    Meta {
        name: "DXVK_HDR",
        ty: Type::Bool,
        allowed: &["0", "1"],
        stability: Stability::Stable,
        since: Since::At(Version::parse("0.1")),
        group: "hdr",
        maps_to: Some(ConfigKeyRef::new("dxgi.enableHDR")),
        example: "DXVK_HDR=1",
        observe: Some("bExposeHDRSupport"),
        reviewed: Some(ReviewDate::parse("2026-07-21")),
        summary: "Force-expose HDR10 (G2084) output to the application",
        ..Meta::empty()
    }
}

fn day(s: &str) -> ReviewDate {
    ReviewDate::parse(s)
}

#[test]
fn a_version_parses_its_components_and_fills_the_missing_ones_with_zero() {
    assert_eq!(Version::parse("2.1"), Version { major: 2, minor: 1, patch: 0 });
    assert_eq!(Version::parse("1.2.3"), Version { major: 1, minor: 2, patch: 3 });
    assert_eq!(Version::parse(""), Version { major: 0, minor: 0, patch: 0 });
    assert_eq!(Version::parse("2.3").to_string(), "2.3.0");
    assert!(Version::parse("2.1").is_before(&Version::parse("2.3")));
    assert!(!Version::parse("2.3").is_before(&Version::parse("2.3")));
}

#[test]
fn a_log_level_parses_its_tokens_around_whitespace() {
    assert_eq!(LogLevel::parse(" warn "), Some(LogLevel::Warn));
    assert_eq!(LogLevel::parse("none"), Some(LogLevel::Off));
    assert_eq!(LogLevel::parse("warning"), None, "no aliases here");
    for t in LogLevel::TOKENS {
        assert!(LogLevel::parse(t).is_some(), "{t}");
    }
}

#[test]
fn a_frame_cap_of_zero_is_uncapped() {
    assert_eq!(FrameCap::parse("0"), Some(FrameCap::Uncapped));
    assert_eq!(FrameCap::parse(" 60 "), Some(FrameCap::Fps(60)));
    assert_eq!(FrameCap::parse("+60"), Some(FrameCap::Fps(60)));
    assert_eq!(FrameCap::parse("-1"), None);
    assert_eq!(FrameCap::parse("4294967296"), None);
    assert_eq!(FrameCap::parse("sixty"), None);
    assert_eq!(FrameCap::Fps(60).wire_value(), 60);
    assert_eq!(FrameCap::Uncapped.wire_value(), 0);
}

#[test]
fn a_tristate_reads_its_tokens_and_an_empty_value_as_auto() {
    assert_eq!(Tristate::parse(""), Some(Tristate::Auto));
    assert_eq!(Tristate::parse("1"), Some(Tristate::On));
    assert_eq!(Tristate::parse("false"), Some(Tristate::Off));
    assert_eq!(Tristate::parse("yes"), None);
    assert_eq!(Tristate::default(), Tristate::Auto);
}

#[test]
fn a_read_falls_back_when_absent_or_invalid() {
    let v = Var {
        meta: hdr(),
        default: Some(false),
        parse: p_bool,
    };
    assert!(v.get_or(Some("1"), false));
    assert!(!v.get_or(None, false));
    assert!(v.get_or(Some("perhaps"), true), "invalid falls back too");
    assert_eq!(v.get_or_default(Some("perhaps")), Some(false));
    assert_eq!(v.get_or_default(Some("on")), Some(true));

    let level = Var {
        meta: Meta {
            name: "DXVK_LOG_LEVEL",
            ty: Type::Enum,
            allowed: &LogLevel::TOKENS,
            ..Meta::empty()
        },
        default: Some(LogLevel::Info),
        parse: LogLevel::parse,
    };
    assert_eq!(level.get_or(Some("warn"), LogLevel::Info), LogLevel::Warn);
    assert_eq!(level.get_or_default(None), Some(LogLevel::Info));
}

#[test]
fn a_declaration_renders_to_the_portable_record() {
    let r = hdr().to_record_with(Some(DefaultValue::Other("false".to_string())));
    assert_eq!(r.name, "DXVK_HDR");
    assert_eq!(r.ty, "bool");
    assert_eq!(r.allowed, vec!["0".to_string(), "1".to_string()]);
    assert_eq!(r.stability, "stable");
    assert_eq!(r.since.as_deref(), Some("0.1.0"));
    assert_eq!(r.group.as_deref(), Some("hdr"));
    assert_eq!(r.maps_to.as_deref(), Some("dxgi.enableHDR"));
    assert_eq!(r.reviewed.as_deref(), Some("2026-07-21"));
    assert_eq!(r.modified, None);

    let bare = Meta {
        name: "DXVK_LOG_PATH",
        ty: Type::Path,
        ..Meta::empty()
    }
    .to_record_with(None);
    assert_eq!(bare.summary, None, "an empty summary is left out");
    assert_eq!(bare.since, None);
    assert_eq!(bare.stability, "unknown");
    assert_eq!(opt_string(""), None);
}

#[test]
fn deprecation_details_render_with_their_successor() {
    let d = Deprecation {
        since: Version::parse("0.1"),
        replaced_by: Some("DXVK_HUD"),
        migration: "",
    };
    assert_eq!(
        d.to_json(),
        DeprecationInfo {
            since: Some("0.1.0".to_string()),
            replaced_by: Some("DXVK_HUD".to_string()),
            migration: None,
        }
    );
}

#[test]
fn valid_declarations_have_no_problems() {
    let profile = Meta {
        name: "DXVK_PROFILE",
        ty: Type::Bool,
        stability: Stability::Deprecated,
        deprecation: Some(Deprecation {
            since: Version::parse("0.1"),
            replaced_by: Some("DXVK_HUD"),
            migration: "Use DXVK_HUD=submissions,gpuload instead",
        }),
        reviewed: Some(day("2026-07-21")),
        ..Meta::empty()
    };
    assert!(validate_at(&[hdr(), profile], day("2026-07-21")).is_empty());
    assert!(validate(&[hdr()]).is_empty(), "reviewed before today");
}

#[test]
fn each_broken_invariant_is_reported() {
    let ahead = Meta {
        name: "A",
        since: Since::At(Version::parse("2.4")),
        reviewed: Some(day("2026-07-22")),
        ..Meta::empty()
    };
    let half = Meta {
        name: "B",
        stability: Stability::Deprecated,
        ..Meta::empty()
    };
    let stray = Meta {
        name: "C",
        deprecation: Some(Deprecation {
            since: Version::parse("3.0"),
            replaced_by: None,
            migration: "",
        }),
        ..Meta::empty()
    };
    let nameless = Meta::empty();
    assert_eq!(
        validate_at(&[ahead, half, stray, nameless], day("2026-07-21")),
        vec![
            "A: since 2.4.0 is newer than the current build 2.3.0".to_string(),
            "A: reviewed date 2026-07-22 is in the future".to_string(),
            "B: marked Deprecated but has no Deprecation info".to_string(),
            "C: has Deprecation info but stability is not Deprecated".to_string(),
            "C: deprecated-since 3.0.0 is newer than the current build 2.3.0".to_string(),
            "a variable has an empty name".to_string(),
        ]
    );
}

#[test]
fn the_envelope_carries_its_version_and_provenance() {
    let doc = document("dxvk@0ff9cd3", vec![hdr().to_record_with(None)]);
    assert_eq!(doc.contract_version, CONTRACT_VERSION);
    assert_eq!(doc.source, "dxvk@0ff9cd3");
    assert!(doc.generated.ends_with('Z'));
    assert_eq!(doc.vars.len(), 1);
}

#[test]
fn a_read_is_none_when_absent_or_invalid() {
    let v = Var {
        meta: hdr(),
        default: Some(false),
        parse: p_bool,
    };
    assert_eq!(v.get(Some(" on ")), Some(true));
    assert_eq!(v.get(Some("perhaps")), None);
    assert_eq!(v.get(None), None);
}
