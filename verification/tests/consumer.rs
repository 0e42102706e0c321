//! An example project's declarations: only its own variable data, authored
//! with the standard's types, and the invariants that hold for them.
use argenv::proton::{
    validate, ConfigKeyRef, Deprecation, FrameCap, LogLevel, Meta, ReviewDate, Since, Stability,
    Tristate, Type, Var, Version,
};

fn p_bool(s: &str) -> Option<bool> {
    match s.trim() {
        "1" | "true" | "on" => Some(true),
        "0" | "false" | "off" | "" => Some(false),
        _ => None,
    }
}

fn p_path(s: &str) -> Option<std::path::PathBuf> {
    if s.is_empty() {
        None
    } else {
        Some(s.into())
    }
}

fn p_string(s: &str) -> Option<String> {
    Some(s.to_string())
}

/// The successor of the deprecated variable below.
fn hud_replacement() -> &'static str {
    hud().meta.name
}

fn hdr() -> Var<bool, fn(&str) -> Option<bool>> {
    Var {
        meta: Meta {
            name: "DXVK_HDR",
            ty: Type::Bool,
            allowed: &["0", "1"],
            stability: Stability::Stable,
            since: Since::At(Version::parse("2.1")),
            group: "hdr",
            maps_to: Some(ConfigKeyRef::new("dxgi.enableHDR")),
            example: "DXVK_HDR=1",
            observe: Some("bExposeHDRSupport"),
            reviewed: Some(ReviewDate::parse("2026-07-21")),
            summary: "Force-expose HDR10 (G2084) output to the application",
            ..Meta::empty()
        },
        default: Some(false),
        parse: p_bool,
    }
}

fn log_level() -> Var<LogLevel, fn(&str) -> Option<LogLevel>> {
    Var {
        meta: Meta {
            name: "DXVK_LOG_LEVEL",
            ty: Type::Enum,
            allowed: &LogLevel::TOKENS,
            stability: Stability::Stable,
            group: "logging",
            example: "DXVK_LOG_LEVEL=warn",
            reviewed: Some(ReviewDate::parse("2026-07-21")),
            summary: "Log verbosity",
            ..Meta::empty()
        },
        default: Some(LogLevel::Info),
        parse: LogLevel::parse,
    }
}

fn log_path() -> Var<std::path::PathBuf, fn(&str) -> Option<std::path::PathBuf>> {
    Var {
        meta: Meta {
            name: "DXVK_LOG_PATH",
            ty: Type::Path,
            group: "logging",
            ..Meta::empty()
        },
        default: None,
        parse: p_path,
    }
}

fn frame_rate() -> Var<FrameCap, fn(&str) -> Option<FrameCap>> {
    Var {
        meta: Meta {
            name: "DXVK_FRAME_RATE",
            ty: Type::Uint,
            stability: Stability::Stable,
            group: "frame-pacing",
            example: "DXVK_FRAME_RATE=60",
            reviewed: Some(ReviewDate::parse("2026-07-21")),
            summary: "Frame-rate cap (0 = uncapped)",
            ..Meta::empty()
        },
        default: Some(FrameCap::Uncapped),
        parse: FrameCap::parse,
    }
}

fn hud() -> Var<String, fn(&str) -> Option<String>> {
    Var {
        meta: Meta {
            name: "DXVK_HUD",
            ty: Type::Flags,
            allowed: &["fps", "frametimes", "gpuload", "version", "memory", "submissions"],
            stability: Stability::Stable,
            group: "hud",
            example: "DXVK_HUD=fps,gpuload",
            reviewed: Some(ReviewDate::parse("2026-07-21")),
            summary: "Comma-separated overlay elements",
            ..Meta::empty()
        },
        default: None,
        parse: p_string,
    }
}

/// The render scale is a float domain; only its declaration is needed here.
fn render_scale() -> Meta {
    Meta {
        name: "GS_RENDER_SCALE",
        ty: Type::Float,
        stability: Stability::Stable,
        group: "gamescope",
        example: "GS_RENDER_SCALE=0.75",
        reviewed: Some(ReviewDate::parse("2026-07-21")),
        summary: "Internal render scale for gamescope FSR upscaling",
        ..Meta::empty()
    }
}

fn gamemode() -> Var<Tristate, fn(&str) -> Option<Tristate>> {
    Var {
        meta: Meta {
            name: "GS_GAMEMODE",
            ty: Type::Enum,
            allowed: &Tristate::TOKENS,
            stability: Stability::Stable,
            group: "system",
            example: "GS_GAMEMODE=auto",
            reviewed: Some(ReviewDate::parse("2026-07-21")),
            summary: "Wrap in gamemoderun (auto = on when available)",
            ..Meta::empty()
        },
        default: Some(Tristate::Auto),
        parse: Tristate::parse,
    }
}

fn profile() -> Var<bool, fn(&str) -> Option<bool>> {
    Var {
        meta: Meta {
            name: "DXVK_PROFILE",
            ty: Type::Bool,
            stability: Stability::Deprecated,
            deprecation: Some(Deprecation {
                since: Version::parse("2.3"),
                replaced_by: Some(hud_replacement()),
                migration: "Use DXVK_HUD=submissions,gpuload instead",
            }),
            group: "hud",
            reviewed: Some(ReviewDate::parse("2026-07-21")),
            summary: "(deprecated) profiling overlay",
            ..Meta::empty()
        },
        default: Some(false),
        parse: p_bool,
    }
}

fn metas() -> Vec<Meta> {
    vec![
        hdr().meta,
        log_level().meta,
        log_path().meta,
        frame_rate().meta,
        hud().meta,
        render_scale(),
        gamemode().meta,
        profile().meta,
    ]
}

/// The standard's invariants hold for this project's declarations: no future
/// review dates, no since newer than the build, deprecation consistency.
#[test]
fn consumer_invariants_hold() {
    let problems = validate(&metas());
    assert!(problems.is_empty(), "contract violations:\n{:#?}", problems);
}

/// The same declarations, in the form the first example authored them.
#[test]
fn main_invariants_hold() {
    let metas = vec![
        hdr().meta,
        log_level().meta,
        log_path().meta,
        frame_rate().meta,
        hud().meta,
        render_scale(),
        gamemode().meta,
        profile().meta,
    ];
    let problems = validate(&metas);
    assert!(problems.is_empty(), "contract violations:\n{:#?}", problems);
    assert_eq!(profile().meta.deprecation.unwrap().replaced_by, Some("DXVK_HUD"));
}
