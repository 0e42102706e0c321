//! argenv: a declared, typed, machine-readable contract for a program's
//! invocation surface, its argument vector and its environment.
pub mod text;
pub mod version;
pub mod date;
pub mod vocabulary;
pub mod from_raw;
pub mod record;
pub mod unique;
pub mod source;
pub mod invocation;
pub mod lint;
pub mod proton;
pub mod document;
pub mod report;
pub mod contract;

pub use crate::record::{Record, EnvBinding, ArgBinding, DefaultValue, Document, document, CONTRACT_VERSION, PRECEDENCE};
pub use crate::vocabulary::{Type, Stability, Since, ConfigKeyRef, Deprecation, DeprecationInfo};
pub use crate::version::Version;
pub use crate::date::ReviewDate;
pub use crate::from_raw::{FromRaw, Tristate, LogLevel};
pub use crate::source::EnvSource;
pub use crate::invocation::{Invocation, Resolution, Resolved, Source};
pub use crate::lint::{lint, lint_env, Finding, Severity};
pub use crate::unique::check_unique;
