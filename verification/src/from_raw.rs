//! [`FromRaw`]: how a type reads itself from a raw invocation string.
//!
//! The same trait serves both bindings: a value that arrives as
//! `--log-level warn` and one that arrives as `APP_LOG_LEVEL=warn` are the same
//! value in the same domain, and are parsed by the same code.
use vstd::prelude::*;
use crate::text::{trim, trimmed, str_eq, owned, int_text, read_int};

verus! {

/// Parse a value from the raw string an invocation carried.
///
/// Return `None` for "absent or invalid", so a malformed value can never
/// silently become a default-looking empty string.
pub trait FromRaw: Sized {
    /// The raw strings that denote a value of this type.
    spec fn accepts_raw(s: Seq<char>) -> bool;

    /// `v` is the value the raw string `s` denotes.
    spec fn denotes(s: Seq<char>, v: Self) -> bool;

    /// Parse, or `None` if the text does not denote a valid value.
    fn from_raw(s: &str) -> (r: Option<Self>)
        ensures
            r is Some <==> Self::accepts_raw(s@),
            r matches Some(v) ==> Self::denotes(s@, v),
    ;
}

/// The spellings read as `true`.
pub open spec fn is_true_word(t: Seq<char>) -> bool {
    t == "1"@ || t == "true"@ || t == "True"@ || t == "on"@ || t == "yes"@
}

/// The spellings read as `false`; an empty value is one of them.
pub open spec fn is_false_word(t: Seq<char>) -> bool {
    t == "0"@ || t == "false"@ || t == "False"@ || t == "off"@ || t == "no"@ || t == ""@
}

fn true_word(t: &str) -> (r: bool)
    ensures
        r == is_true_word(t@),
{
    str_eq(t, "1") || str_eq(t, "true") || str_eq(t, "True") || str_eq(t, "on") || str_eq(t, "yes")
}

fn false_word(t: &str) -> (r: bool)
    ensures
        r == is_false_word(t@),
{
    str_eq(t, "0") || str_eq(t, "false") || str_eq(t, "False") || str_eq(t, "off") || str_eq(t, "no")
        || str_eq(t, "")
}

impl FromRaw for bool {
    /// `1`/`true`/`True`/`on`/`yes` and `0`/`false`/`False`/`off`/`no`/empty,
    /// around any whitespace; anything else is invalid.
    open spec fn accepts_raw(s: Seq<char>) -> bool {
        is_true_word(trimmed(s)) || is_false_word(trimmed(s))
    }

    open spec fn denotes(s: Seq<char>, v: bool) -> bool {
        v == is_true_word(trimmed(s))
    }

    fn from_raw(s: &str) -> (r: Option<bool>) {
        let t = trim(s);
        proof {
            reveal_strlit("1");
            reveal_strlit("0");
            reveal_strlit("true");
            reveal_strlit("false");
            reveal_strlit("True");
            reveal_strlit("False");
            reveal_strlit("on");
            reveal_strlit("off");
            reveal_strlit("yes");
            reveal_strlit("no");
            reveal_strlit("");
        }
        if true_word(t) {
            Some(true)
        } else if false_word(t) {
            Some(false)
        } else {
            None
        }
    }
}

/// How a boolean reads, word by word (after trimming): `1`, `true`, `True`,
/// `on` and `yes` read as true; `0`, `false`, `False`, `off`, `no` and the
/// empty text read as false; no other text reads as a boolean.
pub proof fn lemma_bool_words(s: Seq<char>)
    ensures
        trimmed(s) == "1"@ || trimmed(s) == "true"@ || trimmed(s) == "True"@ || trimmed(s) == "on"@
            || trimmed(s) == "yes"@ ==> <bool as FromRaw>::accepts_raw(s) && <bool as FromRaw>::denotes(s, true),
        trimmed(s) == "0"@ || trimmed(s) == "false"@ || trimmed(s) == "False"@ || trimmed(s) == "off"@
            || trimmed(s) == "no"@ || trimmed(s) == ""@ ==> <bool as FromRaw>::accepts_raw(s)
            && <bool as FromRaw>::denotes(s, false),
        <bool as FromRaw>::accepts_raw(s) ==> (trimmed(s) == "1"@ || trimmed(s) == "true"@ || trimmed(s)
            == "True"@ || trimmed(s) == "on"@ || trimmed(s) == "yes"@ || trimmed(s) == "0"@ || trimmed(s)
            == "false"@ || trimmed(s) == "False"@ || trimmed(s) == "off"@ || trimmed(s) == "no"@
            || trimmed(s) == ""@),
{
    reveal_strlit("1");
    reveal_strlit("0");
    reveal_strlit("true");
    reveal_strlit("false");
    reveal_strlit("True");
    reveal_strlit("False");
    reveal_strlit("on");
    reveal_strlit("off");
    reveal_strlit("yes");
    reveal_strlit("no");
    reveal_strlit("");
    // A true word and a false word differ in length or in their first
    // character.
    assert("1"@[0] != "0"@[0]);
    assert("on"@[0] != "no"@[0]);
    assert("yes"@[0] != "off"@[0]);
    assert("1"@.len() == 1 && "true"@.len() == 4 && "True"@.len() == 4 && "on"@.len() == 2 && "yes"@.len() == 3);
    assert("false"@.len() == 5 && "False"@.len() == 5);
    assert(!is_true_word("0"@));
    assert(!is_true_word("false"@));
    assert(!is_true_word("False"@));
    assert(!is_true_word("off"@));
    assert(!is_true_word("no"@));
    assert(!is_true_word(""@));
}

impl FromRaw for String {
    open spec fn accepts_raw(s: Seq<char>) -> bool {
        true
    }

    open spec fn denotes(s: Seq<char>, v: String) -> bool {
        v@ == s
    }

    fn from_raw(s: &str) -> (r: Option<String>) {
        Some(owned(s))
    }
}

/// A filesystem path, carried through opaquely.
#[verifier::external_type_specification]
#[verifier::external_body]
pub struct ExPathBuf(std::path::PathBuf);

/// The path `PathBuf::from` gives for a text.
pub uninterp spec fn path_from(s: Seq<char>) -> std::path::PathBuf;

/// `PathBuf::from`: the path spelled by `s`, a function of its text alone.
#[verifier::external_body]
fn path_of(s: &str) -> (p: std::path::PathBuf)
    ensures
        p == path_from(s@),
{
    std::path::PathBuf::from(s)
}

impl FromRaw for std::path::PathBuf {
    /// An empty (or all-whitespace) value is treated as absent rather than as
    /// the current directory.
    open spec fn accepts_raw(s: Seq<char>) -> bool {
        trimmed(s).len() > 0
    }

    /// The path `PathBuf::from` gives for the value as written.
    open spec fn denotes(s: Seq<char>, v: std::path::PathBuf) -> bool {
        v == path_from(s)
    }

    fn from_raw(s: &str) -> (r: Option<std::path::PathBuf>) {
        if trim(s).unicode_len() == 0 {
            None
        } else {
            Some(path_of(s))
        }
    }
}

/// The value of an integer of type `T` spelled by `s` (around whitespace),
/// within `[lo, hi]`.
pub open spec fn int_in_range(s: Seq<char>, signed: bool, lo: int, hi: int) -> Option<int> {
    match int_text(trimmed(s), signed) {
        Some(v) => if lo <= v <= hi {
            Some(v)
        } else {
            None
        },
        None => None,
    }
}

/// Reads a trimmed integer and checks it against `[lo, hi]`.
fn raw_int(s: &str, signed: bool, lo: i128, hi: i128) -> (r: Option<i128>)
    requires
        -(u64::MAX as int) <= lo <= 0 <= hi <= u64::MAX,
    ensures
        r matches Some(v) ==> int_in_range(s@, signed, lo as int, hi as int) == Some(v as int),
        r is None ==> int_in_range(s@, signed, lo as int, hi as int) is None,
{
    let t = trim(s);
    match read_int(t, signed) {
        Some((neg, m)) => {
            let v: i128 = if neg {
                -(m as i128)
            } else {
                m as i128
            };
            if lo <= v && v <= hi {
                Some(v)
            } else {
                None
            }
        },
        None => None,
    }
}

impl FromRaw for u8 {
    open spec fn accepts_raw(s: Seq<char>) -> bool {
        int_in_range(s, false, 0, u8::MAX as int) is Some
    }

    open spec fn denotes(s: Seq<char>, v: u8) -> bool {
        int_in_range(s, false, 0, u8::MAX as int) == Some(v as int)
    }

    fn from_raw(s: &str) -> (r: Option<u8>) {
        match raw_int(s, false, 0, 255) {
            Some(v) => Some(v as u8),
            None => None,
        }
    }
}

impl FromRaw for u16 {
    open spec fn accepts_raw(s: Seq<char>) -> bool {
        int_in_range(s, false, 0, u16::MAX as int) is Some
    }

    open spec fn denotes(s: Seq<char>, v: u16) -> bool {
        int_in_range(s, false, 0, u16::MAX as int) == Some(v as int)
    }

    fn from_raw(s: &str) -> (r: Option<u16>) {
        match raw_int(s, false, 0, 65535) {
            Some(v) => Some(v as u16),
            None => None,
        }
    }
}

impl FromRaw for u32 {
    open spec fn accepts_raw(s: Seq<char>) -> bool {
        int_in_range(s, false, 0, u32::MAX as int) is Some
    }

    open spec fn denotes(s: Seq<char>, v: u32) -> bool {
        int_in_range(s, false, 0, u32::MAX as int) == Some(v as int)
    }

    fn from_raw(s: &str) -> (r: Option<u32>) {
        match raw_int(s, false, 0, 0xffff_ffff) {
            Some(v) => Some(v as u32),
            None => None,
        }
    }
}

impl FromRaw for u64 {
    open spec fn accepts_raw(s: Seq<char>) -> bool {
        int_in_range(s, false, 0, u64::MAX as int) is Some
    }

    open spec fn denotes(s: Seq<char>, v: u64) -> bool {
        int_in_range(s, false, 0, u64::MAX as int) == Some(v as int)
    }

    fn from_raw(s: &str) -> (r: Option<u64>) {
        match raw_int(s, false, 0, 0xffff_ffff_ffff_ffff) {
            Some(v) => Some(v as u64),
            None => None,
        }
    }
}

impl FromRaw for usize {
    open spec fn accepts_raw(s: Seq<char>) -> bool {
        int_in_range(s, false, 0, usize::MAX as int) is Some
    }

    open spec fn denotes(s: Seq<char>, v: usize) -> bool {
        int_in_range(s, false, 0, usize::MAX as int) == Some(v as int)
    }

    fn from_raw(s: &str) -> (r: Option<usize>) {
        match raw_int(s, false, 0, usize::MAX as i128) {
            Some(v) => Some(v as usize),
            None => None,
        }
    }
}

impl FromRaw for i8 {
    open spec fn accepts_raw(s: Seq<char>) -> bool {
        int_in_range(s, true, i8::MIN as int, i8::MAX as int) is Some
    }

    open spec fn denotes(s: Seq<char>, v: i8) -> bool {
        int_in_range(s, true, i8::MIN as int, i8::MAX as int) == Some(v as int)
    }

    fn from_raw(s: &str) -> (r: Option<i8>) {
        match raw_int(s, true, -128, 127) {
            Some(v) => Some(v as i8),
            None => None,
        }
    }
}

impl FromRaw for i16 {
    open spec fn accepts_raw(s: Seq<char>) -> bool {
        int_in_range(s, true, i16::MIN as int, i16::MAX as int) is Some
    }

    open spec fn denotes(s: Seq<char>, v: i16) -> bool {
        int_in_range(s, true, i16::MIN as int, i16::MAX as int) == Some(v as int)
    }

    fn from_raw(s: &str) -> (r: Option<i16>) {
        match raw_int(s, true, -32768, 32767) {
            Some(v) => Some(v as i16),
            None => None,
        }
    }
}

impl FromRaw for i32 {
    open spec fn accepts_raw(s: Seq<char>) -> bool {
        int_in_range(s, true, i32::MIN as int, i32::MAX as int) is Some
    }

    open spec fn denotes(s: Seq<char>, v: i32) -> bool {
        int_in_range(s, true, i32::MIN as int, i32::MAX as int) == Some(v as int)
    }

    fn from_raw(s: &str) -> (r: Option<i32>) {
        match raw_int(s, true, -0x8000_0000, 0x7fff_ffff) {
            Some(v) => Some(v as i32),
            None => None,
        }
    }
}

impl FromRaw for i64 {
    open spec fn accepts_raw(s: Seq<char>) -> bool {
        int_in_range(s, true, i64::MIN as int, i64::MAX as int) is Some
    }

    open spec fn denotes(s: Seq<char>, v: i64) -> bool {
        int_in_range(s, true, i64::MIN as int, i64::MAX as int) == Some(v as int)
    }

    fn from_raw(s: &str) -> (r: Option<i64>) {
        match raw_int(s, true, -0x8000_0000_0000_0000, 0x7fff_ffff_ffff_ffff) {
            Some(v) => Some(v as i64),
            None => None,
        }
    }
}

impl FromRaw for isize {
    open spec fn accepts_raw(s: Seq<char>) -> bool {
        int_in_range(s, true, isize::MIN as int, isize::MAX as int) is Some
    }

    open spec fn denotes(s: Seq<char>, v: isize) -> bool {
        int_in_range(s, true, isize::MIN as int, isize::MAX as int) == Some(v as int)
    }

    fn from_raw(s: &str) -> (r: Option<isize>) {
        match raw_int(s, true, isize::MIN as i128, isize::MAX as i128) {
            Some(v) => Some(v as isize),
            None => None,
        }
    }
}

/// A three-state toggle. A `bool` would be a lie when "unset" is a real,
/// distinct choice.
#[derive(Clone, Copy, PartialEq, Eq, Structural, Debug, Default)]
pub enum Tristate {
    /// Decide at runtime (the usual default).
    #[default]
    Auto,
    /// Forced on.
    On,
    /// Forced off.
    Off,
}

impl Tristate {
    /// The accepted tokens: wire this to a declaration's `allowed` so the
    /// schema and the parser can never disagree.
    pub const TOKENS: [&'static str; 3] = ["auto", "on", "off"];
}

/// The toggle a trimmed raw string denotes.
pub open spec fn spec_tristate(t: Seq<char>) -> Option<Tristate> {
    if t == "auto"@ || t == ""@ {
        Some(Tristate::Auto)
    } else if t == "on"@ || t == "1"@ || t == "true"@ || t == "yes"@ {
        Some(Tristate::On)
    } else if t == "off"@ || t == "0"@ || t == "false"@ || t == "no"@ {
        Some(Tristate::Off)
    } else {
        None
    }
}

impl FromRaw for Tristate {
    open spec fn accepts_raw(s: Seq<char>) -> bool {
        spec_tristate(trimmed(s)) is Some
    }

    open spec fn denotes(s: Seq<char>, v: Tristate) -> bool {
        spec_tristate(trimmed(s)) == Some(v)
    }

    fn from_raw(s: &str) -> (r: Option<Tristate>) {
        let t = trim(s);
        if str_eq(t, "auto") || str_eq(t, "") {
            Some(Tristate::Auto)
        } else if str_eq(t, "on") || str_eq(t, "1") || str_eq(t, "true") || str_eq(t, "yes") {
            Some(Tristate::On)
        } else if str_eq(t, "off") || str_eq(t, "0") || str_eq(t, "false") || str_eq(t, "no") {
            Some(Tristate::Off)
        } else {
            None
        }
    }
}

/// A conventional log-verbosity domain.
#[derive(Clone, Copy, PartialEq, Eq, Structural, Debug)]
pub enum LogLevel {
    /// Maximum detail.
    Trace,
    /// Developer diagnostics.
    Debug,
    /// Normal operational messages.
    Info,
    /// Recoverable problems.
    Warn,
    /// Failures only.
    Error,
    /// No logging at all (the token `none`).
    Off,
}

impl LogLevel {
    /// The accepted tokens: the single source for both parsing and `allowed`.
    pub const TOKENS: [&'static str; 6] = ["trace", "debug", "info", "warn", "error", "none"];
}

/// The level a trimmed raw string denotes, aliases included.
pub open spec fn spec_log_level(t: Seq<char>) -> Option<LogLevel> {
    if t == "trace"@ {
        Some(LogLevel::Trace)
    } else if t == "debug"@ {
        Some(LogLevel::Debug)
    } else if t == "info"@ {
        Some(LogLevel::Info)
    } else if t == "warn"@ || t == "warning"@ {
        Some(LogLevel::Warn)
    } else if t == "error"@ || t == "err"@ {
        Some(LogLevel::Error)
    } else if t == "none"@ || t == "off"@ {
        Some(LogLevel::Off)
    } else {
        None
    }
}

impl FromRaw for LogLevel {
    open spec fn accepts_raw(s: Seq<char>) -> bool {
        spec_log_level(trimmed(s)) is Some
    }

    open spec fn denotes(s: Seq<char>, v: LogLevel) -> bool {
        spec_log_level(trimmed(s)) == Some(v)
    }

    fn from_raw(s: &str) -> (r: Option<LogLevel>) {
        let t = trim(s);
        if str_eq(t, "trace") {
            Some(LogLevel::Trace)
        } else if str_eq(t, "debug") {
            Some(LogLevel::Debug)
        } else if str_eq(t, "info") {
            Some(LogLevel::Info)
        } else if str_eq(t, "warn") || str_eq(t, "warning") {
            Some(LogLevel::Warn)
        } else if str_eq(t, "error") || str_eq(t, "err") {
            Some(LogLevel::Error)
        } else if str_eq(t, "none") || str_eq(t, "off") {
            Some(LogLevel::Off)
        } else {
            None
        }
    }
}


/// The tokens are the single source for parsing and for `allowed`: each of
/// `LogLevel::TOKENS` parses, each to a level of its own, in declaration order.
pub proof fn lemma_log_level_tokens()
    ensures
        spec_log_level(trimmed(LogLevel::TOKENS@[0]@)) == Some(LogLevel::Trace),
        spec_log_level(trimmed(LogLevel::TOKENS@[1]@)) == Some(LogLevel::Debug),
        spec_log_level(trimmed(LogLevel::TOKENS@[2]@)) == Some(LogLevel::Info),
        spec_log_level(trimmed(LogLevel::TOKENS@[3]@)) == Some(LogLevel::Warn),
        spec_log_level(trimmed(LogLevel::TOKENS@[4]@)) == Some(LogLevel::Error),
        spec_log_level(trimmed(LogLevel::TOKENS@[5]@)) == Some(LogLevel::Off),
{
    reveal_strlit("trace");
    reveal_strlit("debug");
    reveal_strlit("info");
    reveal_strlit("warn");
    reveal_strlit("error");
    reveal_strlit("none");
    reveal_strlit("warning");
    reveal_strlit("err");
    reveal_strlit("off");
    let t = LogLevel::TOKENS@;
    assert(trimmed(t[0]@) == t[0]@);
    assert(trimmed(t[1]@) == t[1]@);
    assert(t[1]@[0] != "trace"@[0]);
    assert(trimmed(t[2]@) == t[2]@);
    assert(t[2]@[0] != "trace"@[0]);
    assert(t[2]@[0] != "debug"@[0]);
    assert(trimmed(t[3]@) == t[3]@);
    assert(t[3]@[0] != "trace"@[0]);
    assert(t[3]@[0] != "debug"@[0]);
    assert(t[3]@[0] != "info"@[0]);
    assert(trimmed(t[4]@) == t[4]@);
    assert(t[4]@[0] != "trace"@[0]);
    assert(t[4]@[0] != "debug"@[0]);
    assert(t[4]@[0] != "info"@[0]);
    assert(t[4]@[0] != "warn"@[0]);
    assert(t[4]@[0] != "warning"@[0]);
    assert(trimmed(t[5]@) == t[5]@);
    assert(t[5]@[0] != "trace"@[0]);
    assert(t[5]@[0] != "debug"@[0]);
    assert(t[5]@[0] != "info"@[0]);
    assert(t[5]@[0] != "warn"@[0]);
    assert(t[5]@[0] != "warning"@[0]);
    assert(t[5]@[0] != "error"@[0]);
    assert(t[5]@[0] != "err"@[0]);
}

/// Each of `Tristate::TOKENS` parses, each to a state of its own, in
/// declaration order.
pub proof fn lemma_tristate_tokens()
    ensures
        spec_tristate(trimmed(Tristate::TOKENS@[0]@)) == Some(Tristate::Auto),
        spec_tristate(trimmed(Tristate::TOKENS@[1]@)) == Some(Tristate::On),
        spec_tristate(trimmed(Tristate::TOKENS@[2]@)) == Some(Tristate::Off),
{
    reveal_strlit("auto");
    reveal_strlit("on");
    reveal_strlit("off");
    reveal_strlit("");
    reveal_strlit("1");
    reveal_strlit("true");
    reveal_strlit("yes");
    let t = Tristate::TOKENS@;
    assert(trimmed(t[0]@) == t[0]@);
    assert(trimmed(t[1]@) == t[1]@);
    assert(trimmed(t[2]@) == t[2]@);
    assert(t[1]@[0] != "auto"@[0]);
    assert(t[1]@.len() != ""@.len());
    assert(t[2]@[0] != "auto"@[0]);
    assert(t[2]@.len() != ""@.len());
    assert(t[2]@.len() != "on"@.len());
    assert(t[2]@[0] != "1"@[0]);
    assert(t[2]@[0] != "true"@[0]);
    assert(t[2]@[0] != "yes"@[0]);
}

/// The toggle and the boolean read the shared words alike: `1`, `true`,
/// `on` and `yes` read as on and as true; `0`, `false`, `off` and `no` as
/// off and as false; the toggle also reads `auto` and the empty text as
/// auto. Wherever both readers accept a non-empty text, on goes with true
/// and off with false.
pub proof fn lemma_tristate_agrees_with_bool(s: Seq<char>)
    ensures
        trimmed(s) == "1"@ || trimmed(s) == "true"@ || trimmed(s) == "on"@ || trimmed(s) == "yes"@
            ==> <Tristate as FromRaw>::denotes(s, Tristate::On) && <bool as FromRaw>::denotes(s, true),
        trimmed(s) == "0"@ || trimmed(s) == "false"@ || trimmed(s) == "off"@ || trimmed(s) == "no"@
            ==> <Tristate as FromRaw>::denotes(s, Tristate::Off) && <bool as FromRaw>::denotes(s, false),
        trimmed(s) == "auto"@ || trimmed(s) == ""@ ==> <Tristate as FromRaw>::denotes(s, Tristate::Auto),
        <Tristate as FromRaw>::accepts_raw(s) && <bool as FromRaw>::accepts_raw(s) && trimmed(s).len() > 0
            ==> (<Tristate as FromRaw>::denotes(s, Tristate::On) <==> <bool as FromRaw>::denotes(s, true))
            && (<Tristate as FromRaw>::denotes(s, Tristate::Off) <==> <bool as FromRaw>::denotes(s, false)),
{
    lemma_bool_words(s);
    reveal_strlit("auto");
    reveal_strlit("on");
    reveal_strlit("off");
    reveal_strlit("");
    reveal_strlit("1");
    reveal_strlit("0");
    reveal_strlit("true");
    reveal_strlit("false");
    reveal_strlit("yes");
    reveal_strlit("no");
    reveal_strlit("True");
    reveal_strlit("False");
    assert("auto"@.len() == 4 && "on"@.len() == 2 && "off"@.len() == 3 && ""@.len() == 0);
    assert("1"@.len() == 1 && "0"@.len() == 1 && "true"@.len() == 4 && "false"@.len() == 5);
    assert("yes"@.len() == 3 && "no"@.len() == 2 && "True"@.len() == 4 && "False"@.len() == 5);
    assert("auto"@[0] != "true"@[0] && "auto"@[0] != "True"@[0] && "true"@[0] != "True"@[0]);
    assert("on"@[0] != "no"@[0] && "off"@[0] != "yes"@[0] && "1"@[0] != "0"@[0]);
    assert("false"@[0] != "False"@[0]);
}

} // verus!
