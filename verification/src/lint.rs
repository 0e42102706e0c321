//! Checking a real invocation against the declared contract.
//!
//! Without a declaration, a misspelled flag is an error the program never
//! sees, a misspelled variable is ignored in silence, and an out-of-domain
//! value is accepted and then misbehaves somewhere far from its cause.
use vstd::prelude::*;
use crate::text::{views, str_views, joined, owned, join, find_char};
use crate::invocation::{Source, source_text, Invocation, Resolution, ResolvedView, spec_resolve};
use crate::record::Record;
use crate::source::EnvSource;
use crate::vocabulary::DeprecationInfo;

verus! {

/// How seriously to take a [`Finding`].
#[derive(Clone, Copy, PartialEq, Eq, Structural, PartialOrd, Ord, Debug)]
pub enum Severity {
    /// Worth surfacing; safe to continue.
    Warning,
    /// The invocation does not satisfy the contract.
    Error,
}

/// Something wrong with an invocation, relative to the declared contract.
#[derive(Clone, Debug, PartialEq)]
pub enum Finding {
    /// A flag was given that no input declares.
    UnknownArg {
        /// The flag as written, dashes included.
        arg: String,
        /// The declared flag it most likely meant.
        did_you_mean: Option<String>,
    },
    /// A variable is set that no input declares, but which closely resembles
    /// one that exists.
    UnknownEnv {
        /// The variable that is set.
        name: String,
        /// The declared name it most likely meant.
        did_you_mean: String,
    },
    /// A flag that takes a value was given none.
    MissingValue {
        /// The flag as written.
        arg: String,
    },
    /// A flag that takes no value was given one.
    UnexpectedValue {
        /// The flag as written.
        arg: String,
    },
    /// A declared input received a value outside its domain.
    InvalidValue {
        /// The input's key.
        key: String,
        /// Where the offending value came from.
        source: Source,
        /// The offending raw value.
        value: String,
        /// Why it was rejected.
        reason: String,
    },
    /// A token in a list value is not among the declared tokens.
    UnknownToken {
        /// The input's key.
        key: String,
        /// The offending token.
        token: String,
        /// The tokens that are accepted.
        allowed: Vec<String>,
    },
    /// A required input was not supplied and has no default.
    MissingRequired {
        /// The input's key.
        key: String,
        /// How it could have been supplied.
        via: Vec<String>,
    },
    /// A deprecated input is in use.
    Deprecated {
        /// The input's key.
        key: String,
        /// Guidance carried by the declaration.
        guidance: String,
    },
}

/// A finding as plain values.
pub enum FindingView {
    /// See [`Finding::UnknownArg`].
    UnknownArg { arg: Seq<char>, did_you_mean: Option<Seq<char>> },
    /// See [`Finding::UnknownEnv`].
    UnknownEnv { name: Seq<char>, did_you_mean: Seq<char> },
    /// See [`Finding::MissingValue`].
    MissingValue { arg: Seq<char> },
    /// See [`Finding::UnexpectedValue`].
    UnexpectedValue { arg: Seq<char> },
    /// See [`Finding::InvalidValue`].
    InvalidValue { key: Seq<char>, source: Source, value: Seq<char>, reason: Seq<char> },
    /// See [`Finding::UnknownToken`].
    UnknownToken { key: Seq<char>, token: Seq<char>, allowed: Seq<Seq<char>> },
    /// See [`Finding::MissingRequired`].
    MissingRequired { key: Seq<char>, via: Seq<Seq<char>> },
    /// See [`Finding::Deprecated`].
    Deprecated { key: Seq<char>, guidance: Seq<char> },
}

/// The optional text of an optional string.
pub open spec fn opt_view(o: Option<String>) -> Option<Seq<char>> {
    match o {
        Some(s) => Some(s@),
        None => None,
    }
}

impl View for Finding {
    type V = FindingView;

    open spec fn view(&self) -> FindingView {
        match self {
            Finding::UnknownArg { arg, did_you_mean } => FindingView::UnknownArg {
                arg: arg@,
                did_you_mean: opt_view(*did_you_mean),
            },
            Finding::UnknownEnv { name, did_you_mean } => FindingView::UnknownEnv {
                name: name@,
                did_you_mean: did_you_mean@,
            },
            Finding::MissingValue { arg } => FindingView::MissingValue { arg: arg@ },
            Finding::UnexpectedValue { arg } => FindingView::UnexpectedValue { arg: arg@ },
            Finding::InvalidValue { key, source, value, reason } => FindingView::InvalidValue {
                key: key@,
                source: *source,
                value: value@,
                reason: reason@,
            },
            Finding::UnknownToken { key, token, allowed } => FindingView::UnknownToken {
                key: key@,
                token: token@,
                allowed: views(allowed@),
            },
            Finding::MissingRequired { key, via } => FindingView::MissingRequired {
                key: key@,
                via: views(via@),
            },
            Finding::Deprecated { key, guidance } => FindingView::Deprecated {
                key: key@,
                guidance: guidance@,
            },
        }
    }
}

/// The views of a sequence of findings.
pub open spec fn finding_views(f: Seq<Finding>) -> Seq<FindingView> {
    f.map_values(|x: Finding| x@)
}

/// How seriously a finding is taken: problems that break the contract are
/// errors; suspected typos and deprecated inputs are warnings.
pub open spec fn spec_severity(f: FindingView) -> Severity {
    match f {
        FindingView::InvalidValue { .. } | FindingView::UnknownToken { .. }
        | FindingView::MissingRequired { .. } | FindingView::MissingValue { .. }
        | FindingView::UnexpectedValue { .. } => Severity::Error,
        FindingView::UnknownArg { .. } | FindingView::UnknownEnv { .. } | FindingView::Deprecated {
            ..
        } => Severity::Warning,
    }
}

/// A finding is an error exactly when it says the invocation does not
/// satisfy the contract: an invalid value, an unknown token, a missing
/// required input, a value-taking flag with no value, or a no-value flag
/// given one. Unknown flags, near-miss variables and deprecated inputs are
/// only warnings.
pub proof fn lemma_severity_by_kind(f: FindingView)
    ensures
        spec_severity(f) == Severity::Error <==> (f is InvalidValue || f is UnknownToken || f is MissingRequired
            || f is MissingValue || f is UnexpectedValue),
        spec_severity(f) == Severity::Warning <==> (f is UnknownArg || f is UnknownEnv || f is Deprecated),
{
}

/// The human-readable report of a finding.
pub open spec fn finding_text(f: FindingView) -> Seq<char> {
    match f {
        FindingView::UnknownArg { arg, did_you_mean } => match did_you_mean {
            Some(s) => arg + " is not a declared flag; did you mean "@ + s + "?"@,
            None => arg + " is not a declared flag"@,
        },
        FindingView::UnknownEnv { name, did_you_mean } => name + " is not declared; did you mean "@
            + did_you_mean + "?"@,
        FindingView::MissingValue { arg } => arg + " needs a value"@,
        FindingView::UnexpectedValue { arg } => arg + " takes no value"@,
        FindingView::InvalidValue { key, source, value, reason } => key + " (from "@ + source_text(
            source,
        ) + ") is `"@ + value + "`, which is invalid: "@ + reason,
        FindingView::UnknownToken { key, token, allowed } => key + " contains unknown token `"@
            + token + "`; accepted: "@ + joined(allowed, ", "@),
        FindingView::MissingRequired { key, via } => if via.len() == 0 {
            key + " is required but was not supplied"@
        } else {
            key + " is required; supply it with "@ + joined(via, " or "@)
        },
        FindingView::Deprecated { key, guidance } => if guidance.len() == 0 {
            key + " is deprecated"@
        } else {
            key + " is deprecated: "@ + guidance
        },
    }
}

impl Finding {
    /// How seriously to take this finding.
    pub fn severity(&self) -> (s: Severity)
        ensures
            s == spec_severity(self@),
            s == Severity::Error <==> (self is InvalidValue || self is UnknownToken || self is MissingRequired
                || self is MissingValue || self is UnexpectedValue),
            s == Severity::Warning <==> (self is UnknownArg || self is UnknownEnv || self is Deprecated),
    {
        match self {
            Finding::InvalidValue { .. }
            | Finding::UnknownToken { .. }
            | Finding::MissingRequired { .. }
            | Finding::MissingValue { .. }
            | Finding::UnexpectedValue { .. } => Severity::Error,
            Finding::UnknownArg { .. } | Finding::UnknownEnv { .. } | Finding::Deprecated { .. } =>
                Severity::Warning,
        }
    }

    /// The human-readable report of this finding.
    pub fn to_string(&self) -> (t: String)
        ensures
            t@ == finding_text(self@),
    {
        let mut t = String::new();
        match self {
            Finding::UnknownArg { arg, did_you_mean } => {
                t.append(arg.as_str());
                match did_you_mean {
                    Some(s) => {
                        t.append(" is not a declared flag; did you mean ");
                        t.append(s.as_str());
                        t.append("?");
                    },
                    None => t.append(" is not a declared flag"),
                }
            },
            Finding::UnknownEnv { name, did_you_mean } => {
                t.append(name.as_str());
                t.append(" is not declared; did you mean ");
                t.append(did_you_mean.as_str());
                t.append("?");
            },
            Finding::MissingValue { arg } => {
                t.append(arg.as_str());
                t.append(" needs a value");
            },
            Finding::UnexpectedValue { arg } => {
                t.append(arg.as_str());
                t.append(" takes no value");
            },
            Finding::InvalidValue { key, source, value, reason } => {
                t.append(key.as_str());
                t.append(" (from ");
                t.append(source.as_str());
                t.append(") is `");
                t.append(value.as_str());
                t.append("`, which is invalid: ");
                t.append(reason.as_str());
            },
            Finding::UnknownToken { key, token, allowed } => {
                t.append(key.as_str());
                t.append(" contains unknown token `");
                t.append(token.as_str());
                t.append("`; accepted: ");
                let j = join(allowed.as_slice(), ", ");
                t.append(j.as_str());
            },
            Finding::MissingRequired { key, via } => {
                t.append(key.as_str());
                if via.len() == 0 {
                    t.append(" is required but was not supplied");
                } else {
                    t.append(" is required; supply it with ");
                    let j = join(via.as_slice(), " or ");
                    t.append(j.as_str());
                }
            },
            Finding::Deprecated { key, guidance } => {
                t.append(key.as_str());
                if guidance.as_str().unicode_len() == 0 {
                    t.append(" is deprecated");
                } else {
                    t.append(" is deprecated: ");
                    t.append(guidance.as_str());
                }
            },
        }
        t
    }
}

// ---------------------------------------------------------------------------
// Suggestions
// ---------------------------------------------------------------------------

/// The Levenshtein distance between two character sequences: the fewest
/// single-character insertions, deletions and substitutions turning one into
/// the other.
pub open spec fn levenshtein(a: Seq<char>, b: Seq<char>) -> nat
    decreases a.len() + b.len(),
{
    if a.len() == 0 {
        b.len()
    } else if b.len() == 0 {
        a.len()
    } else {
        let del = levenshtein(a.drop_last(), b) + 1;
        let ins = levenshtein(a, b.drop_last()) + 1;
        let sub = levenshtein(a.drop_last(), b.drop_last()) + if a.last() == b.last() {
            0nat
        } else {
            1nat
        };
        min3(del, ins, sub)
    }
}

/// A text is at distance zero from itself.
pub proof fn lemma_levenshtein_self(a: Seq<char>)
    ensures
        levenshtein(a, a) == 0,
    decreases a.len(),
{
    if a.len() > 0 {
        lemma_levenshtein_self(a.drop_last());
    }
}

/// The distance does not depend on which text is turned into which.
pub proof fn lemma_levenshtein_symmetric(a: Seq<char>, b: Seq<char>)
    ensures
        levenshtein(a, b) == levenshtein(b, a),
    decreases a.len() + b.len(),
{
    if a.len() > 0 && b.len() > 0 {
        lemma_levenshtein_symmetric(a.drop_last(), b);
        lemma_levenshtein_symmetric(a, b.drop_last());
        lemma_levenshtein_symmetric(a.drop_last(), b.drop_last());
    }
}

/// `b` is `a` with one character inserted, deleted or replaced.
pub open spec fn one_edit(a: Seq<char>, b: Seq<char>) -> bool {
    ||| exists|i: int, c: char| 0 <= i <= a.len() && b == #[trigger] a.insert(i, c)
    ||| exists|i: int| 0 <= i < a.len() && b == #[trigger] a.remove(i)
    ||| exists|i: int, c: char| 0 <= i < a.len() && b == #[trigger] a.update(i, c)
}

/// `p` leads from `a` to `b`, each text one edit from the one before it, so
/// in `p.len() - 1` edits.
pub open spec fn edit_path(p: Seq<Seq<char>>, a: Seq<char>, b: Seq<char>) -> bool {
    &&& p.len() > 0
    &&& p[0] == a
    &&& p.last() == b
    &&& forall|i: int| 0 <= i < p.len() - 1 ==> #[trigger] one_edit(p[i], p[i + 1])
}

/// The three ways the distance may go on from shorter texts.
proof fn lemma_levenshtein_steps(a: Seq<char>, b: Seq<char>)
    ensures
        a.len() > 0 ==> levenshtein(a, b) <= levenshtein(a.drop_last(), b) + 1,
        b.len() > 0 ==> levenshtein(a, b) <= levenshtein(a, b.drop_last()) + 1,
        a.len() > 0 && b.len() > 0 ==> levenshtein(a, b) <= levenshtein(a.drop_last(), b.drop_last())
            + if a.last() == b.last() {
            0int
        } else {
            1int
        },
{
}

/// Inserting a character into the first text moves the distance by at most one.
proof fn lemma_levenshtein_after_insert(a: Seq<char>, b: Seq<char>, i: int, x: char)
    requires
        0 <= i <= a.len(),
    ensures
        levenshtein(a, b) <= levenshtein(a.insert(i, x), b) + 1,
        levenshtein(a.insert(i, x), b) <= levenshtein(a, b) + 1,
    decreases a.len() + b.len(),
{
    let c = a.insert(i, x);
    lemma_levenshtein_steps(a, b);
    lemma_levenshtein_steps(c, b);
    if b.len() > 0 {
        let bl = b.drop_last();
        lemma_levenshtein_after_insert(a, bl, i, x);
        if i == a.len() {
            assert(c.drop_last() =~= a);
            assert(c.last() == x);
        } else {
            let al = a.drop_last();
            assert(c.drop_last() =~= al.insert(i, x));
            assert(c.last() == a.last());
            lemma_levenshtein_after_insert(al, b, i, x);
            lemma_levenshtein_after_insert(al, bl, i, x);
        }
    }
}

/// Replacing a character of the first text moves the distance by at most one.
proof fn lemma_levenshtein_after_update(a: Seq<char>, b: Seq<char>, i: int, x: char)
    requires
        0 <= i < a.len(),
    ensures
        levenshtein(a, b) <= levenshtein(a.update(i, x), b) + 1,
    decreases a.len() + b.len(),
{
    let c = a.update(i, x);
    lemma_levenshtein_steps(a, b);
    lemma_levenshtein_steps(c, b);
    if b.len() > 0 {
        let al = a.drop_last();
        let bl = b.drop_last();
        lemma_levenshtein_after_update(a, bl, i, x);
        if i == a.len() - 1 {
            assert(c.drop_last() =~= al);
        } else {
            assert(c.drop_last() =~= al.update(i, x));
            assert(c.last() == a.last());
            lemma_levenshtein_after_update(al, b, i, x);
            lemma_levenshtein_after_update(al, bl, i, x);
        }
    }
}

/// One edit of the first text moves the distance by at most one.
proof fn lemma_levenshtein_one_edit(a: Seq<char>, c: Seq<char>, b: Seq<char>)
    requires
        one_edit(a, c),
    ensures
        levenshtein(a, b) <= levenshtein(c, b) + 1,
{
    if exists|i: int, x: char| 0 <= i <= a.len() && c == #[trigger] a.insert(i, x) {
        let (i, x) = choose|i: int, x: char| 0 <= i <= a.len() && c == #[trigger] a.insert(i, x);
        lemma_levenshtein_after_insert(a, b, i, x);
    } else if exists|i: int| 0 <= i < a.len() && c == #[trigger] a.remove(i) {
        let i = choose|i: int| 0 <= i < a.len() && c == #[trigger] a.remove(i);
        assert(a =~= c.insert(i, a[i]));
        lemma_levenshtein_after_insert(c, b, i, a[i]);
    } else {
        let (i, x) = choose|i: int, x: char| 0 <= i < a.len() && c == #[trigger] a.update(i, x);
        lemma_levenshtein_after_update(a, b, i, x);
    }
}

proof fn lemma_one_edit_push(a: Seq<char>, c: Seq<char>, x: char)
    requires
        one_edit(a, c),
    ensures
        one_edit(a.push(x), c.push(x)),
{
    let ap = a.push(x);
    if exists|i: int, y: char| 0 <= i <= a.len() && c == #[trigger] a.insert(i, y) {
        let (i, y) = choose|i: int, y: char| 0 <= i <= a.len() && c == #[trigger] a.insert(i, y);
        assert(c.push(x) =~= ap.insert(i, y));
    } else if exists|i: int| 0 <= i < a.len() && c == #[trigger] a.remove(i) {
        let i = choose|i: int| 0 <= i < a.len() && c == #[trigger] a.remove(i);
        assert(c.push(x) =~= ap.remove(i));
    } else {
        let (i, y) = choose|i: int, y: char| 0 <= i < a.len() && c == #[trigger] a.update(i, y);
        assert(c.push(x) =~= ap.update(i, y));
    }
}

/// A path with a text appended to each of its texts.
proof fn lemma_path_push(p: Seq<Seq<char>>, a: Seq<char>, b: Seq<char>, x: char) -> (q: Seq<Seq<char>>)
    requires
        edit_path(p, a, b),
    ensures
        edit_path(q, a.push(x), b.push(x)),
        q.len() == p.len(),
{
    let q = Seq::new(p.len(), |j: int| p[j].push(x));
    assert forall|i: int| 0 <= i < q.len() - 1 implies #[trigger] one_edit(q[i], q[i + 1]) by {
        assert(one_edit(p[i], p[i + 1]));
        lemma_one_edit_push(p[i], p[i + 1], x);
    }
    q
}

/// A path of exactly as many edits as the distance.
proof fn lemma_edits_along(a: Seq<char>, b: Seq<char>) -> (p: Seq<Seq<char>>)
    ensures
        edit_path(p, a, b),
        p.len() == levenshtein(a, b) + 1,
    decreases a.len() + b.len(),
{
    let d = levenshtein(a, b);
    if a.len() == 0 && b.len() == 0 {
        assert(a =~= b);
        seq![a]
    } else if b.len() == 0 || (a.len() > 0 && d == levenshtein(a.drop_last(), b) + 1) {
        let al = a.drop_last();
        let q = lemma_edits_along(al, b);
        assert(al =~= a.remove(a.len() - 1));
        let p = seq![a] + q;
        assert forall|i: int| 0 <= i < p.len() - 1 implies #[trigger] one_edit(p[i], p[i + 1]) by {
            if i > 0 {
                let j = i - 1;
                assert(one_edit(q[j], q[j + 1]));
                assert(p[i] == q[j] && p[i + 1] == q[j + 1]);
            } else {
                assert(p[1] == q[0]);
            }
        }
        assert(p.last() == q.last());
        p
    } else if a.len() == 0 || d == levenshtein(a, b.drop_last()) + 1 {
        let bl = b.drop_last();
        let q = lemma_edits_along(a, bl);
        assert(b =~= bl.insert(bl.len() as int, b.last()));
        let p = q.push(b);
        assert forall|i: int| 0 <= i < p.len() - 1 implies #[trigger] one_edit(p[i], p[i + 1]) by {
            if i < q.len() - 1 {
                assert(p[i] == q[i] && p[i + 1] == q[i + 1]);
                assert(one_edit(q[i], q[i + 1]));
            } else {
                assert(p[i] == q.last() && p[i + 1] == b);
            }
        }
        p
    } else {
        let al = a.drop_last();
        let bl = b.drop_last();
        let q0 = lemma_edits_along(al, bl);
        let q = lemma_path_push(q0, al, bl, a.last());
        assert(al.push(a.last()) =~= a);
        let m = bl.push(a.last());
        if a.last() == b.last() {
            assert(m =~= b);
            q
        } else {
            assert(b =~= m.update(m.len() - 1, b.last()));
            let p = q.push(b);
            assert forall|i: int| 0 <= i < p.len() - 1 implies #[trigger] one_edit(p[i], p[i + 1]) by {
                if i < q.len() - 1 {
                    assert(p[i] == q[i] && p[i + 1] == q[i + 1]);
                    assert(one_edit(q[i], q[i + 1]));
                } else {
                    assert(p[i] == m && p[i + 1] == b);
                }
            }
            p
        }
    }
}

proof fn lemma_no_fewer_edits(p: Seq<Seq<char>>, a: Seq<char>, b: Seq<char>)
    requires
        edit_path(p, a, b),
    ensures
        levenshtein(a, b) <= p.len() - 1,
    decreases p.len(),
{
    if p.len() == 1 {
        lemma_levenshtein_self(a);
    } else {
        let q = p.drop_first();
        assert forall|i: int| 0 <= i < q.len() - 1 implies #[trigger] one_edit(q[i], q[i + 1]) by {
            let j = i + 1;
            assert(one_edit(p[j], p[j + 1]));
            assert(q[i] == p[j] && q[i + 1] == p[j + 1]);
        }
        lemma_no_fewer_edits(q, p[1], b);
        assert(one_edit(p[0], p[1]));
        lemma_levenshtein_one_edit(a, p[1], b);
    }
}

/// The distance is the fewest single-character insertions, deletions and
/// substitutions that turn `a` into `b`: some path of edits from `a` to `b`
/// takes that many, and every path takes at least that many.
pub proof fn lemma_levenshtein_fewest_edits(a: Seq<char>, b: Seq<char>, p: Seq<Seq<char>>)
    ensures
        exists|q: Seq<Seq<char>>| edit_path(q, a, b) && q.len() == levenshtein(a, b) + 1,
        edit_path(p, a, b) ==> levenshtein(a, b) <= p.len() - 1,
{
    let q = lemma_edits_along(a, b);
    assert(edit_path(q, a, b) && q.len() == levenshtein(a, b) + 1);
    if edit_path(p, a, b) {
        lemma_no_fewer_edits(p, a, b);
    }
}

/// The least of three numbers.
pub open spec fn min3(x: nat, y: nat, z: nat) -> nat {
    let m = if x <= y {
        x
    } else {
        y
    };
    if m <= z {
        m
    } else {
        z
    }
}

fn chars_of(s: &str) -> (v: Vec<char>)
    ensures
        v@ == s@,
{
    let n = s.unicode_len();
    let mut v: Vec<char> = Vec::new();
    let mut i: usize = 0;
    while i < n
        invariant
            n == s@.len(),
            i <= n,
            v@ == s@.take(i as int),
        decreases n - i,
    {
        v.push(s.get_char(i));
        assert(v@ =~= s@.take(i + 1));
        i += 1;
    }
    assert(s@.take(n as int) =~= s@);
    v
}

proof fn lemma_levenshtein_bound(a: Seq<char>, b: Seq<char>)
    ensures
        levenshtein(a, b) <= if a.len() >= b.len() {
            a.len()
        } else {
            b.len()
        },
    decreases a.len() + b.len(),
{
    if a.len() > 0 && b.len() > 0 {
        lemma_levenshtein_bound(a.drop_last(), b.drop_last());
    }
}

/// Levenshtein distance, two-row variant.
pub(crate) fn edit_distance(a: &str, b: &str) -> (d: usize)
    ensures
        d == levenshtein(a@, b@),
{
    let a = chars_of(a);
    let b = chars_of(b);
    let m = b.len();
    if a.len() == 0 {
        return m;
    }
    let mut prev: Vec<u128> = Vec::new();
    let mut cur: Vec<u128> = Vec::new();
    let mut j: usize = 0;
    while j < m
        invariant
            m == b@.len(),
            j <= m,
            prev@.len() == j,
            cur@.len() == j,
            forall|k: int| 0 <= k < j ==> prev@[k] == levenshtein(Seq::empty(), b@.take(k)),
        decreases m - j,
    {
        prev.push(j as u128);
        cur.push(0);
        j += 1;
    }
    prev.push(m as u128);
    cur.push(0);
    let mut i: usize = 0;
    while i < a.len()
        invariant
            m == b@.len(),
            i <= a@.len(),
            prev@.len() == m + 1,
            cur@.len() == m + 1,
            forall|k: int| 0 <= k <= m ==> prev@[k] == levenshtein(a@.take(i as int), b@.take(k)),
        decreases a.len() - i,
    {
        cur.set(0, (i + 1) as u128);
        proof {
            assert(b@.take(0) =~= Seq::<char>::empty());
        }
        let mut j: usize = 0;
        while j < m
            invariant
                m == b@.len(),
                i < a@.len(),
                j <= m,
                prev@.len() == m + 1,
                cur@.len() == m + 1,
                forall|k: int|
                    0 <= k <= m ==> prev@[k] == levenshtein(a@.take(i as int), b@.take(k)),
                forall|k: int|
                    0 <= k <= j ==> cur@[k] == levenshtein(a@.take(i + 1), b@.take(k)),
            decreases m - j,
        {
            proof {
                lemma_levenshtein_bound(a@.take(i as int), b@.take(j + 1));
                lemma_levenshtein_bound(a@.take(i + 1), b@.take(j as int));
                lemma_levenshtein_bound(a@.take(i as int), b@.take(j as int));
            }
            let cost: u128 = if a[i] != b[j] {
                1
            } else {
                0
            };
            let x = prev[j + 1] + 1;
            let y = cur[j] + 1;
            let z = prev[j] + cost;
            let mn = if x <= y {
                x
            } else {
                y
            };
            let v = if mn <= z {
                mn
            } else {
                z
            };
            proof {
                let aa = a@.take(i + 1);
                let bb = b@.take(j + 1);
                assert(aa.drop_last() =~= a@.take(i as int));
                assert(bb.drop_last() =~= b@.take(j as int));
                assert(aa.last() == a@[i as int]);
                assert(bb.last() == b@[j as int]);
                assert(levenshtein(aa, bb) == v);
            }
            cur.set(j + 1, v);
            j += 1;
        }
        std::mem::swap(&mut prev, &mut cur);
        i += 1;
    }
    assert(a@.take(a@.len() as int) =~= a@);
    assert(b@.take(m as int) =~= b@);
    proof {
        lemma_levenshtein_bound(a@, b@);
    }
    prev[m] as usize
}

/// The typo budget for `name`: roughly one per eight bytes, at least one and
/// at most three.
pub open spec fn typo_budget(name: Seq<char>) -> int {
    let n = (vstd::utf8::encode_utf8(name).len() as usize) / 8;
    if n < 1 {
        1
    } else if n > 3 {
        3
    } else {
        n as int
    }
}

/// The position of the closest spelling in `known` within `budget` edits,
/// the earliest among equals; `-1` when none is close enough.
pub open spec fn best_match(name: Seq<char>, known: Seq<Seq<char>>, budget: int) -> int
    decreases known.len(),
{
    if known.len() == 0 {
        -1
    } else {
        let b = best_match(name, known.drop_last(), budget);
        let d = levenshtein(name, known.last());
        if d > budget {
            b
        } else if b < 0 || d < levenshtein(name, known[b]) {
            known.len() - 1
        } else {
            b
        }
    }
}

proof fn lemma_best_match_range(name: Seq<char>, known: Seq<Seq<char>>, budget: int)
    ensures
        -1 <= best_match(name, known, budget) < known.len(),
    decreases known.len(),
{
    if known.len() > 0 {
        lemma_best_match_range(name, known.drop_last(), budget);
    }
}

/// The closest known spelling within a small edit distance, if any.
pub open spec fn spec_nearest(name: Seq<char>, known: Seq<Seq<char>>) -> Option<Seq<char>> {
    let b = best_match(name, known, typo_budget(name));
    if b < 0 {
        None
    } else {
        Some(known[b])
    }
}

/// The closest known spelling within a small edit distance, if any.
pub(crate) fn nearest(name: &str, known: &[&str]) -> (r: Option<String>)
    ensures
        opt_view(r) == spec_nearest(name@, crate::text::str_views(known@)),
{
    let q = name.len() / 8;
    let budget: usize = if q < 1 {
        1
    } else if q > 3 {
        3
    } else {
        q
    };
    let ghost kv = crate::text::str_views(known@);
    let mut best: Option<(usize, usize)> = None;
    let mut i: usize = 0;
    while i < known.len()
        invariant
            i <= known@.len(),
            kv == crate::text::str_views(known@),
            budget == typo_budget(name@),
            match best {
                Some((k, d)) => best_match(name@, kv.take(i as int), budget as int) == k as int
                    && d == levenshtein(name@, kv[k as int]) && k < i,
                None => best_match(name@, kv.take(i as int), budget as int) < 0,
            },
        decreases known.len() - i,
    {
        let d = edit_distance(name, known[i]);
        proof {
            let t = kv.take(i + 1);
            assert(t.drop_last() =~= kv.take(i as int));
            assert(t.last() == known@[i as int]@);
            match best {
                Some((k, _)) => {
                    assert(t[k as int] == kv[k as int]);
                },
                None => {},
            }
        }
        if d <= budget {
            match best {
                None => {
                    best = Some((i, d));
                },
                Some((_, bd)) => {
                    if d < bd {
                        best = Some((i, d));
                    }
                },
            }
        }
        i += 1;
    }
    assert(kv.take(known@.len() as int) =~= kv);
    match best {
        Some((k, _)) => Some(owned(known[k])),
        None => None,
    }
}


// ---------------------------------------------------------------------------
// Checking
// ---------------------------------------------------------------------------

/// The guidance a deprecated input carries: its successor when it names one,
/// else its migration prose, else nothing.
pub open spec fn guidance_text(d: DeprecationInfo) -> Seq<char> {
    match d.replaced_by {
        Some(s) => "use "@ + s@ + " instead"@,
        None => match d.migration {
            Some(m) => m@,
            None => Seq::empty(),
        },
    }
}

/// One finding for each token that is not among `allowed`.
pub open spec fn unknown_tokens(
    key: Seq<char>,
    tokens: Seq<Seq<char>>,
    allowed: Seq<Seq<char>>,
) -> Seq<FindingView>
    decreases tokens.len(),
{
    if tokens.len() == 0 {
        Seq::empty()
    } else {
        let rest = unknown_tokens(key, tokens.drop_last(), allowed);
        if allowed.contains(tokens.last()) {
            rest
        } else {
            rest.push(FindingView::UnknownToken { key, token: tokens.last(), allowed })
        }
    }
}

/// What checking one record against the resolved values finds.
///
/// A missing required input says how it could have been supplied; a declared
/// default is the program's own choice and is never judged; a supplied value
/// is checked against the domain, its list tokens against `allowed`, and a
/// deprecated input in use is reported.
pub open spec fn record_findings(r: Record, values: Map<Seq<char>, ResolvedView>) -> Seq<FindingView> {
    if !values.dom().contains(r.key@) {
        if r.required {
            seq![
                FindingView::MissingRequired {
                    key: r.key@,
                    via: r.spec_arg_labels() + r.spec_env_names(),
                },
            ]
        } else {
            Seq::empty()
        }
    } else {
        let (raw, source) = values[r.key@];
        if source == Source::Default {
            Seq::empty()
        } else {
            let invalid = match r.spec_accepts(raw) {
                Err(reason) => seq![
                    FindingView::InvalidValue { key: r.key@, source, value: raw, reason },
                ],
                Ok(_) => Seq::empty(),
            };
            let tokens = if r.allowed@.len() > 0 {
                unknown_tokens(r.key@, r.spec_tokens(raw), views(r.allowed@))
            } else {
                Seq::empty()
            };
            let dep = match r.deprecation {
                Some(d) => seq![FindingView::Deprecated { key: r.key@, guidance: guidance_text(d) }],
                None => Seq::empty(),
            };
            invalid + tokens + dep
        }
    }
}

/// What checking every record against the resolved values finds, in model
/// order.
pub open spec fn resolution_findings(
    model: Seq<Record>,
    values: Map<Seq<char>, ResolvedView>,
) -> Seq<FindingView>
    decreases model.len(),
{
    if model.len() == 0 {
        Seq::empty()
    } else {
        resolution_findings(model.drop_last(), values) + record_findings(model.last(), values)
    }
}

/// Every environment name a model declares, record by record.
pub open spec fn declared_names(model: Seq<Record>) -> Seq<Seq<char>>
    decreases model.len(),
{
    if model.len() == 0 {
        Seq::empty()
    } else {
        declared_names(model.drop_last()) + model.last().spec_env_names()
    }
}

/// The part of a name before its first `_`, when it has one.
pub open spec fn name_prefix(n: Seq<char>) -> Option<Seq<char>> {
    let u = find_char(n, '_');
    if u < n.len() {
        Some(n.take(u))
    } else {
        None
    }
}

/// Whether `name` shares its prefix with some declared name.
pub open spec fn shares_prefix(name: Seq<char>, declared: Seq<Seq<char>>) -> bool {
    match name_prefix(name) {
        Some(p) => exists|i: int| 0 <= i < declared.len() && name_prefix(declared[i]) == Some(p),
        None => false,
    }
}

/// Variables that are set but undeclared, plausibly aimed at this program (they
/// share a declared prefix), and close to a declared name. Nothing else in the
/// environment is mentioned.
pub open spec fn environment_findings(names: Seq<Seq<char>>, declared: Seq<Seq<char>>) -> Seq<
    FindingView,
>
    decreases names.len(),
{
    if names.len() == 0 {
        Seq::empty()
    } else {
        let rest = environment_findings(names.drop_last(), declared);
        let name = names.last();
        if declared.contains(name) || !shares_prefix(name, declared) {
            rest
        } else {
            match spec_nearest(name, declared) {
                Some(best) => rest.push(FindingView::UnknownEnv { name, did_you_mean: best }),
                None => rest,
            }
        }
    }
}

/// The rest of the environment is never mentioned: every finding about the
/// environment names a variable that is set, undeclared and sharing its
/// prefix with a declared name, and suggests a declared name.
pub proof fn lemma_environment_stays_quiet(names: Seq<Seq<char>>, declared: Seq<Seq<char>>)
    ensures
        forall|i: int| 0 <= i < environment_findings(names, declared).len() ==> {
            let f = #[trigger] environment_findings(names, declared)[i];
            &&& f is UnknownEnv
            &&& names.contains(f->UnknownEnv_name)
            &&& !declared.contains(f->UnknownEnv_name)
            &&& shares_prefix(f->UnknownEnv_name, declared)
            &&& declared.contains(f->UnknownEnv_did_you_mean)
        },
    decreases names.len(),
{
    if names.len() > 0 {
        let front = names.drop_last();
        lemma_environment_stays_quiet(front, declared);
        let rest = environment_findings(front, declared);
        let name = names.last();
        lemma_best_match_range(name, declared, typo_budget(name));
        assert forall|i: int| 0 <= i < environment_findings(names, declared).len() implies {
            let f = #[trigger] environment_findings(names, declared)[i];
            &&& f is UnknownEnv
            &&& names.contains(f->UnknownEnv_name)
            &&& !declared.contains(f->UnknownEnv_name)
            &&& shares_prefix(f->UnknownEnv_name, declared)
            &&& declared.contains(f->UnknownEnv_did_you_mean)
        } by {
            if i < rest.len() {
                let f = rest[i];
                assert(environment_findings(names, declared)[i] == f);
                assert(front.contains(f->UnknownEnv_name));
                let j = choose|j: int| 0 <= j < front.len() && front[j] == f->UnknownEnv_name;
                assert(names[j] == front[j]);
            } else {
                assert(names[names.len() - 1] == name);
                let b = best_match(name, declared, typo_budget(name));
                assert(declared[b] == environment_findings(names, declared)[i]->UnknownEnv_did_you_mean);
            }
        }
    }
}

proof fn lemma_unknown_tokens_kind(key: Seq<char>, tokens: Seq<Seq<char>>, allowed: Seq<Seq<char>>)
    ensures
        forall|i: int| 0 <= i < unknown_tokens(key, tokens, allowed).len()
            ==> (#[trigger] unknown_tokens(key, tokens, allowed)[i]) is UnknownToken,
    decreases tokens.len(),
{
    if tokens.len() > 0 {
        lemma_unknown_tokens_kind(key, tokens.drop_last(), allowed);
    }
}

/// What checking one input finds, in terms of the value it resolved to: a
/// missing input is reported only when it is required, and then with how it
/// could have been supplied; a default draws nothing; a supplied value is
/// reported invalid exactly when the record does not accept it, and the
/// input reported deprecated exactly when it carries deprecation details.
pub proof fn lemma_record_findings(r: Record, values: Map<Seq<char>, ResolvedView>)
    ensures
        !values.dom().contains(r.key@) ==> record_findings(r, values) == if r.required {
            seq![FindingView::MissingRequired { key: r.key@, via: r.spec_arg_labels() + r.spec_env_names() }]
        } else {
            Seq::empty()
        },
        values.dom().contains(r.key@) && values[r.key@].1 == Source::Default ==> record_findings(r, values).len() == 0,
        values.dom().contains(r.key@) && values[r.key@].1 != Source::Default ==> {
            let fs = record_findings(r, values);
            &&& (exists|i: int| 0 <= i < fs.len() && (#[trigger] fs[i]) is InvalidValue)
                <==> r.spec_accepts(values[r.key@].0) is Err
            &&& (exists|i: int| 0 <= i < fs.len() && (#[trigger] fs[i]) is Deprecated) <==> r.deprecation is Some
        },
{
    if values.dom().contains(r.key@) && values[r.key@].1 != Source::Default {
        let (raw, source) = values[r.key@];
        let fs = record_findings(r, values);
        let invalid = match r.spec_accepts(raw) {
            Err(reason) => seq![FindingView::InvalidValue { key: r.key@, source, value: raw, reason }],
            Ok(_) => Seq::<FindingView>::empty(),
        };
        let tokens = if r.allowed@.len() > 0 {
            unknown_tokens(r.key@, r.spec_tokens(raw), views(r.allowed@))
        } else {
            Seq::<FindingView>::empty()
        };
        let dep = match r.deprecation {
            Some(d) => seq![FindingView::Deprecated { key: r.key@, guidance: guidance_text(d) }],
            None => Seq::<FindingView>::empty(),
        };
        assert(fs == invalid + tokens + dep);
        lemma_unknown_tokens_kind(r.key@, r.spec_tokens(raw), views(r.allowed@));
        assert forall|i: int| 0 <= i < tokens.len() implies (#[trigger] tokens[i]) is UnknownToken by {}
        if exists|i: int| 0 <= i < fs.len() && (#[trigger] fs[i]) is InvalidValue {
            let i = choose|i: int| 0 <= i < fs.len() && (#[trigger] fs[i]) is InvalidValue;
            if i >= invalid.len() && i < invalid.len() + tokens.len() {
                assert(fs[i] == tokens[i - invalid.len()]);
            } else if i >= invalid.len() + tokens.len() {
                assert(fs[i] == dep[i - invalid.len() - tokens.len()]);
            }
        }
        if r.spec_accepts(raw) is Err {
            assert(fs[0] == invalid[0]);
        }
        if exists|i: int| 0 <= i < fs.len() && (#[trigger] fs[i]) is Deprecated {
            let i = choose|i: int| 0 <= i < fs.len() && (#[trigger] fs[i]) is Deprecated;
            if i < invalid.len() {
                assert(fs[i] == invalid[i]);
            } else if i < invalid.len() + tokens.len() {
                assert(fs[i] == tokens[i - invalid.len()]);
            }
        }
        if r.deprecation is Some {
            assert(fs[(invalid.len() + tokens.len()) as int] == dep[0]);
        }
    }
}

/// The suggestion is the first known spelling at the least edit distance, and
/// there is one exactly when some known spelling lies within the budget.
pub proof fn lemma_best_match(name: Seq<char>, known: Seq<Seq<char>>, budget: int)
    ensures
        ({
            let b = best_match(name, known, budget);
            &&& (b < 0) <==> (forall|k: int| 0 <= k < known.len() ==> levenshtein(name, #[trigger] known[k]) > budget)
            &&& b >= 0 ==> {
                &&& b < known.len()
                &&& levenshtein(name, known[b]) <= budget
                &&& forall|k: int| 0 <= k < known.len() ==> levenshtein(name, known[b]) <= levenshtein(name, #[trigger] known[k])
                &&& forall|k: int| 0 <= k < b ==> levenshtein(name, known[b]) < levenshtein(name, #[trigger] known[k])
            }
        }),
    decreases known.len(),
{
    lemma_best_match_range(name, known, budget);
    if known.len() > 0 {
        let front = known.drop_last();
        lemma_best_match(name, front, budget);
        lemma_best_match_range(name, front, budget);
        let b0 = best_match(name, front, budget);
        let last = known.len() - 1;
        assert(known[last] == known.last());
        assert forall|k: int| 0 <= k < front.len() implies front[k] == known[k] by {}
        let b = best_match(name, known, budget);
        assert forall|k: int| 0 <= k < known.len() && b >= 0 implies levenshtein(name, known[b]) <= levenshtein(name, #[trigger] known[k]) by {
            if k < front.len() {
                assert(front[k] == known[k]);
                if b0 >= 0 {
                    assert(front[b0] == known[b0]);
                }
            }
        }
        assert forall|k: int| 0 <= k < b implies levenshtein(name, known[b]) < levenshtein(name, #[trigger] known[k]) by {
            assert(front[k] == known[k]);
            if b0 >= 0 {
                assert(front[b0] == known[b0]);
            }
        }
        if b < 0 {
            assert forall|k: int| 0 <= k < known.len() implies levenshtein(name, #[trigger] known[k]) > budget by {
                if k < front.len() {
                    assert(front[k] == known[k]);
                }
            }
        }
        if b >= 0 && b0 >= 0 {
            assert(front[b0] == known[b0]);
        }
        if forall|k: int| 0 <= k < known.len() ==> levenshtein(name, #[trigger] known[k]) > budget {
            assert forall|k: int| 0 <= k < front.len() implies levenshtein(name, #[trigger] front[k]) > budget by {
                assert(front[k] == known[k]);
            }
            assert(levenshtein(name, known[last]) > budget);
        }
    }
}

/// A declared default is the program's own choice and is never judged.
pub proof fn lemma_default_never_judged(r: Record, values: Map<Seq<char>, ResolvedView>)
    requires
        values.dom().contains(r.key@),
        values[r.key@].1 == Source::Default,
    ensures
        record_findings(r, values).len() == 0,
{
}

fn push_all_findings(out: &mut Vec<Finding>, more: Vec<Finding>)
    ensures
        finding_views(final(out)@) == finding_views(old(out)@) + finding_views(more@),
{
    let mut m = more;
    let ghost orig = m@;
    out.append(&mut m);
    assert(finding_views(out@) =~= finding_views(old(out)@) + finding_views(orig));
}

proof fn lemma_views_push(s: Seq<String>, x: String)
    ensures
        views(s.push(x)) == views(s).push(x@),
{
    assert(views(s.push(x)) =~= views(s).push(x@));
}

proof fn lemma_take_push<A>(s: Seq<A>, i: int)
    requires
        0 <= i < s.len(),
    ensures
        s.take(i + 1) == s.take(i).push(s[i]),
{
    assert(s.take(i + 1) =~= s.take(i).push(s[i]));
}

proof fn lemma_finding_views_push(s: Seq<Finding>, x: Finding)
    ensures
        finding_views(s.push(x)) == finding_views(s).push(x@),
{
    assert(finding_views(s.push(x)) =~= finding_views(s).push(x@));
}

fn clone_strings(v: &Vec<String>) -> (r: Vec<String>)
    ensures
        views(r@) == views(v@),
{
    let mut r: Vec<String> = Vec::new();
    let mut i: usize = 0;
    while i < v.len()
        invariant
            i <= v@.len(),
            views(r@) == views(v@.take(i as int)),
        decreases v.len() - i,
    {
        let ghost before = r@;
        let c = owned(v[i].as_str());
        r.push(c);
        proof {
            lemma_views_push(before, c);
            lemma_take_push(v@, i as int);
            lemma_views_push(v@.take(i as int), v@[i as int]);
        }
        i += 1;
    }
    assert(v@.take(v@.len() as int) =~= v@);
    r
}

fn record_check(r: &Record, resolution: &Resolution) -> (f: Vec<Finding>)
    ensures
        finding_views(f@) == record_findings(*r, resolution.spec_values()),
{
    let mut findings: Vec<Finding> = Vec::new();
    let value = match resolution.get(r.key.as_str()) {
        Some(v) => v,
        None => {
            if r.required {
                let mut via = r.arg_labels();
                let names = r.env_names();
                let mut i: usize = 0;
                let ghost labels = views(via@);
                while i < names.len()
                    invariant
                        i <= names@.len(),
                        views(via@) == labels + str_views(names@).take(i as int),
                    decreases names.len() - i,
                {
                    let ghost before = via@;
                    let c = owned(names[i]);
                    via.push(c);
                    proof {
                        lemma_views_push(before, c);
                        lemma_take_push(str_views(names@), i as int);
                        assert(str_views(names@)[i as int] == names@[i as int]@);
                    }
                    assert(views(via@) =~= labels + str_views(names@).take(i + 1));
                    i += 1;
                }
                assert(str_views(names@).take(names@.len() as int) =~= str_views(names@));
                findings.push(Finding::MissingRequired { key: owned(r.key.as_str()), via });
                assert(finding_views(findings@) =~= record_findings(*r, resolution.spec_values()));
            } else {
                assert(finding_views(findings@) =~= Seq::empty());
            }
            return findings;
        },
    };
    // A declared default is the program's own choice; only supplied values
    // are judged.
    if value.source == Source::Default {
        assert(finding_views(findings@) =~= Seq::empty());
        return findings;
    }
    let ghost values = resolution.spec_values();
    let ghost raw = value.raw@;
    match r.accepts(value.raw.as_str()) {
        Err(reason) => {
            findings.push(
                Finding::InvalidValue {
                    key: owned(r.key.as_str()),
                    source: value.source,
                    value: owned(value.raw.as_str()),
                    reason,
                },
            );
        },
        Ok(_) => {},
    }
    let ghost invalid = finding_views(findings@);
    if r.allowed.len() > 0 {
        let tokens = r.tokens(value.raw.as_str());
        let mut i: usize = 0;
        while i < tokens.len()
            invariant
                i <= tokens@.len(),
                str_views(tokens@) == r.spec_tokens(raw),
                finding_views(findings@) == invalid + unknown_tokens(
                    r.key@,
                    str_views(tokens@).take(i as int),
                    views(r.allowed@),
                ),
            decreases tokens.len() - i,
        {
            let t = tokens[i];
            assert(str_views(tokens@).take(i + 1).drop_last() =~= str_views(tokens@).take(i as int));
            assert(str_views(tokens@).take(i + 1).last() == t@);
            if !crate::text::contains_str(r.allowed.as_slice(), t) {
                let allowed = clone_strings(&r.allowed);
                let ghost before = findings@;
                let f = Finding::UnknownToken { key: owned(r.key.as_str()), token: owned(t), allowed };
                findings.push(f);
                proof {
                    lemma_finding_views_push(before, f);
                }
                assert(finding_views(findings@) =~= invalid + unknown_tokens(
                    r.key@,
                    str_views(tokens@).take(i + 1),
                    views(r.allowed@),
                ));
            }
            i += 1;
        }
        assert(str_views(tokens@).take(tokens@.len() as int) =~= str_views(tokens@));
    } else {
        assert(finding_views(findings@) =~= invalid + Seq::empty());
    }
    let ghost with_tokens = finding_views(findings@);
    match &r.deprecation {
        Some(dep) => {
            let guidance = match &dep.replaced_by {
                Some(s) => crate::text::cat3("use ", s.as_str(), " instead"),
                None => match &dep.migration {
                    Some(m) => owned(m.as_str()),
                    None => String::new(),
                },
            };
            findings.push(Finding::Deprecated { key: owned(r.key.as_str()), guidance });
            assert(finding_views(findings@) =~= with_tokens.push(
                FindingView::Deprecated { key: r.key@, guidance: guidance_text(*dep) },
            ));
        },
        None => {
            assert(finding_views(findings@) =~= with_tokens + Seq::empty());
        },
    }
    assert(finding_views(findings@) =~= record_findings(*r, values));
    findings
}

fn check_resolution(model: &[Record], resolution: &Resolution) -> (f: Vec<Finding>)
    ensures
        finding_views(f@) == resolution_findings(model@, resolution.spec_values()),
{
    let mut findings: Vec<Finding> = Vec::new();
    let mut i: usize = 0;
    while i < model.len()
        invariant
            i <= model@.len(),
            finding_views(findings@) == resolution_findings(
                model@.take(i as int),
                resolution.spec_values(),
            ),
        decreases model.len() - i,
    {
        let more = record_check(&model[i], resolution);
        push_all_findings(&mut findings, more);
        assert(model@.take(i + 1).drop_last() =~= model@.take(i as int));
        assert(model@.take(i + 1).last() == model@[i as int]);
        i += 1;
    }
    assert(model@.take(model@.len() as int) =~= model@);
    findings
}

/// Every environment name a model declares.
fn declared(model: &[Record]) -> (d: Vec<String>)
    ensures
        views(d@) == declared_names(model@),
{
    let mut d: Vec<String> = Vec::new();
    let mut i: usize = 0;
    while i < model.len()
        invariant
            i <= model@.len(),
            views(d@) == declared_names(model@.take(i as int)),
        decreases model.len() - i,
    {
        let names = model[i].env_names();
        let ghost before = views(d@);
        let mut j: usize = 0;
        while j < names.len()
            invariant
                j <= names@.len(),
                views(d@) == before + str_views(names@).take(j as int),
            decreases names.len() - j,
        {
            let ghost prev = d@;
            let c = owned(names[j]);
            d.push(c);
            proof {
                lemma_views_push(prev, c);
                lemma_take_push(str_views(names@), j as int);
                assert(str_views(names@)[j as int] == names@[j as int]@);
            }
            assert(views(d@) =~= before + str_views(names@).take(j + 1));
            j += 1;
        }
        assert(str_views(names@).take(names@.len() as int) =~= str_views(names@));
        assert(model@.take(i + 1).drop_last() =~= model@.take(i as int));
        assert(model@.take(i + 1).last() == model@[i as int]);
        i += 1;
    }
    assert(model@.take(model@.len() as int) =~= model@);
    d
}

/// The prefix of a name, before its first `_`.
fn prefix_of(n: &str) -> (p: Option<&str>)
    ensures
        match p {
            Some(x) => name_prefix(n@) == Some(x@),
            None => name_prefix(n@) is None,
        },
{
    let len = n.unicode_len();
    let mut k: usize = 0;
    while k < len && n.get_char(k) != '_'
        invariant
            len == n@.len(),
            k <= len,
            forall|j: int| 0 <= j < k ==> n@[j] != '_',
        decreases len - k,
    {
        k += 1;
    }
    proof {
        crate::text::lemma_find_char(n@, '_', k as int);
    }
    if k < len {
        Some(n.substring_char(0, k))
    } else {
        None
    }
}

fn has_shared_prefix(name: &str, declared: &Vec<String>) -> (r: bool)
    ensures
        r == shares_prefix(name@, views(declared@)),
{
    let p = match prefix_of(name) {
        Some(p) => p,
        None => {
            return false;
        },
    };
    let mut i: usize = 0;
    while i < declared.len()
        invariant
            i <= declared@.len(),
            name_prefix(name@) == Some(p@),
            forall|j: int| 0 <= j < i ==> name_prefix(views(declared@)[j]) != Some(p@),
        decreases declared.len() - i,
    {
        let same = match prefix_of(declared[i].as_str()) {
            Some(q) => crate::text::str_eq(q, p),
            None => false,
        };
        if same {
            assert(views(declared@)[i as int] == declared@[i as int]@);
            return true;
        }
        i += 1;
    }
    false
}

fn check_environment<E: EnvSource>(model: &[Record], env: &E) -> (f: Vec<Finding>)
    ensures
        exists|ns: Seq<Seq<char>>|
            #![trigger environment_findings(ns, declared_names(model@))]
            ns.no_duplicates() && ns.to_set() == env.spec_vars().dom() && env.lists_in_order(ns) && finding_views(f@)
                == environment_findings(ns, declared_names(model@)),
{
    let declared = declared(model);
    let known = borrow_strs(&declared);
    let names = env.names();
    let ghost ns = views(names@);
    let mut findings: Vec<Finding> = Vec::new();
    let mut i: usize = 0;
    while i < names.len()
        invariant
            i <= names@.len(),
            ns == views(names@),
            views(declared@) == declared_names(model@),
            crate::text::str_views(known@) == views(declared@),
            finding_views(findings@) == environment_findings(
                ns.take(i as int),
                declared_names(model@),
            ),
        decreases names.len() - i,
    {
        let name = names[i].as_str();
        assert(ns.take(i + 1).drop_last() =~= ns.take(i as int));
        assert(ns.take(i + 1).last() == name@);
        if !crate::text::contains_str(declared.as_slice(), name) {
            // Only names plausibly aimed at this program are considered.
            if has_shared_prefix(name, &declared) {
                match nearest(name, known.as_slice()) {
                    Some(best) => {
                        findings.push(Finding::UnknownEnv { name: owned(name), did_you_mean: best });
                        assert(finding_views(findings@) =~= environment_findings(
                            ns.take(i + 1),
                            declared_names(model@),
                        ));
                    },
                    None => {},
                }
            }
        }
        i += 1;
    }
    assert(ns.take(names@.len() as int) =~= ns);
    findings
}

fn borrow_strs(v: &Vec<String>) -> (r: Vec<&str>)
    ensures
        crate::text::str_views(r@) == views(v@),
{
    let mut r: Vec<&str> = Vec::new();
    let mut i: usize = 0;
    while i < v.len()
        invariant
            i <= v@.len(),
            crate::text::str_views(r@) == views(v@.take(i as int)),
        decreases v.len() - i,
    {
        let s = v[i].as_str();
        let ghost before = r@;
        r.push(s);
        assert(r@ == before.push(s));
        assert(views(v@.take(i + 1)) =~= views(v@.take(i as int)).push(v@[i as int]@));
        assert(crate::text::str_views(r@) =~= crate::text::str_views(before).push(s@));
        i += 1;
    }
    assert(v@.take(v@.len() as int) =~= v@);
    r
}

/// What checking an invocation finds: the problems met while parsing its
/// arguments, then each record checked against the resolved values, then the
/// misspelled variables of its environment (in the order the environment
/// lists its names).
pub open spec fn lint_findings(
    model: Seq<Record>,
    args: Seq<Seq<char>>,
    vars: Map<Seq<char>, Seq<char>>,
    env_order: Seq<Seq<char>>,
) -> Seq<FindingView> {
    let (values, _, parse_findings) = spec_resolve(model, args, vars);
    parse_findings + resolution_findings(model, values) + environment_findings(
        env_order,
        declared_names(model),
    )
}

/// Check an invocation against a declared contract.
///
/// Works from [`Record`]s, so it applies equally to a model declared in this
/// crate and to a contract document published by a program in another language.
pub fn lint<E: EnvSource>(model: &[Record], invocation: &Invocation<E>) -> (f: Vec<Finding>)
    ensures
        exists|order: Seq<Seq<char>>|
            #![trigger lint_findings(model@, views(invocation.args@), invocation.env.spec_vars(), order)]
            order.no_duplicates() && order.to_set() == invocation.env.spec_vars().dom()
                && invocation.env.lists_in_order(order) && finding_views(f@) == lint_findings(
                model@,
                views(invocation.args@),
                invocation.env.spec_vars(),
                order,
            ),
{
    let resolution = invocation.resolve(model);
    let mut findings: Vec<Finding> = Vec::new();
    let first = resolution.findings();
    let mut i: usize = 0;
    while i < first.len()
        invariant
            i <= first@.len(),
            finding_views(findings@) == finding_views(first@.take(i as int)),
        decreases first.len() - i,
    {
        let ghost before = findings@;
        let c = first[i].clone_finding();
        findings.push(c);
        proof {
            lemma_finding_views_push(before, c);
            lemma_take_push(first@, i as int);
            lemma_finding_views_push(first@.take(i as int), first@[i as int]);
        }
        i += 1;
    }
    assert(first@.take(first@.len() as int) =~= first@);
    let more = check_resolution(model, &resolution);
    push_all_findings(&mut findings, more);
    let env_findings = check_environment(model, invocation.env);
    push_all_findings(&mut findings, env_findings);
    let ghost order = choose|ns: Seq<Seq<char>>|
        #![trigger environment_findings(ns, declared_names(model@))]
        ns.no_duplicates() && ns.to_set() == invocation.env.spec_vars().dom() && invocation.env.lists_in_order(ns) && finding_views(
            env_findings@,
        ) == environment_findings(ns, declared_names(model@));
    assert(finding_views(findings@) == lint_findings(
        model@,
        views(invocation.args@),
        invocation.env.spec_vars(),
        order,
    ));
    findings
}

/// Check only what an environment supplies, for programs that take no
/// arguments.
pub fn lint_env<E: EnvSource>(model: &[Record], env: &E) -> (f: Vec<Finding>)
    ensures
        exists|order: Seq<Seq<char>>|
            #![trigger lint_findings(model@, Seq::empty(), env.spec_vars(), order)]
            order.no_duplicates() && order.to_set() == env.spec_vars().dom() && env.lists_in_order(order)
                && finding_views(f@) == lint_findings(model@, Seq::empty(), env.spec_vars(), order),
{
    let invocation = Invocation::from_env(env);
    let f = lint(model, &invocation);
    assert(views(invocation.args@) =~= Seq::empty());
    f
}

impl Finding {
    /// A copy of this finding.
    pub fn clone_finding(&self) -> (c: Finding)
        ensures
            c@ == self@,
    {
        match self {
            Finding::UnknownArg { arg, did_you_mean } => Finding::UnknownArg {
                arg: owned(arg.as_str()),
                did_you_mean: match did_you_mean {
                    Some(s) => Some(owned(s.as_str())),
                    None => None,
                },
            },
            Finding::UnknownEnv { name, did_you_mean } => Finding::UnknownEnv {
                name: owned(name.as_str()),
                did_you_mean: owned(did_you_mean.as_str()),
            },
            Finding::MissingValue { arg } => Finding::MissingValue { arg: owned(arg.as_str()) },
            Finding::UnexpectedValue { arg } => Finding::UnexpectedValue { arg: owned(arg.as_str()) },
            Finding::InvalidValue { key, source, value, reason } => Finding::InvalidValue {
                key: owned(key.as_str()),
                source: *source,
                value: owned(value.as_str()),
                reason: owned(reason.as_str()),
            },
            Finding::UnknownToken { key, token, allowed } => Finding::UnknownToken {
                key: owned(key.as_str()),
                token: owned(token.as_str()),
                allowed: clone_strings(allowed),
            },
            Finding::MissingRequired { key, via } => Finding::MissingRequired {
                key: owned(key.as_str()),
                via: clone_strings(via),
            },
            Finding::Deprecated { key, guidance } => Finding::Deprecated {
                key: owned(key.as_str()),
                guidance: owned(guidance.as_str()),
            },
        }
    }
}

} // verus!
