//! Version: a parsed, ordered project version. Never a bare string.
use vstd::prelude::*;
use crate::text::{is_digit, digit_value, decimal, push_char, push_decimal, decimal_value, all_digits, lemma_decimal_value_nonneg};

verus! {

/// A project version (`major[.minor[.patch]]`).
///
/// Ordered by its components, most significant first, which makes
/// `since <= THIS_VERSION` a checkable invariant rather than a comment.
#[derive(Clone, Copy, PartialEq, Eq, Structural, PartialOrd, Ord, Debug, Hash)]
pub struct Version {
    /// Major component.
    pub major: u16,
    /// Minor component (0 when omitted).
    pub minor: u16,
    /// Patch component (0 when omitted).
    pub patch: u16,
}

/// The version of the crate currently building, `0.1.0`.
pub open spec fn spec_this_version() -> Version {
    Version { major: 0, minor: 1, patch: 0 }
}

/// The version of the crate currently building. Reference it through
/// `Since::This` for an input added *now*, instead of hardcoding a number
/// that would silently drift.
pub fn this_version() -> (v: Version)
    ensures
        v == spec_this_version(),
{
    Version { major: 0, minor: 1, patch: 0 }
}

/// A character that ends the numeric core of a version: the start of a
/// pre-release (`-`) or build (`+`) suffix.
pub open spec fn is_suffix_mark(c: char) -> bool {
    c == '-' || c == '+'
}

/// The length of the numeric core: everything before the first `-` or `+`.
pub open spec fn core_len(s: Seq<char>) -> nat
    decreases s.len(),
{
    if s.len() == 0 {
        0
    } else if is_suffix_mark(s[0]) {
        0
    } else {
        1 + core_len(s.drop_first())
    }
}

/// The numeric core of a version string.
pub open spec fn version_core(s: Seq<char>) -> Seq<char> {
    s.take(core_len(s) as int)
}

/// Reads a numeric core left to right, as `(components, index of the
/// component being read)`. `None` for a character that is neither a digit nor
/// a dot, a fourth component, or a component above `u16::MAX`.
pub open spec fn scan_core(s: Seq<char>) -> Option<(Seq<int>, int)>
    decreases s.len(),
{
    if s.len() == 0 {
        Some((seq![0int, 0int, 0int], 0int))
    } else {
        match scan_core(s.drop_last()) {
            None => None,
            Some((n, idx)) => {
                let c = s.last();
                if c == '.' {
                    if idx + 1 > 2 {
                        None
                    } else {
                        Some((n, idx + 1))
                    }
                } else if is_digit(c) {
                    let v = n[idx] * 10 + digit_value(c);
                    if v > u16::MAX {
                        None
                    } else {
                        Some((n.update(idx, v), idx))
                    }
                } else {
                    None
                }
            },
        }
    }
}

/// The version a numeric core denotes, if it denotes one.
pub open spec fn core_version(core: Seq<char>) -> Option<Version> {
    match scan_core(core) {
        Some((n, _)) => Some(Version { major: n[0] as u16, minor: n[1] as u16, patch: n[2] as u16 }),
        None => None,
    }
}

/// What [`Version::try_parse`] gives for `s`: the version of its numeric core,
/// when `s` and that core are non-empty.
pub open spec fn spec_try_parse(s: Seq<char>) -> Option<Version> {
    if s.len() == 0 || core_len(s) == 0 {
        None
    } else {
        core_version(version_core(s))
    }
}

/// The inputs [`Version::parse`] accepts without panicking.
pub open spec fn parse_ok(s: Seq<char>) -> bool {
    s.len() > 0 && core_version(version_core(s)) is Some
}

/// The spelling `major.minor.patch`.
pub open spec fn version_text(v: Version) -> Seq<char> {
    decimal(v.major as nat) + seq!['.'] + decimal(v.minor as nat) + seq!['.'] + decimal(
        v.patch as nat,
    )
}

/// The lexicographic order on versions, most significant component first.
pub open spec fn version_lt(a: Version, b: Version) -> bool {
    ||| a.major < b.major
    ||| a.major == b.major && a.minor < b.minor
    ||| a.major == b.major && a.minor == b.minor && a.patch < b.patch
}

proof fn lemma_scan_bounds(s: Seq<char>)
    ensures
        scan_core(s) matches Some((n, idx)) ==> n.len() == 3 && 0 <= idx <= 2 && (forall|k: int|
            0 <= k < 3 ==> 0 <= #[trigger] n[k] <= u16::MAX),
    decreases s.len(),
{
    if s.len() > 0 {
        lemma_scan_bounds(s.drop_last());
    }
}

/// A numeric core that scans holds only digits and dots.
pub proof fn lemma_scan_chars(s: Seq<char>)
    ensures
        scan_core(s) is Some ==> forall|i: int| 0 <= i < s.len() ==> s[i] == '.' || is_digit(#[trigger] s[i]),
    decreases s.len(),
{
    if s.len() > 0 {
        lemma_scan_chars(s.drop_last());
        if scan_core(s) is Some {
            assert forall|i: int| 0 <= i < s.len() implies s[i] == '.' || is_digit(#[trigger] s[i]) by {
                if i < s.len() - 1 {
                    assert(s[i] == s.drop_last()[i]);
                }
            }
        }
    }
}

pub(crate) proof fn lemma_core_len(s: Seq<char>, i: int)
    requires
        0 <= i <= s.len(),
        forall|j: int| 0 <= j < i ==> !is_suffix_mark(#[trigger] s[j]),
        i == s.len() || is_suffix_mark(s[i]),
    ensures
        core_len(s) == i,
    decreases i,
{
    if i > 0 {
        assert forall|j: int| 0 <= j < i - 1 implies !is_suffix_mark(#[trigger] s.drop_first()[j]) by {
            assert(s.drop_first()[j] == s[j + 1]);
        }
        lemma_core_len(s.drop_first(), i - 1);
    }
}

/// Scans the numeric core of `s`, returning the version, or `None` exactly when
/// `scan_core` rejects the core.
pub(crate) fn scan(s: &str) -> (r: (Option<Version>, usize))
    ensures
        r.1 == core_len(s@),
        r.0 == core_version(version_core(s@)),
{
    let len = s.unicode_len();
    let mut n0: u16 = 0;
    let mut n1: u16 = 0;
    let mut n2: u16 = 0;
    let mut idx: usize = 0;
    let mut i: usize = 0;
    let mut ok = true;
    while i < len
        invariant
            len == s@.len(),
            i <= len,
            forall|j: int| 0 <= j < i ==> !is_suffix_mark(#[trigger] s@[j]),
            ok ==> scan_core(s@.take(i as int)) == Some((seq![n0 as int, n1 as int, n2 as int], idx as int)),
            !ok ==> scan_core(s@.take(i as int)) is None,
        ensures
            i <= len,
            i == len || is_suffix_mark(s@[i as int]),
            forall|j: int| 0 <= j < i ==> !is_suffix_mark(#[trigger] s@[j]),
            ok ==> scan_core(s@.take(i as int)) == Some((seq![n0 as int, n1 as int, n2 as int], idx as int)),
            !ok ==> scan_core(s@.take(i as int)) is None,
        decreases len - i,
    {
        let c = s.get_char(i);
        if c == '-' || c == '+' {
            break;
        }
        assert(s@.take(i + 1).drop_last() =~= s@.take(i as int));
        proof {
            lemma_scan_bounds(s@.take(i as int));
        }
        if ok {
            if c == '.' {
                if idx + 1 > 2 {
                    ok = false;
                } else {
                    idx += 1;
                }
            } else if '0' <= c && c <= '9' {
                let d: u32 = (c as u32) - 48;
                let cur: u32 = if idx == 0 { n0 as u32 } else if idx == 1 { n1 as u32 } else { n2 as u32 };
                let v: u32 = cur * 10 + d;
                if v > 65535 {
                    ok = false;
                } else if idx == 0 {
                    n0 = v as u16;
                } else if idx == 1 {
                    n1 = v as u16;
                } else {
                    n2 = v as u16;
                }
                proof {
                    let nn = seq![n0 as int, n1 as int, n2 as int];
                    assert(ok ==> nn =~= seq![0int, 0, 0].update(0, 0).update(0, nn[0]).update(1, nn[1]).update(2, nn[2]));
                }
            } else {
                ok = false;
            }
        }
        proof {
            let nn = seq![n0 as int, n1 as int, n2 as int];
            if ok {
                let prev = scan_core(s@.take(i as int));
                assert(prev is Some);
                let (pn, pidx) = prev.unwrap();
                assert(s@.take(i + 1).last() == c);
                if c != '.' {
                    assert(pn.update(pidx, pn[pidx] * 10 + digit_value(c)) =~= nn);
                }
            }
        }
        i += 1;
    }
    proof {
        lemma_core_len(s@, i as int);
    }
    if ok {
        (Some(Version { major: n0, minor: n1, patch: n2 }), i)
    } else {
        (None, i)
    }
}

impl Version {
    /// Parse `major[.minor[.patch]]`.
    ///
    /// A semantic-version pre-release or build suffix (`0.2.0-rc1`, `1.0.0+d34d`)
    /// is accepted and ignored: only the numeric core is retained, so ordering
    /// compares releases rather than release-candidate labels.
    ///
    /// The input must be non-empty, and its numeric core may hold only digits
    /// and at most two dots, with no component above `u16::MAX`.
    pub fn parse(s: &str) -> (v: Version)
        requires
            parse_ok(s@),
        ensures
            Some(v) == core_version(version_core(s@)),
    {
        let (r, _) = scan(s);
        r.unwrap()
    }

    /// Fallible runtime parse (for data read from JSON rather than authored).
    ///
    /// Accepts and ignores a pre-release or build suffix, as [`Version::parse`] does.
    pub fn try_parse(s: &str) -> (v: Option<Version>)
        ensures
            v == spec_try_parse(s@),
    {
        let (r, core) = scan(s);
        if core == 0 {
            None
        } else {
            r
        }
    }

    /// The spelling `major.minor.patch`, e.g. `2.1.0`.
    pub fn to_string(&self) -> (t: String)
        ensures
            t@ == version_text(*self),
    {
        let mut t = String::new();
        push_decimal(&mut t, self.major as u64);
        push_char(&mut t, '.');
        push_decimal(&mut t, self.minor as u64);
        push_char(&mut t, '.');
        push_decimal(&mut t, self.patch as u64);
        t
    }

    /// Whether `self` is an earlier release than `other`.
    pub fn is_before(&self, other: &Version) -> (r: bool)
        ensures
            r == version_lt(*self, *other),
    {
        self.major < other.major || (self.major == other.major && (self.minor < other.minor || (
        self.minor == other.minor && self.patch < other.patch)))
    }
}


/// A pre-release or build suffix is ignored: `core-label` and `core+build`
/// read as `core` does, so a tagged candidate still builds.
pub proof fn lemma_suffix_ignored(core: Seq<char>, mark: char, suffix: Seq<char>)
    requires
        forall|i: int| 0 <= i < core.len() ==> !is_suffix_mark(#[trigger] core[i]),
        is_suffix_mark(mark),
    ensures
        spec_try_parse(core + seq![mark] + suffix) == spec_try_parse(core),
{
    let s = core + seq![mark] + suffix;
    assert forall|j: int| 0 <= j < core.len() implies !is_suffix_mark(#[trigger] s[j]) by {
        assert(s[j] == core[j]);
    }
    assert(s[core.len() as int] == mark);
    lemma_core_len(s, core.len() as int);
    lemma_core_len(core, core.len() as int);
    assert(s.take(core.len() as int) =~= core);
    assert(core.take(core.len() as int) =~= core);
}


/// Scanning a run of digits into a component that is still zero sets it to
/// the run's value.
proof fn lemma_scan_digits(p: Seq<char>, d: Seq<char>, n: Seq<int>, idx: int)
    requires
        scan_core(p) == Some((n, idx)),
        0 <= idx < n.len(),
        n[idx] == 0,
        crate::text::all_digits(d),
        crate::text::decimal_value(d) <= u16::MAX,
    ensures
        scan_core(p + d) == Some((n.update(idx, crate::text::decimal_value(d)), idx)),
    decreases d.len(),
{
    if d.len() == 0 {
        assert(p + d =~= p);
        assert(n.update(idx, 0) =~= n);
    } else {
        let front = d.drop_last();
        assert(crate::text::all_digits(front)) by {
            assert forall|i: int| 0 <= i < front.len() implies crate::text::is_digit(#[trigger] front[i]) by {
                assert(front[i] == d[i]);
            }
        }
        crate::text::lemma_decimal_value_nonneg(front);
        assert(is_digit(d[d.len() - 1]));
        lemma_scan_digits(p, front, n, idx);
        assert((p + d).drop_last() =~= p + front);
        assert((p + d).last() == d.last());
        assert(n.update(idx, crate::text::decimal_value(front)).update(idx, crate::text::decimal_value(d))
            =~= n.update(idx, crate::text::decimal_value(d)));
    }
}

/// The spelling of a version reads back as the same version.
pub proof fn lemma_version_text_round_trip(v: Version)
    ensures
        spec_try_parse(version_text(v)) == Some(v),
{
    let a = decimal(v.major as nat);
    let b = decimal(v.minor as nat);
    let c = decimal(v.patch as nat);
    crate::text::lemma_decimal(v.major as nat);
    crate::text::lemma_decimal(v.minor as nat);
    crate::text::lemma_decimal(v.patch as nat);
    let dot = seq!['.'];
    let z = seq![0int, 0int, 0int];
    assert(scan_core(Seq::<char>::empty()) == Some((z, 0int)));
    lemma_scan_digits(Seq::empty(), a, z, 0);
    let n1 = z.update(0, v.major as int);
    assert(Seq::<char>::empty() + a =~= a);
    let s1 = a + dot;
    assert(s1.drop_last() =~= a && s1.last() == '.');
    assert(scan_core(s1) == Some((n1, 1int)));
    lemma_scan_digits(s1, b, n1, 1);
    let n2 = n1.update(1, v.minor as int);
    let s2 = s1 + b + dot;
    assert(s2.drop_last() =~= s1 + b && s2.last() == '.');
    assert(scan_core(s2) == Some((n2, 2int)));
    lemma_scan_digits(s2, c, n2, 2);
    let n3 = n2.update(2, v.patch as int);
    let t = version_text(v);
    assert(t =~= s2 + c);
    assert(scan_core(t) == Some((n3, 2int)));
    assert forall|j: int| 0 <= j < t.len() implies !is_suffix_mark(#[trigger] t[j]) by {
        lemma_scan_chars(t);
    }
    lemma_core_len(t, t.len() as int);
    assert(t.take(t.len() as int) =~= t);
    assert(n3[0] == v.major && n3[1] == v.minor && n3[2] == v.patch);
}

/// How many `.` characters `s` holds.
pub open spec fn dot_count(s: Seq<char>) -> nat
    decreases s.len(),
{
    if s.len() == 0 {
        0
    } else {
        dot_count(s.drop_last()) + if s.last() == '.' {
            1nat
        } else {
            0nat
        }
    }
}

/// The pieces of `s` between its `.` characters, in order.
pub open spec fn components(s: Seq<char>) -> Seq<Seq<char>>
    decreases s.len(),
{
    if s.len() == 0 {
        seq![Seq::<char>::empty()]
    } else {
        let c = components(s.drop_last());
        if s.last() == '.' {
            c.push(Seq::<char>::empty())
        } else {
            c.update(c.len() - 1, c.last().push(s.last()))
        }
    }
}

/// Every piece is worth at most `u16::MAX`.
pub open spec fn components_fit(cs: Seq<Seq<char>>) -> bool {
    forall|k: int| 0 <= k < cs.len() ==> decimal_value(#[trigger] cs[k]) <= u16::MAX
}

/// Only digits and dots.
pub open spec fn digits_and_dots(s: Seq<char>) -> bool {
    forall|i: int| 0 <= i < s.len() ==> s[i] == '.' || is_digit(#[trigger] s[i])
}

proof fn lemma_scan_components(t: Seq<char>)
    requires
        digits_and_dots(t),
    ensures
        components(t).len() == dot_count(t) + 1,
        forall|k: int| 0 <= k < components(t).len() ==> all_digits(#[trigger] components(t)[k]),
        scan_core(t) is Some <==> dot_count(t) <= 2 && components_fit(components(t)),
        scan_core(t) matches Some((n, idx)) ==> idx == dot_count(t) && n.len() == 3 && forall|k: int|
            0 <= k < 3 ==> #[trigger] n[k] == if k < components(t).len() {
                decimal_value(components(t)[k])
            } else {
                0
            },
    decreases t.len(),
{
    if t.len() == 0 {
        assert(decimal_value(Seq::<char>::empty()) == 0);
        assert(components_fit(components(t)));
    } else {
        let u = t.drop_last();
        let c = t.last();
        assert(digits_and_dots(u)) by {
            assert forall|i: int| 0 <= i < u.len() implies u[i] == '.' || is_digit(#[trigger] u[i]) by {
                assert(u[i] == t[i]);
            }
        }
        assert(c == t[t.len() - 1]);
        lemma_scan_components(u);
        lemma_scan_bounds(u);
        let cu = components(u);
        let ct = components(t);
        let l = cu.len();
        if c == '.' {
            assert(ct == cu.push(Seq::<char>::empty()));
            assert(decimal_value(Seq::<char>::empty()) == 0);
            assert(all_digits(Seq::<char>::empty()));
            assert forall|k: int| 0 <= k < ct.len() implies all_digits(#[trigger] ct[k]) by {
                if k < l {
                    assert(ct[k] == cu[k]);
                }
            }
            assert(components_fit(ct) <==> components_fit(cu)) by {
                if components_fit(cu) {
                    assert forall|k: int| 0 <= k < ct.len() implies decimal_value(#[trigger] ct[k]) <= u16::MAX by {
                        if k < l {
                            assert(ct[k] == cu[k]);
                        }
                    }
                }
                if components_fit(ct) {
                    assert forall|k: int| 0 <= k < cu.len() implies decimal_value(#[trigger] cu[k]) <= u16::MAX by {
                        assert(ct[k] == cu[k]);
                    }
                }
            }
            if scan_core(t) is Some {
                let (n, idx) = scan_core(u).unwrap();
                assert forall|k: int| 0 <= k < 3 implies #[trigger] n[k] == if k < ct.len() {
                    decimal_value(ct[k])
                } else {
                    0
                } by {
                    if k < l {
                        assert(ct[k] == cu[k]);
                    }
                }
            }
        } else {
            let last = cu[l - 1];
            let grown = last.push(c);
            assert(ct == cu.update(l - 1, grown));
            assert(is_digit(c));
            assert(grown.drop_last() =~= last);
            assert(decimal_value(grown) == decimal_value(last) * 10 + digit_value(c));
            assert(all_digits(last));
            assert(all_digits(grown)) by {
                assert forall|i: int| 0 <= i < grown.len() implies is_digit(#[trigger] grown[i]) by {
                    if i < last.len() {
                        assert(grown[i] == last[i]);
                    }
                }
            }
            lemma_decimal_value_nonneg(last);
            assert(decimal_value(last) <= decimal_value(grown));
            assert forall|k: int| 0 <= k < ct.len() implies all_digits(#[trigger] ct[k]) by {
                if k < l - 1 {
                    assert(ct[k] == cu[k]);
                }
            }
            assert(components_fit(ct) <==> components_fit(cu) && decimal_value(grown) <= u16::MAX) by {
                if components_fit(cu) && decimal_value(grown) <= u16::MAX {
                    assert forall|k: int| 0 <= k < ct.len() implies decimal_value(#[trigger] ct[k]) <= u16::MAX by {
                        if k < l - 1 {
                            assert(ct[k] == cu[k]);
                        }
                    }
                }
                if components_fit(ct) {
                    assert(decimal_value(ct[l - 1]) <= u16::MAX);
                    assert forall|k: int| 0 <= k < cu.len() implies decimal_value(#[trigger] cu[k]) <= u16::MAX by {
                        if k < l - 1 {
                            assert(ct[k] == cu[k]);
                        }
                    }
                }
            }
            if scan_core(u) is Some {
                let (n, idx) = scan_core(u).unwrap();
                assert(n[idx] == decimal_value(last));
                if scan_core(t) is Some {
                    let m = n.update(idx, decimal_value(grown));
                    assert(scan_core(t) == Some((m, idx)));
                    assert forall|k: int| 0 <= k < 3 implies #[trigger] m[k] == if k < ct.len() {
                        decimal_value(ct[k])
                    } else {
                        0
                    } by {
                        if k < l - 1 {
                            assert(ct[k] == cu[k]);
                        }
                    }
                }
            }
        }
    }
}

proof fn lemma_core_len_bound(s: Seq<char>)
    ensures
        core_len(s) <= s.len(),
    decreases s.len(),
{
    if s.len() > 0 {
        lemma_core_len_bound(s.drop_first());
    }
}

/// When a version string is accepted: its numeric core (the part before the
/// first `-` or `+`) is non-empty, holds only ASCII digits and at most two
/// `.`, and each of its dot-separated parts is worth at most `u16::MAX`. The
/// parts are then the major, minor and patch numbers, a missing one being 0.
pub proof fn lemma_try_parse_shape(s: Seq<char>)
    ensures
        spec_try_parse(s) is Some <==> {
            let core = version_core(s);
            &&& core.len() > 0
            &&& digits_and_dots(core)
            &&& dot_count(core) <= 2
            &&& components_fit(components(core))
        },
        spec_try_parse(s) matches Some(v) ==> {
            let cs = components(version_core(s));
            &&& v.major == decimal_value(cs[0])
            &&& v.minor == (if cs.len() > 1 {
                decimal_value(cs[1])
            } else {
                0
            })
            &&& v.patch == (if cs.len() > 2 {
                decimal_value(cs[2])
            } else {
                0
            })
        },
{
    let core = version_core(s);
    lemma_core_len_bound(s);
    assert(core.len() == core_len(s));
    lemma_scan_chars(core);
    if digits_and_dots(core) {
        lemma_scan_components(core);
        lemma_scan_bounds(core);
        if scan_core(core) is Some {
            let (n, idx) = scan_core(core).unwrap();
            assert(n[0] == decimal_value(components(core)[0]));
            assert(n[1] == (if components(core).len() > 1 { decimal_value(components(core)[1]) } else { 0 }));
            assert(n[2] == (if components(core).len() > 2 { decimal_value(components(core)[2]) } else { 0 }));
        }
    }
}

/// Versions are ordered as `(major, minor, patch)` tuples: the order is a
/// strict total order (of two versions exactly one is earlier, unless they
/// are equal; and earlier-than is transitive), a smaller major version is
/// earlier, and with equal major (and minor) versions the order is that of
/// the minor (then patch) component.
pub proof fn lemma_version_order(a: Version, b: Version, c: Version)
    ensures
        !version_lt(a, a),
        a != b ==> (version_lt(a, b) || version_lt(b, a)),
        !(version_lt(a, b) && version_lt(b, a)),
        version_lt(a, b) && version_lt(b, c) ==> version_lt(a, c),
        a.major < b.major ==> version_lt(a, b),
        a.major == b.major ==> (a.minor < b.minor ==> version_lt(a, b)),
        a.major == b.major && a.minor == b.minor ==> (version_lt(a, b) <==> a.patch < b.patch),
{
}

} // verus!
