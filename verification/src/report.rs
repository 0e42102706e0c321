//! What the command-line tool reports for each command: the lines it prints
//! on each stream and whether the command failed. Reading files and printing
//! stay with the caller.
use vstd::prelude::*;
use crate::text::{views, joined, owned, owned_all, cat, join, str_eq, push_char, push_decimal, decimal};
use crate::record::Record;
use crate::lint::{Finding, Severity, finding_views, finding_text, spec_severity};
use crate::document::{DocumentFacts, document_problems, document_notices, validate_document, unrecognised_fields, opt_text};

verus! {

/// The outcome of a command: what it prints on each stream, in order, and
/// whether it failed.
pub struct Report {
    /// Lines for standard output.
    pub stdout: Vec<String>,
    /// Lines for standard error.
    pub stderr: Vec<String>,
    /// Whether the command failed.
    pub failed: bool,
}

/// Each of `lines` behind `prefix`.
pub open spec fn prefixed(prefix: Seq<char>, lines: Seq<Seq<char>>) -> Seq<Seq<char>> {
    lines.map_values(|l: Seq<char>| prefix + l)
}

/// How many entries a document's `inputs` holds.
pub open spec fn input_count(doc: DocumentFacts) -> nat {
    match doc.inputs {
        Some(v) => v@.len(),
        None => 0,
    }
}

/// For a document read from `path`: every unrecognised field, then every
/// problem, behind `<path>: ` on standard error; `<path>: ok (<n> inputs)` on
/// standard output when there is no problem; a failure when there is one.
pub open spec fn check_outcome(path: Seq<char>, doc: DocumentFacts, out: Seq<Seq<char>>, err: Seq<Seq<char>>, failed: bool) -> bool {
    let ps = document_problems(doc);
    let prefix = path + ": "@;
    &&& err == prefixed(prefix, document_notices(doc)) + prefixed(prefix, ps)
    &&& failed == (ps.len() > 0)
    &&& out == if ps.len() == 0 {
        seq![path + ": ok ("@ + decimal(input_count(doc)) + " inputs)"@]
    } else {
        Seq::empty()
    }
}

/// Each of `lines` behind `prefix`, as fresh strings.
fn prefix_all(prefix: &str, lines: &Vec<String>) -> (r: Vec<String>)
    ensures
        views(r@) == prefixed(prefix@, views(lines@)),
{
    let mut r: Vec<String> = Vec::new();
    let mut i: usize = 0;
    while i < lines.len()
        invariant
            i <= lines@.len(),
            views(r@) == prefixed(prefix@, views(lines@.take(i as int))),
        decreases lines.len() - i,
    {
        let ghost before = r@;
        r.push(cat(prefix, lines[i].as_str()));
        proof {
            assert(views(r@) =~= views(before).push(prefix@ + lines@[i as int]@));
            assert(prefixed(prefix@, views(lines@.take(i + 1))) =~= prefixed(prefix@, views(lines@.take(i as int))).push(
                prefix@ + lines@[i as int]@,
            ));
        }
        i += 1;
    }
    assert(lines@.take(lines@.len() as int) =~= lines@);
    r
}

/// Check one contract document read from `path`.
pub fn check_report(path: &str, doc: &DocumentFacts) -> (r: Report)
    ensures
        check_outcome(path@, *doc, views(r.stdout@), views(r.stderr@), r.failed),
{
    let problems = validate_document(doc);
    let notes = unrecognised_fields(doc);
    let prefix = cat(path, ": ");
    let mut stderr = prefix_all(prefix.as_str(), &notes);
    let mut rest = prefix_all(prefix.as_str(), &problems);
    let ghost first = views(stderr@);
    let ghost second = views(rest@);
    stderr.append(&mut rest);
    assert(views(stderr@) =~= first + second);
    let mut stdout: Vec<String> = Vec::new();
    if problems.len() == 0 {
        let n: usize = match &doc.inputs {
            Some(v) => v.len(),
            None => 0,
        };
        let mut line = cat(path, ": ok (");
        push_decimal(&mut line, n as u64);
        line.append(" inputs)");
        stdout.push(line);
    }
    let r = Report { stdout, stderr, failed: problems.len() > 0 };
    assert(views(r.stdout@) =~= if document_problems(*doc).len() == 0 {
        seq![path@ + ": ok ("@ + decimal(input_count(*doc)) + " inputs)"@]
    } else {
        Seq::<Seq<char>>::empty()
    });
    r
}

/// The line a finding is reported on: `error: ` or `warning: ` by its
/// severity, then its text.
pub open spec fn finding_line(f: crate::lint::FindingView) -> Seq<char> {
    match spec_severity(f) {
        Severity::Error => "error: "@ + finding_text(f),
        Severity::Warning => "warning: "@ + finding_text(f),
    }
}

/// Whether any finding is an error.
pub open spec fn any_error(fs: Seq<crate::lint::FindingView>) -> bool {
    exists|i: int| 0 <= i < fs.len() && spec_severity(#[trigger] fs[i]) == Severity::Error
}

/// Nothing to report when the invocation satisfies the `declared` inputs;
/// otherwise every finding on standard error, failing when any is an error.
pub open spec fn lint_outcome(fs: Seq<crate::lint::FindingView>, declared: nat, out: Seq<Seq<char>>, err: Seq<Seq<char>>, failed: bool) -> bool {
    if fs.len() == 0 {
        &&& out == seq!["invocation satisfies "@ + decimal(declared) + " declared inputs"@]
        &&& err.len() == 0
        &&& !failed
    } else {
        &&& out.len() == 0
        &&& err == fs.map_values(|f: crate::lint::FindingView| finding_line(f))
        &&& failed == any_error(fs)
    }
}

/// Report the findings of checking an invocation against a contract that
/// declares `declared` inputs.
pub fn lint_report(findings: &[Finding], declared: usize) -> (r: Report)
    ensures
        lint_outcome(finding_views(findings@), declared as nat, views(r.stdout@), views(r.stderr@), r.failed),
{
    let ghost fs = finding_views(findings@);
    if findings.len() == 0 {
        let mut line = owned("invocation satisfies ");
        push_decimal(&mut line, declared as u64);
        line.append(" declared inputs");
        let mut stdout: Vec<String> = Vec::new();
        stdout.push(line);
        let r = Report { stdout, stderr: Vec::new(), failed: false };
        assert(views(r.stdout@) =~= seq!["invocation satisfies "@ + decimal(declared as nat) + " declared inputs"@]);
        assert(views(r.stderr@) =~= Seq::<Seq<char>>::empty());
        return r;
    }
    let mut stderr: Vec<String> = Vec::new();
    let mut errors: usize = 0;
    let mut i: usize = 0;
    while i < findings.len()
        invariant
            i <= findings@.len(),
            fs == finding_views(findings@),
            fs.len() == findings@.len(),
            views(stderr@) == fs.take(i as int).map_values(|f: crate::lint::FindingView| finding_line(f)),
            errors <= i,
            (errors > 0) == (exists|j: int| 0 <= j < i && spec_severity(#[trigger] fs[j]) == Severity::Error),
        decreases findings.len() - i,
    {
        let f = &findings[i];
        assert(fs[i as int] == f@);
        let text = f.to_string();
        let line = match f.severity() {
            Severity::Error => {
                errors += 1;
                cat("error: ", text.as_str())
            },
            Severity::Warning => cat("warning: ", text.as_str()),
        };
        let ghost before = stderr@;
        stderr.push(line);
        proof {
            assert(views(stderr@) =~= views(before).push(finding_line(fs[i as int])));
            assert(fs.take(i + 1).map_values(|f: crate::lint::FindingView| finding_line(f)) =~= fs.take(
                i as int,
            ).map_values(|f: crate::lint::FindingView| finding_line(f)).push(finding_line(fs[i as int])));
        }
        i += 1;
    }
    assert(fs.take(fs.len() as int) =~= fs);
    let r = Report { stdout: Vec::new(), stderr, failed: errors > 0 };
    assert(views(r.stdout@) =~= Seq::<Seq<char>>::empty());
    r
}


/// Where the argument vector to check starts: the index of the first `--`.
pub open spec fn dash_dash_at(args: Seq<Seq<char>>) -> Option<int> {
    if exists|i: int| 0 <= i < args.len() && args[i] == "--"@ {
        Some(choose|i: int| 0 <= i < args.len() && args[i] == "--"@ && forall|j: int| 0 <= j < i ==> args[j] != "--"@)
    } else {
        None
    }
}

/// Split the operands of `lint` at the first `--`: the contract paths before
/// it and the argument vector to check after it (empty without one).
pub fn split_lint_args(args: &[String]) -> (r: (Vec<String>, Vec<String>))
    ensures
        match dash_dash_at(views(args@)) {
            Some(i) => views(r.0@) == views(args@).take(i) && views(r.1@) == views(args@).skip(i + 1),
            None => views(r.0@) == views(args@) && r.1@.len() == 0,
        },
{
    let mut i: usize = 0;
    while i < args.len() && !str_eq(args[i].as_str(), "--")
        invariant
            i <= args@.len(),
            forall|j: int| 0 <= j < i ==> args@[j]@ != "--"@,
        decreases args.len() - i,
    {
        i += 1;
    }
    let mut paths: Vec<String> = Vec::new();
    let mut k: usize = 0;
    while k < i
        invariant
            i <= args@.len(),
            k <= i,
            views(paths@) == views(args@).take(k as int),
        decreases i - k,
    {
        let ghost before = paths@;
        paths.push(owned(args[k].as_str()));
        proof {
            assert(views(paths@) =~= views(before).push(args@[k as int]@));
            assert(views(paths@) =~= views(args@).take(k + 1));
        }
        k += 1;
    }
    let mut argv: Vec<String> = Vec::new();
    if i < args.len() {
        let mut k: usize = i + 1;
        while k < args.len()
            invariant
                i < args@.len(),
                i + 1 <= k <= args@.len(),
                views(argv@) == views(args@).subrange(i + 1, k as int),
            decreases args.len() - k,
        {
            let ghost before = argv@;
            argv.push(owned(args[k].as_str()));
            proof {
                assert(views(argv@) =~= views(before).push(args@[k as int]@));
                assert(views(argv@) =~= views(args@).subrange(i + 1, k + 1));
            }
            k += 1;
        }
    }
    proof {
        let vs = views(args@);
        if i < args.len() {
            assert(vs[i as int] == "--"@);
            let w = choose|w: int| 0 <= w < vs.len() && vs[w] == "--"@ && forall|j: int| 0 <= j < w ==> vs[j] != "--"@;
            assert(exists|w: int| 0 <= w < vs.len() && vs[w] == "--"@ && forall|j: int| 0 <= j < w ==> vs[j] != "--"@);
            assert(w == i) by {
                if w < i {
                    assert(vs[w] == args@[w]@);
                } else if w > i {
                    assert(vs[i as int] == "--"@);
                }
            }
            assert(views(argv@) =~= vs.skip(i + 1));
        } else {
            assert(!exists|w: int| 0 <= w < vs.len() && vs[w] == "--"@) by {
                if exists|w: int| 0 <= w < vs.len() && vs[w] == "--"@ {
                    let w = choose|w: int| 0 <= w < vs.len() && vs[w] == "--"@;
                    assert(vs[w] == args@[w]@);
                }
            }
            assert(vs.take(i as int) =~= vs);
        }
    }
    (paths, argv)
}

/// `out` is `rec` with its `source` filled in with `src` when it has none.
pub open spec fn stamped(out: Record, rec: Record, src: Seq<char>) -> bool {
    match rec.source {
        Some(_) => out == rec,
        None => {
            &&& out == (Record { source: out.source, ..rec })
            &&& out.source matches Some(s) && s@ == src
        },
    }
}

/// Attribute records read from a document to their provenance: the
/// document's own `source` when it declares one, else the path it was read
/// from. A record that already names its source keeps it.
pub fn stamp_source(records: Vec<Record>, declared: Option<&str>, path: &str) -> (r: Vec<Record>)
    ensures
        r@.len() == records@.len(),
        forall|i: int| 0 <= i < r@.len() ==> stamped(#[trigger] r@[i], records@[i], match declared {
            Some(d) => d@,
            None => path@,
        }),
{
    let src: &str = match declared {
        Some(d) => d,
        None => path,
    };
    let ghost n = records@.len();
    let mut rest = records;
    let mut rev: Vec<Record> = Vec::new();
    while rest.len() > 0
        invariant
            rest@.len() + rev@.len() == n,
            forall|k: int| 0 <= k < rest@.len() ==> rest@[k] == records@[k],
            forall|k: int| 0 <= k < rev@.len() ==> rev@[k] == records@[n - 1 - k],
        decreases rest.len(),
    {
        let x = rest.pop().unwrap();
        rev.push(x);
    }
    let mut out: Vec<Record> = Vec::new();
    while rev.len() > 0
        invariant
            out@.len() + rev@.len() == n,
            forall|k: int| 0 <= k < rev@.len() ==> rev@[k] == records@[n - 1 - k],
            forall|k: int| 0 <= k < out@.len() ==> stamped(#[trigger] out@[k], records@[k], src@),
        decreases rev.len(),
    {
        let mut x = rev.pop().unwrap();
        assert(x == records@[out@.len() as int]);
        if x.source.is_none() {
            x.source = Some(owned(src));
        }
        out.push(x);
    }
    out
}


/// The Unicode upper-case mapping of a text, as `str::to_uppercase` gives it.
pub uninterp spec fn uppercase(s: Seq<char>) -> Seq<char>;

/// `str::to_uppercase`: the Unicode upper-case mapping of `s`, which the
/// contract leaves to that function.
#[verifier::external_body]
fn to_upper(s: &str) -> (r: String)
    ensures
        r@ == uppercase(s@),
{
    s.to_uppercase()
}

/// The order of `String`: by characters, a proper prefix first.
pub open spec fn text_lt(a: Seq<char>, b: Seq<char>) -> bool
    decreases a.len(),
{
    if a.len() == 0 {
        b.len() > 0
    } else if b.len() == 0 {
        false
    } else if a[0] != b[0] {
        (a[0] as int) < (b[0] as int)
    } else {
        text_lt(a.drop_first(), b.drop_first())
    }
}

/// Whether `a` sorts before `b`.
pub(crate) fn str_lt(a: &str, b: &str) -> (r: bool)
    ensures
        r == text_lt(a@, b@),
{
    let n = a.unicode_len();
    let m = b.unicode_len();
    let mut i: usize = 0;
    assert(a@.skip(0) =~= a@);
    assert(b@.skip(0) =~= b@);
    while i < n && i < m
        invariant
            n == a@.len(),
            m == b@.len(),
            i <= n,
            i <= m,
            text_lt(a@, b@) == text_lt(a@.skip(i as int), b@.skip(i as int)),
        decreases n - i,
    {
        let x = a.get_char(i);
        let y = b.get_char(i);
        assert(a@.skip(i as int)[0] == x && b@.skip(i as int)[0] == y);
        if x != y {
            return (x as u32) < (y as u32);
        }
        assert(a@.skip(i as int).drop_first() =~= a@.skip(i + 1));
        assert(b@.skip(i as int).drop_first() =~= b@.skip(i + 1));
        i += 1;
    }
    i == n && i < m
}

/// `g` placed in the ascending list of distinct groups `s`.
pub open spec fn insert_group(s: Seq<Seq<char>>, g: Seq<char>) -> Seq<Seq<char>>
    decreases s.len(),
{
    if s.len() == 0 {
        seq![g]
    } else if s[0] == g {
        s
    } else if text_lt(g, s[0]) {
        seq![g] + s
    } else {
        seq![s[0]] + insert_group(s.drop_first(), g)
    }
}

/// The group a record is listed under in help: its `group`, else `options`.
pub open spec fn group_of(r: Record) -> Seq<char> {
    match r.group {
        Some(g) => g@,
        None => "options"@,
    }
}

/// The groups of `rs`, each once, in ascending order.
pub open spec fn sorted_groups(rs: Seq<Record>) -> Seq<Seq<char>>
    decreases rs.len(),
{
    if rs.len() == 0 {
        Seq::empty()
    } else {
        insert_group(sorted_groups(rs.drop_last()), group_of(rs.last()))
    }
}

/// `s` left-aligned in a field of `width` characters.
pub open spec fn padded(s: Seq<char>, width: nat) -> Seq<char> {
    if s.len() >= width {
        s
    } else {
        s + Seq::new((width - s.len()) as nat, |i: int| ' ')
    }
}

/// What a help line names: the argument usage, or the environment names
/// when there is no argument binding.
pub open spec fn help_name(r: Record) -> Seq<char> {
    if r.spec_usage().len() == 0 {
        joined(r.spec_env_names(), ", "@)
    } else {
        r.spec_usage()
    }
}

/// One help line: the name in a 30-character column, then the summary.
pub open spec fn help_line(r: Record) -> Seq<char> {
    "    "@ + padded(help_name(r), 30) + " "@ + opt_text(r.summary)
}

/// The help lines of the records of group `g`, in order.
pub open spec fn group_lines(rs: Seq<Record>, g: Seq<char>) -> Seq<Seq<char>>
    decreases rs.len(),
{
    if rs.len() == 0 {
        Seq::empty()
    } else {
        group_lines(rs.drop_last(), g) + if group_of(rs.last()) == g {
            seq![help_line(rs.last())]
        } else {
            Seq::empty()
        }
    }
}

/// The sections for the groups `gs`: each a blank line, the group's name in
/// upper case, and its records' lines.
pub open spec fn sections(rs: Seq<Record>, gs: Seq<Seq<char>>) -> Seq<Seq<char>>
    decreases gs.len(),
{
    if gs.len() == 0 {
        Seq::empty()
    } else {
        sections(rs, gs.drop_last()) + seq![Seq::empty(), uppercase(gs.last())] + group_lines(rs, gs.last())
    }
}

/// The help text a contract implies: one section per group, groups in
/// ascending order.
pub open spec fn help_text(rs: Seq<Record>) -> Seq<Seq<char>> {
    sections(rs, sorted_groups(rs))
}

proof fn lemma_insert_group(s: Seq<Seq<char>>, g: Seq<char>, i: int)
    requires
        0 <= i <= s.len(),
        forall|k: int| 0 <= k < i ==> s[k] != g && !text_lt(g, #[trigger] s[k]),
        i == s.len() || s[i] == g || text_lt(g, s[i]),
    ensures
        insert_group(s, g) == if i < s.len() && s[i] == g {
            s
        } else {
            s.insert(i, g)
        },
    decreases i,
{
    if i > 0 {
        assert forall|k: int| 0 <= k < i - 1 implies s.drop_first()[k] != g && !text_lt(g, #[trigger] s.drop_first()[k]) by {
            assert(s.drop_first()[k] == s[k + 1]);
        }
        lemma_insert_group(s.drop_first(), g, i - 1);
        assert(s[0] != g && !text_lt(g, s[0]));
        if i < s.len() && s[i] == g {
            assert(seq![s[0]] + s.drop_first() =~= s);
        } else {
            assert(seq![s[0]] + s.drop_first().insert(i - 1, g) =~= s.insert(i, g));
        }
    } else {
        if s.len() > 0 && s[0] == g {
        } else if s.len() > 0 {
            assert(seq![g] + s =~= s.insert(0, g));
        } else {
            assert(seq![g] =~= s.insert(0, g));
        }
    }
}

/// Places `g` in the ascending list of distinct groups.
fn add_group(groups: &mut Vec<String>, g: &str)
    ensures
        views(final(groups)@) == insert_group(views(old(groups)@), g@),
{
    let ghost s = views(groups@);
    let mut i: usize = 0;
    while i < groups.len() && !str_eq(groups[i].as_str(), g) && !str_lt(g, groups[i].as_str())
        invariant
            i <= groups@.len(),
            s == views(groups@),
            forall|k: int| 0 <= k < i ==> s[k] != g@ && !text_lt(g@, #[trigger] s[k]),
        decreases groups.len() - i,
    {
        i += 1;
    }
    proof {
        if i < groups.len() {
            assert(s[i as int] == groups@[i as int]@);
        }
        lemma_insert_group(s, g@, i as int);
    }
    if i < groups.len() && str_eq(groups[i].as_str(), g) {
        return;
    }
    let ghost before = groups@;
    groups.insert(i, owned(g));
    assert(views(groups@) =~= s.insert(i as int, g@));
}

/// The group a record is listed under.
fn group_name(r: &Record) -> (g: &str)
    ensures
        g@ == group_of(*r),
{
    match &r.group {
        Some(g) => g.as_str(),
        None => "options",
    }
}

/// One help line for `r`.
fn help_line_of(r: &Record) -> (line: String)
    ensures
        line@ == help_line(*r),
{
    let usage = r.usage();
    let name = if usage.as_str().unicode_len() == 0 {
        let names = r.env_names();
        let owned_names = owned_all(names.as_slice());
        join(owned_names.as_slice(), ", ")
    } else {
        usage
    };
    let mut line = owned("    ");
    line.append(name.as_str());
    let len = name.as_str().unicode_len();
    let ghost start = line@;
    let mut k: usize = len;
    while k < 30
        invariant
            len == name@.len(),
            len <= k,
            k <= 30 || k == len,
            line@ == start + Seq::new((k - len) as nat, |i: int| ' '),
        decreases 30 - k,
    {
        push_char(&mut line, ' ');
        assert(start + Seq::new((k + 1 - len) as nat, |i: int| ' ') =~= start + Seq::new(
            (k - len) as nat,
            |i: int| ' ',
        ).push(' '));
        k += 1;
    }
    line.append(" ");
    match &r.summary {
        Some(s) => line.append(s.as_str()),
        None => {},
    }
    proof {
        if len >= 30 {
            assert(Seq::new((k - len) as nat, |i: int| ' ') =~= Seq::<char>::empty());
        }
        assert(line@ =~= help_line(*r));
    }
    line
}

/// The help text a contract implies, one line per element: for each group
/// in ascending order, a blank line, the group in upper case, and a line per
/// record of the group naming its usage (or its environment names) in a
/// 30-character column followed by its summary.
pub fn usage_lines(records: &[Record]) -> (lines: Vec<String>)
    ensures
        views(lines@) == help_text(records@),
{
    let mut groups: Vec<String> = Vec::new();
    let mut i: usize = 0;
    while i < records.len()
        invariant
            i <= records@.len(),
            views(groups@) == sorted_groups(records@.take(i as int)),
        decreases records.len() - i,
    {
        add_group(&mut groups, group_name(&records[i]));
        proof {
            assert(records@.take(i + 1).drop_last() =~= records@.take(i as int));
        }
        i += 1;
    }
    assert(records@.take(records@.len() as int) =~= records@);
    let ghost gs = views(groups@);
    let mut lines: Vec<String> = Vec::new();
    let mut j: usize = 0;
    while j < groups.len()
        invariant
            j <= groups@.len(),
            gs == views(groups@),
            views(lines@) == sections(records@, gs.take(j as int)),
        decreases groups.len() - j,
    {
        let g = groups[j].as_str();
        let ghost start = views(lines@);
        lines.push(String::new());
        lines.push(to_upper(g));
        let mut k: usize = 0;
        while k < records.len()
            invariant
                k <= records@.len(),
                j < gs.len(),
                g@ == gs[j as int],
                views(lines@) == start + seq![Seq::empty(), uppercase(g@)] + group_lines(records@.take(k as int), g@),
            decreases records.len() - k,
        {
            let ghost before = views(lines@);
            if str_eq(group_name(&records[k]), g) {
                lines.push(help_line_of(&records[k]));
            }
            proof {
                let t = records@.take(k + 1);
                assert(t.drop_last() =~= records@.take(k as int));
                assert(t.last() == records@[k as int]);
                let here = if group_of(records@[k as int]) == g@ {
                    seq![help_line(records@[k as int])]
                } else {
                    Seq::empty()
                };
                assert(group_lines(t, g@) == group_lines(records@.take(k as int), g@) + here);
                assert(views(lines@) =~= before + here);
                assert(views(lines@) =~= start + seq![Seq::empty(), uppercase(g@)] + group_lines(t, g@));
            }
            k += 1;
        }
        proof {
            assert(records@.take(records@.len() as int) =~= records@);
            assert(gs.take(j + 1).drop_last() =~= gs.take(j as int));
            assert(views(lines@) =~= sections(records@, gs.take(j + 1)));
        }
        j += 1;
    }
    assert(gs.take(gs.len() as int) =~= gs);
    lines
}


pub(crate) proof fn lemma_text_lt_irreflexive(a: Seq<char>)
    ensures
        !text_lt(a, a),
    decreases a.len(),
{
    if a.len() > 0 {
        lemma_text_lt_irreflexive(a.drop_first());
    }
}

pub(crate) proof fn lemma_text_lt_total(a: Seq<char>, b: Seq<char>)
    ensures
        a == b || text_lt(a, b) || text_lt(b, a),
        !(text_lt(a, b) && text_lt(b, a)),
    decreases a.len(),
{
    if a.len() > 0 && b.len() > 0 && a[0] == b[0] {
        lemma_text_lt_total(a.drop_first(), b.drop_first());
        if a.drop_first() == b.drop_first() {
            assert(a =~= b) by {
                assert forall|i: int| 0 <= i < a.len() implies a[i] == b[i] by {
                    if i > 0 {
                        assert(a[i] == a.drop_first()[i - 1]);
                        assert(b[i] == b.drop_first()[i - 1]);
                    }
                }
            }
        }
    } else if a.len() == 0 && b.len() == 0 {
        assert(a =~= b);
    }
}

pub(crate) proof fn lemma_text_lt_transitive(a: Seq<char>, b: Seq<char>, c: Seq<char>)
    requires
        text_lt(a, b),
        text_lt(b, c),
    ensures
        text_lt(a, c),
    decreases a.len(),
{
    if a.len() > 0 && b.len() > 0 && c.len() > 0 && a[0] == b[0] && b[0] == c[0] {
        lemma_text_lt_transitive(a.drop_first(), b.drop_first(), c.drop_first());
    }
}

/// Strictly ascending, so each element once.
pub open spec fn ascending(s: Seq<Seq<char>>) -> bool {
    forall|i: int, j: int| 0 <= i < j < s.len() ==> text_lt(s[i], s[j])
}

proof fn lemma_insert_group_keeps_order(s: Seq<Seq<char>>, g: Seq<char>)
    requires
        ascending(s),
    ensures
        ascending(insert_group(s, g)),
        forall|x: Seq<char>| #[trigger] insert_group(s, g).contains(x) <==> (s.contains(x) || x == g),
    decreases s.len(),
{
    let t = insert_group(s, g);
    if s.len() == 0 {
        assert(t =~= seq![g]);
        assert forall|x: Seq<char>| #[trigger] t.contains(x) <==> (s.contains(x) || x == g) by {
            if x == g {
                assert(t[0] == x);
            }
        }
    } else if s[0] == g {
        assert forall|x: Seq<char>| #[trigger] t.contains(x) <==> (s.contains(x) || x == g) by {
            if x == g {
                assert(s[0] == x);
            }
        }
    } else if text_lt(g, s[0]) {
        assert forall|i: int, j: int| 0 <= i < j < t.len() implies text_lt(t[i], t[j]) by {
            if i == 0 {
                if j > 1 {
                    lemma_text_lt_transitive(g, s[0], s[j - 1]);
                }
            } else {
                assert(t[i] == s[i - 1] && t[j] == s[j - 1]);
            }
        }
        assert forall|x: Seq<char>| t.contains(x) <==> (s.contains(x) || x == g) by {
            if t.contains(x) {
                let k = choose|k: int| 0 <= k < t.len() && t[k] == x;
                if k > 0 {
                    assert(s[k - 1] == x);
                }
            }
            if s.contains(x) {
                let k = choose|k: int| 0 <= k < s.len() && s[k] == x;
                assert(t[k + 1] == x);
            }
            if x == g {
                assert(t[0] == x);
            }
        }
    } else {
        let rest = s.drop_first();
        assert(ascending(rest)) by {
            assert forall|i: int, j: int| 0 <= i < j < rest.len() implies text_lt(rest[i], rest[j]) by {
                assert(rest[i] == s[i + 1] && rest[j] == s[j + 1]);
            }
        }
        lemma_insert_group_keeps_order(rest, g);
        let u = insert_group(rest, g);
        assert(t == seq![s[0]] + u);
        lemma_text_lt_total(g, s[0]);
        assert forall|x: Seq<char>| t.contains(x) <==> (s.contains(x) || x == g) by {
            if t.contains(x) {
                let k = choose|k: int| 0 <= k < t.len() && t[k] == x;
                if k > 0 {
                    assert(u[k - 1] == x);
                    assert(0 <= k - 1 < u.len());
                    assert(u.contains(x));
                    if rest.contains(x) {
                        let m = choose|m: int| 0 <= m < rest.len() && rest[m] == x;
                        assert(s[m + 1] == x);
                    }
                } else {
                    assert(s[0] == x);
                }
            }
            if s.contains(x) {
                let k = choose|k: int| 0 <= k < s.len() && s[k] == x;
                if k == 0 {
                    assert(t[0] == x);
                } else {
                    assert(rest[k - 1] == x);
                    assert(u.contains(x));
                    let m = choose|m: int| 0 <= m < u.len() && u[m] == x;
                    assert(t[m + 1] == x);
                }
            }
            if x == g {
                assert(insert_group(rest, g).contains(x));
                let m = choose|m: int| 0 <= m < u.len() && u[m] == x;
                assert(t[m + 1] == x);
            }
        }
        assert forall|i: int, j: int| 0 <= i < j < t.len() implies text_lt(t[i], t[j]) by {
            if i == 0 {
                let y = t[j];
                assert(u[j - 1] == y);
                assert(u.contains(y));
                assert(rest.contains(y) || y == g);
                if rest.contains(y) {
                    let m = choose|m: int| 0 <= m < rest.len() && rest[m] == y;
                    assert(s[m + 1] == y);
                }
            } else {
                assert(t[i] == u[i - 1] && t[j] == u[j - 1]);
            }
        }
    }
}

/// Help lists each group once, in ascending order, and exactly the groups the
/// records name.
pub proof fn lemma_help_groups(rs: Seq<Record>)
    ensures
        ascending(sorted_groups(rs)),
        forall|g: Seq<char>|
            sorted_groups(rs).contains(g) <==> exists|i: int| 0 <= i < rs.len() && #[trigger] group_of(rs[i]) == g,
    decreases rs.len(),
{
    if rs.len() > 0 {
        let front = rs.drop_last();
        lemma_help_groups(front);
        lemma_insert_group_keeps_order(sorted_groups(front), group_of(rs.last()));
        assert forall|g: Seq<char>|
            sorted_groups(rs).contains(g) <==> exists|i: int| 0 <= i < rs.len() && #[trigger] group_of(rs[i]) == g by {
            if sorted_groups(front).contains(g) {
                let i = choose|i: int| 0 <= i < front.len() && #[trigger] group_of(front[i]) == g;
                assert(rs[i] == front[i]);
            }
            if g == group_of(rs.last()) {
                assert(group_of(rs[rs.len() - 1]) == g);
            }
            if exists|i: int| 0 <= i < rs.len() && #[trigger] group_of(rs[i]) == g {
                let i = choose|i: int| 0 <= i < rs.len() && #[trigger] group_of(rs[i]) == g;
                if i < rs.len() - 1 {
                    assert(front[i] == rs[i]);
                }
            }
        }
    }
}

} // verus!
