//! Resolving an invocation: what the program was actually given, and from where.
use vstd::prelude::*;
use crate::text::{views, str_views, str_eq, find_char, owned, cat, cat3};
use crate::record::{Record, DefaultValue};
use crate::source::EnvSource;
use crate::lint::{Finding, FindingView, finding_views, opt_view, spec_nearest, nearest};
use crate::report::{text_lt, str_lt, lemma_text_lt_irreflexive, lemma_text_lt_total, lemma_text_lt_transitive};

verus! {

/// Which door a resolved value arrived through.
///
/// Carried on every resolved value because *"why is this value what it is?"*
/// is the question a precedence chain otherwise makes unanswerable.
#[derive(Clone, Copy, PartialEq, Eq, Structural, Debug)]
pub enum Source {
    /// An explicit command-line argument.
    Arg,
    /// An environment variable.
    Env,
    /// The declared default; nothing supplied a value.
    Default,
}

/// How a source is named in reports.
pub open spec fn source_text(s: Source) -> Seq<char> {
    match s {
        Source::Arg => "argument"@,
        Source::Env => "environment"@,
        Source::Default => "default"@,
    }
}

impl Source {
    /// How this source is named in reports: `argument`, `environment` or
    /// `default`.
    pub fn as_str(&self) -> (t: &'static str)
        ensures
            t@ == source_text(*self),
    {
        match self {
            Source::Arg => "argument",
            Source::Env => "environment",
            Source::Default => "default",
        }
    }
}

} // verus!

verus! {

// ---------------------------------------------------------------------------
// Looking flags up in a model
// ---------------------------------------------------------------------------

/// The long form of a record's flag, if it has one.
pub open spec fn arg_long(r: Record) -> Option<Seq<char>> {
    match r.arg {
        Some(a) => opt_view(a.long),
        None => None,
    }
}

/// The first character of a record's short flag, if it has one.
pub open spec fn arg_short_char(r: Record) -> Option<char> {
    match r.arg {
        Some(a) => match a.short {
            Some(s) => if s@.len() > 0 {
                Some(s@[0])
            } else {
                None
            },
            None => None,
        },
        None => None,
    }
}

/// How many values a record's flag takes; `1` without an argument binding.
pub open spec fn arity_of(r: Record) -> int {
    match r.arg {
        Some(a) => a.arity as int,
        None => 1,
    }
}

/// Whether `--no-<long>` is accepted.
pub open spec fn negatable_of(r: Record) -> bool {
    match r.arg {
        Some(a) => a.negatable,
        None => false,
    }
}

/// Whether the flag accumulates when repeated.
pub open spec fn repeatable_of(r: Record) -> bool {
    match r.arg {
        Some(a) => a.repeatable,
        None => false,
    }
}

/// The position of the first record whose long flag is `name`, or `-1`.
pub open spec fn long_index(model: Seq<Record>, name: Seq<char>) -> int
    decreases model.len(),
{
    if model.len() == 0 {
        -1
    } else if arg_long(model[0]) == Some(name) {
        0
    } else {
        let k = long_index(model.drop_first(), name);
        if k < 0 {
            -1
        } else {
            k + 1
        }
    }
}

/// The position of the first record whose short flag starts with `c`, or `-1`.
pub open spec fn short_index(model: Seq<Record>, c: char) -> int
    decreases model.len(),
{
    if model.len() == 0 {
        -1
    } else if arg_short_char(model[0]) == Some(c) {
        0
    } else {
        let k = short_index(model.drop_first(), c);
        if k < 0 {
            -1
        } else {
            k + 1
        }
    }
}

/// Every argument spelling declared across a model, record by record.
pub open spec fn all_labels(model: Seq<Record>) -> Seq<Seq<char>>
    decreases model.len(),
{
    if model.len() == 0 {
        Seq::empty()
    } else {
        all_labels(model.drop_last()) + model.last().spec_arg_labels()
    }
}

/// The finding for a flag no input declares, with the closest declared
/// spelling as a suggestion.
pub open spec fn unknown_arg_view(model: Seq<Record>, label: Seq<char>) -> FindingView {
    FindingView::UnknownArg { arg: label, did_you_mean: spec_nearest(label, all_labels(model)) }
}

proof fn lemma_long_index(model: Seq<Record>, name: Seq<char>)
    ensures
        -1 <= long_index(model, name) < model.len(),
        long_index(model, name) >= 0 ==> arg_long(model[long_index(model, name)]) == Some(name),
        forall|j: int|
            0 <= j < model.len() && (long_index(model, name) < 0 || j < long_index(model, name))
                ==> arg_long(#[trigger] model[j]) != Some(name),
    decreases model.len(),
{
    if model.len() > 0 {
        lemma_long_index(model.drop_first(), name);
        assert forall|j: int| 1 <= j < model.len() implies model[j] == model.drop_first()[j - 1] by {}
    }
}

proof fn lemma_short_index(model: Seq<Record>, c: char)
    ensures
        -1 <= short_index(model, c) < model.len(),
        short_index(model, c) >= 0 ==> arg_short_char(model[short_index(model, c)]) == Some(c),
        forall|j: int|
            0 <= j < model.len() && (short_index(model, c) < 0 || j < short_index(model, c))
                ==> arg_short_char(#[trigger] model[j]) != Some(c),
    decreases model.len(),
{
    if model.len() > 0 {
        lemma_short_index(model.drop_first(), c);
        assert forall|j: int| 1 <= j < model.len() implies model[j] == model.drop_first()[j - 1] by {}
    }
}

fn long_of(r: &Record) -> (l: Option<&str>)
    ensures
        match l {
            Some(s) => arg_long(*r) == Some(s@),
            None => arg_long(*r) is None,
        },
{
    match &r.arg {
        Some(a) => match &a.long {
            Some(s) => Some(s.as_str()),
            None => None,
        },
        None => None,
    }
}

fn find_long(model: &[Record], name: &str) -> (r: Option<usize>)
    ensures
        match r {
            Some(k) => k == long_index(model@, name@) && k < model@.len(),
            None => long_index(model@, name@) < 0,
        },
{
    proof {
        lemma_long_index(model@, name@);
    }
    let mut i: usize = 0;
    while i < model.len()
        invariant
            i <= model@.len(),
            forall|j: int| 0 <= j < i ==> arg_long(#[trigger] model@[j]) != Some(name@),
        decreases model.len() - i,
    {
        let hit = match long_of(&model[i]) {
            Some(l) => str_eq(l, name),
            None => false,
        };
        if hit {
            assert(arg_long(model@[i as int]) == Some(name@));
            proof {
                lemma_long_index(model@, name@);
            }
            return Some(i);
        }
        i += 1;
    }
    None
}

fn short_char_of(r: &Record) -> (c: Option<char>)
    ensures
        c == arg_short_char(*r),
{
    match &r.arg {
        Some(a) => match &a.short {
            Some(s) => if s.as_str().unicode_len() > 0 {
                Some(s.as_str().get_char(0))
            } else {
                None
            },
            None => None,
        },
        None => None,
    }
}

fn find_short(model: &[Record], c: char) -> (r: Option<usize>)
    ensures
        match r {
            Some(k) => k == short_index(model@, c) && k < model@.len(),
            None => short_index(model@, c) < 0,
        },
{
    proof {
        lemma_short_index(model@, c);
    }
    let mut i: usize = 0;
    while i < model.len()
        invariant
            i <= model@.len(),
            forall|j: int| 0 <= j < i ==> arg_short_char(#[trigger] model@[j]) != Some(c),
        decreases model.len() - i,
    {
        if short_char_of(&model[i]) == Some(c) {
            assert(arg_short_char(model@[i as int]) == Some(c));
            proof {
                lemma_short_index(model@, c);
            }
            return Some(i);
        }
        i += 1;
    }
    None
}

fn arity(r: &Record) -> (n: u8)
    ensures
        n as int == arity_of(*r),
{
    match &r.arg {
        Some(a) => a.arity,
        None => 1,
    }
}

/// Borrowed views of owned strings.
fn borrow_all(v: &Vec<String>) -> (r: Vec<&str>)
    ensures
        str_views(r@) == views(v@),
{
    let mut r: Vec<&str> = Vec::new();
    let mut i: usize = 0;
    while i < v.len()
        invariant
            i <= v@.len(),
            str_views(r@) == views(v@.take(i as int)),
        decreases v.len() - i,
    {
        let s = v[i].as_str();
        let ghost before = r@;
        r.push(s);
        assert(r@ == before.push(s));
        assert(views(v@.take(i + 1)) =~= views(v@.take(i as int)).push(v@[i as int]@));
        assert(str_views(r@) =~= str_views(before).push(s@));
        assert(str_views(r@) =~= views(v@.take(i + 1)));
        i += 1;
    }
    assert(v@.take(v@.len() as int) =~= v@);
    r
}

/// The finding for a flag no input declares.
fn unknown_arg(model: &[Record], label: String) -> (f: Finding)
    ensures
        f@ == unknown_arg_view(model@, label@),
{
    let mut known: Vec<String> = Vec::new();
    let mut i: usize = 0;
    while i < model.len()
        invariant
            i <= model@.len(),
            views(known@) == all_labels(model@.take(i as int)),
        decreases model.len() - i,
    {
        let mut labels = model[i].arg_labels();
        let ghost before = known@;
        known.append(&mut labels);
        assert(model@.take(i + 1).drop_last() =~= model@.take(i as int));
        assert(views(known@) =~= views(before) + model@[i as int].spec_arg_labels());
        i += 1;
    }
    assert(model@.take(model@.len() as int) =~= model@);
    let borrowed = borrow_all(&known);
    let did_you_mean = nearest(label.as_str(), borrowed.as_slice());
    Finding::UnknownArg { arg: label, did_you_mean }
}

// ---------------------------------------------------------------------------
// Parsing an argument vector
// ---------------------------------------------------------------------------

/// What parsing an argument vector produces: values by key, positional
/// arguments in order, and findings in order.
pub type ParseView = (Map<Seq<char>, Seq<char>>, Seq<Seq<char>>, Seq<FindingView>);

/// The separator a repeated flag's values are joined with: the first
/// declared separator, or `,`.
pub open spec fn join_sep(r: Record) -> Seq<char> {
    if r.separators@.len() > 0 {
        r.separators@[0]@
    } else {
        ","@
    }
}

/// Records the value `v` for `r`: appended to the earlier value for a
/// repeatable flag, replacing it otherwise.
pub open spec fn accumulate_spec(values: Map<Seq<char>, Seq<char>>, r: Record, v: Seq<char>) -> Map<
    Seq<char>,
    Seq<char>,
> {
    if repeatable_of(r) && values.dom().contains(r.key@) {
        values.insert(r.key@, values[r.key@] + join_sep(r) + v)
    } else {
        values.insert(r.key@, v)
    }
}

/// `s` without its leading `=` characters.
pub open spec fn strip_equals(s: Seq<char>) -> Seq<char>
    decreases s.len(),
{
    if s.len() > 0 && s[0] == '=' {
        strip_equals(s.drop_first())
    } else {
        s
    }
}

/// Total size of an argument vector: its characters plus its arguments.
pub open spec fn args_measure(args: Seq<Seq<char>>) -> nat
    decreases args.len(),
{
    if args.len() == 0 {
        0
    } else {
        args[0].len() + 1 + args_measure(args.drop_first())
    }
}

/// Parse an argument vector against a model, continuing from state `st`.
///
/// Recognised forms:
///
/// * `--flag`, `--no-flag` (when negatable)
/// * `--opt value`, `--opt=value`
/// * `-f`, `-o value`, `-ovalue`
/// * `-abc`, bundling several no-value short flags
/// * `--`, after which everything is positional
///
/// A repeated flag accumulates when it is repeatable, and otherwise the last
/// occurrence wins. Anything unrecognised becomes a finding.
pub open spec fn parse_spec(model: Seq<Record>, args: Seq<Seq<char>>, st: ParseView) -> ParseView
    decreases args_measure(args),
{
    if args.len() == 0 {
        st
    } else {
        let (values, positionals, findings) = st;
        let a = args[0];
        let rest_args = args.drop_first();
        if a == "--"@ {
            (values, positionals + rest_args, findings)
        } else if a.len() >= 2 && a[0] == '-' && a[1] == '-' {
            let body = a.skip(2);
            let eq = find_char(body, '=');
            let name = body.take(eq);
            let inline = if eq < body.len() {
                Some(body.skip(eq + 1))
            } else {
                None
            };
            let neg = if name.len() >= 3 && name.take(3) == "no-"@ {
                long_index(model, name.skip(3))
            } else {
                -1
            };
            if neg >= 0 && negatable_of(model[neg]) {
                parse_spec(
                    model,
                    rest_args,
                    (values.insert(model[neg].key@, "false"@), positionals, findings),
                )
            } else {
                let k = long_index(model, name);
                if k >= 0 {
                    let r = model[k];
                    if arity_of(r) == 0 {
                        let f = if inline is Some {
                            findings.push(FindingView::UnexpectedValue { arg: "--"@ + name })
                        } else {
                            findings
                        };
                        parse_spec(model, rest_args, (values.insert(r.key@, "true"@), positionals, f))
                    } else {
                        match inline {
                            Some(v) => parse_spec(
                                model,
                                rest_args,
                                (accumulate_spec(values, r, v), positionals, findings),
                            ),
                            None => if rest_args.len() > 0 {
                                proof {
                                    assert(args_measure(rest_args) == rest_args[0].len() + 1
                                        + args_measure(rest_args.drop_first()));
                                }
                                parse_spec(
                                    model,
                                    rest_args.drop_first(),
                                    (accumulate_spec(values, r, rest_args[0]), positionals, findings),
                                )
                            } else {
                                (
                                    values,
                                    positionals,
                                    findings.push(FindingView::MissingValue { arg: "--"@ + name }),
                                )
                            },
                        }
                    }
                } else {
                    parse_spec(
                        model,
                        rest_args,
                        (values, positionals, findings.push(unknown_arg_view(model, "--"@ + name))),
                    )
                }
            }
        } else if a.len() > 1 && a[0] == '-' {
            let first = a[1];
            let rest = a.skip(2);
            let k = short_index(model, first);
            if k >= 0 {
                let r = model[k];
                if arity_of(r) == 0 {
                    let v1 = values.insert(r.key@, "true"@);
                    if rest.len() == 0 {
                        parse_spec(model, rest_args, (v1, positionals, findings))
                    } else {
                        let rebuilt = seq![seq!['-'] + rest] + rest_args;
                        proof {
                            assert(rebuilt.drop_first() =~= rest_args);
                            assert(args_measure(rebuilt) == rest.len() + 2 + args_measure(rest_args));
                        }
                        parse_spec(model, rebuilt, (v1, positionals, findings))
                    }
                } else {
                    if rest.len() > 0 {
                        parse_spec(
                            model,
                            rest_args,
                            (accumulate_spec(values, r, strip_equals(rest)), positionals, findings),
                        )
                    } else if rest_args.len() > 0 {
                        proof {
                            assert(args_measure(rest_args) == rest_args[0].len() + 1 + args_measure(
                                rest_args.drop_first(),
                            ));
                        }
                        parse_spec(
                            model,
                            rest_args.drop_first(),
                            (accumulate_spec(values, r, rest_args[0]), positionals, findings),
                        )
                    } else {
                        (
                            values,
                            positionals,
                            findings.push(FindingView::MissingValue { arg: seq!['-', first] }),
                        )
                    }
                }
            } else {
                parse_spec(
                    model,
                    rest_args,
                    (values, positionals, findings.push(unknown_arg_view(model, seq!['-', first]))),
                )
            }
        } else {
            parse_spec(model, rest_args, (values, positionals.push(a), findings))
        }
    }
}


/// Some record of `model` declares the key `k`.
pub open spec fn declares_key(model: Seq<Record>, k: Seq<char>) -> bool {
    exists|j: int| 0 <= j < model.len() && (#[trigger] model[j]).key@ == k
}

/// Parsing records values only under keys the model declares.
proof fn lemma_parse_keys(model: Seq<Record>, args: Seq<Seq<char>>, st: ParseView, k: Seq<char>)
    requires
        parse_spec(model, args, st).0.dom().contains(k),
    ensures
        st.0.dom().contains(k) || declares_key(model, k),
    decreases args_measure(args),
{
    if args.len() > 0 {
        let (values, positionals, findings) = st;
        let a = args[0];
        let rest_args = args.drop_first();
        if a == "--"@ {
        } else if a.len() >= 2 && a[0] == '-' && a[1] == '-' {
            let body = a.skip(2);
            let eq = find_char(body, '=');
            let name = body.take(eq);
            let inline = if eq < body.len() {
                Some(body.skip(eq + 1))
            } else {
                None
            };
            let neg = if name.len() >= 3 && name.take(3) == "no-"@ {
                long_index(model, name.skip(3))
            } else {
                -1
            };
            lemma_long_index(model, name.skip(3));
            lemma_long_index(model, name);
            if neg >= 0 && negatable_of(model[neg]) {
                lemma_parse_keys(model, rest_args, (values.insert(model[neg].key@, "false"@), positionals, findings), k);
            } else {
                let kk = long_index(model, name);
                if kk >= 0 {
                    let r = model[kk];
                    if arity_of(r) == 0 {
                        let f = if inline is Some {
                            findings.push(FindingView::UnexpectedValue { arg: "--"@ + name })
                        } else {
                            findings
                        };
                        lemma_parse_keys(model, rest_args, (values.insert(r.key@, "true"@), positionals, f), k);
                    } else {
                        match inline {
                            Some(v) => {
                                lemma_parse_keys(model, rest_args, (accumulate_spec(values, r, v), positionals, findings), k);
                            },
                            None => if rest_args.len() > 0 {
                                assert(args_measure(rest_args) == rest_args[0].len() + 1 + args_measure(
                                    rest_args.drop_first(),
                                ));
                                lemma_parse_keys(
                                    model,
                                    rest_args.drop_first(),
                                    (accumulate_spec(values, r, rest_args[0]), positionals, findings),
                                    k,
                                );
                            },
                        }
                    }
                } else {
                    lemma_parse_keys(
                        model,
                        rest_args,
                        (values, positionals, findings.push(unknown_arg_view(model, "--"@ + name))),
                        k,
                    );
                }
            }
        } else if a.len() > 1 && a[0] == '-' {
            let first = a[1];
            let rest = a.skip(2);
            let kk = short_index(model, first);
            lemma_short_index(model, first);
            if kk >= 0 {
                let r = model[kk];
                if arity_of(r) == 0 {
                    let v1 = values.insert(r.key@, "true"@);
                    if rest.len() == 0 {
                        lemma_parse_keys(model, rest_args, (v1, positionals, findings), k);
                    } else {
                        let rebuilt = seq![seq!['-'] + rest] + rest_args;
                        assert(rebuilt.drop_first() =~= rest_args);
                        assert(args_measure(rebuilt) == rest.len() + 2 + args_measure(rest_args));
                        lemma_parse_keys(model, rebuilt, (v1, positionals, findings), k);
                    }
                } else {
                    if rest.len() > 0 {
                        lemma_parse_keys(
                            model,
                            rest_args,
                            (accumulate_spec(values, r, strip_equals(rest)), positionals, findings),
                            k,
                        );
                    } else if rest_args.len() > 0 {
                        assert(args_measure(rest_args) == rest_args[0].len() + 1 + args_measure(
                            rest_args.drop_first(),
                        ));
                        lemma_parse_keys(
                            model,
                            rest_args.drop_first(),
                            (accumulate_spec(values, r, rest_args[0]), positionals, findings),
                            k,
                        );
                    }
                }
            } else {
                lemma_parse_keys(
                    model,
                    rest_args,
                    (values, positionals, findings.push(unknown_arg_view(model, seq!['-', first]))),
                    k,
                );
            }
        } else {
            lemma_parse_keys(model, rest_args, (values, positionals.push(a), findings), k);
        }
    }
}

/// Everything after `--` is positional: the terminator ends flag parsing and
/// the remaining arguments are kept as they are, in order.
pub proof fn lemma_terminator(model: Seq<Record>, rest: Seq<Seq<char>>, st: ParseView)
    ensures
        parse_spec(model, seq!["--"@] + rest, st) == (st.0, st.1 + rest, st.2),
{
    let args = seq!["--"@] + rest;
    assert(args[0] == "--"@);
    assert(args.drop_first() =~= rest);
}

/// `--<long> <value>` for an input that takes a value records the value by
/// the input's key, as [`accumulate_spec`] says: appended to the earlier
/// value of a repeatable flag, replacing it otherwise (the last occurrence
/// wins). This holds for a non-empty long name without `=` that is not the
/// negation of a negatable flag.
pub proof fn lemma_flag_value(model: Seq<Record>, long: Seq<char>, v: Seq<char>, rest: Seq<Seq<char>>, st: ParseView)
    requires
        long.len() > 0,
        long_index(model, long) >= 0,
        arity_of(model[long_index(model, long)]) > 0,
        forall|i: int| 0 <= i < long.len() ==> long[i] != '=',
        !(long.len() >= 3 && long.take(3) == "no-"@ && long_index(model, long.skip(3)) >= 0
            && negatable_of(model[long_index(model, long.skip(3))])),
    ensures
        parse_spec(model, seq!["--"@ + long, v] + rest, st) == parse_spec(
            model,
            rest,
            (accumulate_spec(st.0, model[long_index(model, long)], v), st.1, st.2),
        ),
{
    let a = "--"@ + long;
    let args = seq![a, v] + rest;
    assert(args[0] == a);
    reveal_strlit("--");
    assert(a.len() != "--"@.len());
    assert(a.len() >= 2 && a[0] == '-' && a[1] == '-');
    assert(a.skip(2) =~= long);
    crate::text::lemma_find_char(long, '=', long.len() as int);
    assert(long.take(long.len() as int) =~= long);
    assert(args.drop_first() =~= seq![v] + rest);
    assert((seq![v] + rest).drop_first() =~= rest);
    assert((seq![v] + rest)[0] == v);
}

/// `--<long>=<value>` records exactly what `--<long> <value>` records, for an
/// input that takes a value: the value replaces the earlier one, or, for a
/// repeatable flag that already holds a value, is appended to it after the
/// first declared separator (`,` when none is declared). This holds for a
/// non-empty long name without `=` that is not the negation of a negatable
/// flag, and for any value.
pub proof fn lemma_flag_inline_value(
    model: Seq<Record>,
    long: Seq<char>,
    v: Seq<char>,
    rest: Seq<Seq<char>>,
    st: ParseView,
)
    requires
        long.len() > 0,
        long_index(model, long) >= 0,
        arity_of(model[long_index(model, long)]) > 0,
        forall|i: int| 0 <= i < long.len() ==> long[i] != '=',
        !(long.len() >= 3 && long.take(3) == "no-"@ && long_index(model, long.skip(3)) >= 0
            && negatable_of(model[long_index(model, long.skip(3))])),
    ensures
        parse_spec(model, seq!["--"@ + long + "="@ + v] + rest, st) == parse_spec(
            model,
            seq!["--"@ + long, v] + rest,
            st,
        ),
        ({
            let r = model[long_index(model, long)];
            let sep = if r.separators@.len() > 0 {
                r.separators@[0]@
            } else {
                ","@
            };
            let recorded = if r.arg is Some && r.arg.unwrap().repeatable && st.0.dom().contains(r.key@) {
                st.0[r.key@] + sep + v
            } else {
                v
            };
            parse_spec(model, seq!["--"@ + long + "="@ + v] + rest, st) == parse_spec(
                model,
                rest,
                (st.0.insert(r.key@, recorded), st.1, st.2),
            )
        }),
{
    lemma_flag_value(model, long, v, rest, st);
    reveal_strlit("--");
    reveal_strlit("=");
    let a = "--"@ + long + "="@ + v;
    let args = seq![a] + rest;
    assert(args[0] == a);
    assert(a.len() != "--"@.len());
    assert(a.len() >= 2 && a[0] == '-' && a[1] == '-');
    let body = a.skip(2);
    assert(body =~= long + "="@ + v);
    assert(body[long.len() as int] == '=');
    assert forall|j: int| 0 <= j < long.len() implies body[j] != '=' by {
        assert(body[j] == long[j]);
    }
    crate::text::lemma_find_char(body, '=', long.len() as int);
    assert(body.take(long.len() as int) =~= long);
    assert(body.skip(long.len() as int + 1) =~= v);
    assert(args.drop_first() =~= rest);
}

/// A short flag that takes a value reads it alike in each of its forms:
/// `-c <value>`, `-c<value>` and `-c=<value>` all record the value as
/// `--<long> <value>` does, replacing the earlier one or, for a repeatable
/// flag that already holds a value, appending it after the first declared
/// separator (`,` when none is declared). The attached forms need a
/// non-empty value that does not itself start with `=`.
pub proof fn lemma_short_value(model: Seq<Record>, c: char, v: Seq<char>, rest: Seq<Seq<char>>, st: ParseView)
    requires
        c != '-',
        short_index(model, c) >= 0,
        arity_of(model[short_index(model, c)]) > 0,
    ensures
        ({
            let r = model[short_index(model, c)];
            let sep = if r.separators@.len() > 0 {
                r.separators@[0]@
            } else {
                ","@
            };
            let recorded = if r.arg is Some && r.arg.unwrap().repeatable && st.0.dom().contains(r.key@) {
                st.0[r.key@] + sep + v
            } else {
                v
            };
            parse_spec(model, seq![seq!['-', c], v] + rest, st) == parse_spec(
                model,
                rest,
                (st.0.insert(r.key@, recorded), st.1, st.2),
            )
        }),
        v.len() > 0 && v[0] != '=' ==> parse_spec(model, seq![seq!['-', c] + v] + rest, st) == parse_spec(
            model,
            seq![seq!['-', c], v] + rest,
            st,
        ),
        v.len() > 0 && v[0] != '=' ==> parse_spec(model, seq![seq!['-', c, '='] + v] + rest, st)
            == parse_spec(model, seq![seq!['-', c], v] + rest, st),
{
    reveal_strlit("--");
    let a = seq!['-', c];
    let args = seq![a, v] + rest;
    assert(args[0] == a);
    assert(a != "--"@) by {
        assert(a[1] != "--"@[1]);
    }
    assert(a.skip(2) =~= Seq::<char>::empty());
    assert(args.drop_first() =~= seq![v] + rest);
    assert((seq![v] + rest).drop_first() =~= rest);
    assert((seq![v] + rest)[0] == v);
    if v.len() > 0 && v[0] != '=' {
        let b = seq!['-', c] + v;
        let args2 = seq![b] + rest;
        assert(args2[0] == b);
        assert(b != "--"@) by {
            assert(b[1] != "--"@[1]);
        }
        assert(b.skip(2) =~= v);
        assert(args2.drop_first() =~= rest);
        let e = seq!['-', c, '='] + v;
        let args3 = seq![e] + rest;
        assert(args3[0] == e);
        assert(e != "--"@) by {
            if e.len() == 2 {
                assert(e[1] != "--"@[1]);
            }
        }
        assert(e.skip(2) =~= seq!['='] + v);
        assert((seq!['='] + v).drop_first() =~= v);
        assert(args3.drop_first() =~= rest);
    }
}

/// A flag that takes no value, given one as `--<long>=<value>`, still
/// records `true` by its key, and the parse reports that the flag takes no
/// value. This holds for a non-empty long name without `=` that is not the
/// negation of a negatable flag, and for any value.
pub proof fn lemma_flag_unexpected_value(
    model: Seq<Record>,
    long: Seq<char>,
    v: Seq<char>,
    rest: Seq<Seq<char>>,
    st: ParseView,
)
    requires
        long.len() > 0,
        long_index(model, long) >= 0,
        arity_of(model[long_index(model, long)]) == 0,
        forall|i: int| 0 <= i < long.len() ==> long[i] != '=',
        !(long.len() >= 3 && long.take(3) == "no-"@ && long_index(model, long.skip(3)) >= 0
            && negatable_of(model[long_index(model, long.skip(3))])),
    ensures
        parse_spec(model, seq!["--"@ + long + "="@ + v] + rest, st) == parse_spec(
            model,
            rest,
            (
                st.0.insert(model[long_index(model, long)].key@, "true"@),
                st.1,
                st.2.push(FindingView::UnexpectedValue { arg: "--"@ + long }),
            ),
        ),
{
    reveal_strlit("--");
    reveal_strlit("=");
    let a = "--"@ + long + "="@ + v;
    let args = seq![a] + rest;
    assert(args[0] == a);
    assert(a.len() != "--"@.len());
    assert(a.len() >= 2 && a[0] == '-' && a[1] == '-');
    let body = a.skip(2);
    assert(body =~= long + "="@ + v);
    assert(body[long.len() as int] == '=');
    assert forall|j: int| 0 <= j < long.len() implies body[j] != '=' by {
        assert(body[j] == long[j]);
    }
    crate::text::lemma_find_char(body, '=', long.len() as int);
    assert(body.take(long.len() as int) =~= long);
    assert(args.drop_first() =~= rest);
}

/// A boolean flag is true by its presence: `--<long>` for an input that
/// takes no value records `true` by its key. This holds for a non-empty long
/// name without `=` that is not the negation of a negatable flag.
pub proof fn lemma_flag_presence(model: Seq<Record>, long: Seq<char>, rest: Seq<Seq<char>>, st: ParseView)
    requires
        long.len() > 0,
        long_index(model, long) >= 0,
        arity_of(model[long_index(model, long)]) == 0,
        forall|i: int| 0 <= i < long.len() ==> long[i] != '=',
        !(long.len() >= 3 && long.take(3) == "no-"@ && long_index(model, long.skip(3)) >= 0
            && negatable_of(model[long_index(model, long.skip(3))])),
    ensures
        parse_spec(model, seq!["--"@ + long] + rest, st) == parse_spec(
            model,
            rest,
            (st.0.insert(model[long_index(model, long)].key@, "true"@), st.1, st.2),
        ),
{
    let a = "--"@ + long;
    let args = seq![a] + rest;
    assert(args[0] == a);
    reveal_strlit("--");
    assert(a.len() != "--"@.len());
    assert(a.len() >= 2 && a[0] == '-' && a[1] == '-');
    assert(a.skip(2) =~= long);
    crate::text::lemma_find_char(long, '=', long.len() as int);
    assert(long.take(long.len() as int) =~= long);
    assert(args.drop_first() =~= rest);
}

/// A boolean flag is false by its negation: `--no-<long>` for a negatable
/// input records `false` by its key (for a long name without `=`).
pub proof fn lemma_flag_negation(model: Seq<Record>, long: Seq<char>, rest: Seq<Seq<char>>, st: ParseView)
    requires
        long_index(model, long) >= 0,
        negatable_of(model[long_index(model, long)]),
        forall|i: int| 0 <= i < long.len() ==> long[i] != '=',
    ensures
        parse_spec(model, seq!["--no-"@ + long] + rest, st) == parse_spec(
            model,
            rest,
            (st.0.insert(model[long_index(model, long)].key@, "false"@), st.1, st.2),
        ),
{
    let a = "--no-"@ + long;
    let args = seq![a] + rest;
    assert(args[0] == a);
    reveal_strlit("--no-");
    reveal_strlit("--");
    reveal_strlit("no-");
    assert(a.len() != "--"@.len());
    assert(a.len() >= 2 && a[0] == '-' && a[1] == '-');
    let body = a.skip(2);
    assert(body =~= "no-"@ + long);
    assert forall|i: int| 0 <= i < body.len() implies body[i] != '=' by {
        if i >= 3 {
            assert(body[i] == long[i - 3]);
        }
    }
    crate::text::lemma_find_char(body, '=', body.len() as int);
    assert(body.take(body.len() as int) =~= body);
    assert(body.take(3) =~= "no-"@);
    assert(body.skip(3) =~= long);
    assert(args.drop_first() =~= rest);
}

/// A map of values kept as an association list: later entries win.
pub open spec fn assoc_view(v: Seq<(String, String)>) -> Map<Seq<char>, Seq<char>>
    decreases v.len(),
{
    if v.len() == 0 {
        Map::empty()
    } else {
        assoc_view(v.drop_last()).insert(v.last().0@, v.last().1@)
    }
}

proof fn lemma_assoc_last(v: Seq<(String, String)>, key: Seq<char>, i: int)
    requires
        0 <= i < v.len(),
        v[i].0@ == key,
        forall|j: int| i < j < v.len() ==> v[j].0@ != key,
    ensures
        assoc_view(v).dom().contains(key),
        assoc_view(v)[key] == v[i].1@,
    decreases v.len(),
{
    if i < v.len() - 1 {
        assert forall|j: int| i < j < v.len() - 1 implies v.drop_last()[j].0@ != key by {
            assert(v.drop_last()[j] == v[j]);
        }
        lemma_assoc_last(v.drop_last(), key, i);
    }
}

proof fn lemma_assoc_absent(v: Seq<(String, String)>, key: Seq<char>)
    requires
        forall|j: int| 0 <= j < v.len() ==> v[j].0@ != key,
    ensures
        !assoc_view(v).dom().contains(key),
    decreases v.len(),
{
    if v.len() > 0 {
        assert forall|j: int| 0 <= j < v.len() - 1 implies v.drop_last()[j].0@ != key by {
            assert(v.drop_last()[j] == v[j]);
        }
        lemma_assoc_absent(v.drop_last(), key);
    }
}

proof fn lemma_assoc_concat(a: Seq<(String, String)>, b: Seq<(String, String)>)
    ensures
        assoc_view(a + b) == assoc_view(a).union_prefer_right(assoc_view(b)),
    decreases b.len(),
{
    if b.len() == 0 {
        assert(a + b =~= a);
        assert(assoc_view(a).union_prefer_right(Map::empty()) =~= assoc_view(a));
    } else {
        assert((a + b).drop_last() =~= a + b.drop_last());
        lemma_assoc_concat(a, b.drop_last());
        assert(assoc_view(a + b) =~= assoc_view(a).union_prefer_right(assoc_view(b)));
    }
}

/// The latest value recorded for `key`.
fn assoc_find(v: &Vec<(String, String)>, key: &str) -> (r: Option<usize>)
    ensures
        match r {
            Some(i) => i < v@.len() && assoc_view(v@).dom().contains(key@) && assoc_view(v@)[key@]
                == v@[i as int].1@,
            None => !assoc_view(v@).dom().contains(key@),
        },
{
    let mut i: usize = v.len();
    while i > 0
        invariant
            i <= v@.len(),
            forall|j: int| i <= j < v@.len() ==> v@[j].0@ != key@,
        decreases i,
    {
        if str_eq(v[i - 1].0.as_str(), key) {
            proof {
                lemma_assoc_last(v@, key@, i - 1);
            }
            return Some(i - 1);
        }
        i -= 1;
    }
    proof {
        lemma_assoc_absent(v@, key@);
    }
    None
}

/// Records `key = val`.
fn assoc_put(v: &mut Vec<(String, String)>, key: &str, val: String)
    ensures
        assoc_view(final(v)@) == assoc_view(old(v)@).insert(key@, val@),
{
    v.push((owned(key), val));
    assert(final(v)@.drop_last() =~= old(v)@);
}

/// A repeated flag accumulates for a repeatable input, and otherwise the last
/// wins.
fn accumulate(values: &mut Vec<(String, String)>, r: &Record, v: String)
    ensures
        assoc_view(final(values)@) == accumulate_spec(assoc_view(old(values)@), *r, v@),
{
    let repeatable = match &r.arg {
        Some(a) => a.repeatable,
        None => false,
    };
    let prev = assoc_find(values, r.key.as_str());
    match prev {
        Some(p) if repeatable => {
            let sep: &str = if r.separators.len() > 0 {
                r.separators[0].as_str()
            } else {
                ","
            };
            let joined = cat3(values[p].1.as_str(), sep, v.as_str());
            assoc_put(values, r.key.as_str(), joined);
        },
        _ => {
            assoc_put(values, r.key.as_str(), v);
        },
    }
}

/// Appends owned copies of `args[from..]`.
fn push_all_from(out: &mut Vec<String>, args: &[String], from: usize)
    requires
        from <= args@.len(),
    ensures
        views(final(out)@) == views(old(out)@) + views(args@).skip(from as int),
{
    let mut j: usize = from;
    while j < args.len()
        invariant
            from <= j <= args@.len(),
            views(out@) == views(old(out)@) + views(args@).subrange(from as int, j as int),
        decreases args.len() - j,
    {
        let ghost before = out@;
        out.push(owned(args[j].as_str()));
        assert(views(out@) =~= views(before).push(args@[j as int]@));
        assert(views(args@).subrange(from as int, j + 1) =~= views(args@).subrange(
            from as int,
            j as int,
        ).push(args@[j as int]@));
        j += 1;
    }
    assert(views(args@).subrange(from as int, args@.len() as int) =~= views(args@).skip(from as int));
}

/// Whether `s` starts with `prefix`.
fn starts_with(s: &str, prefix: &str) -> (r: bool)
    ensures
        r == (s@.len() >= prefix@.len() && s@.take(prefix@.len() as int) == prefix@),
{
    let n = prefix.unicode_len();
    if s.unicode_len() < n {
        return false;
    }
    str_eq(s.substring_char(0, n), prefix)
}

/// Position of the first `c` in `s`, or its length.
fn find_char_in(s: &str, c: char) -> (r: usize)
    ensures
        r == find_char(s@, c),
        r <= s@.len(),
{
    let n = s.unicode_len();
    let mut k: usize = 0;
    while k < n && s.get_char(k) != c
        invariant
            n == s@.len(),
            k <= n,
            forall|j: int| 0 <= j < k ==> s@[j] != c,
        decreases n - k,
    {
        k += 1;
    }
    proof {
        crate::text::lemma_find_char(s@, c, k as int);
    }
    k
}

/// `s` without its leading `=` characters.
fn strip_leading_equals(s: &str) -> (r: &str)
    ensures
        r@ == strip_equals(s@),
{
    let n = s.unicode_len();
    let mut k: usize = 0;
    assert(s@.subrange(0, n as int) =~= s@);
    while k < n && s.get_char(k) == '='
        invariant
            n == s@.len(),
            k <= n,
            strip_equals(s@) == strip_equals(s@.subrange(k as int, n as int)),
        decreases n - k,
    {
        assert(s@.subrange(k as int, n as int).drop_first() =~= s@.subrange(k + 1, n as int));
        k += 1;
    }
    s.substring_char(k, n)
}


/// Appends a finding.
pub(crate) fn push_finding(findings: &mut Vec<Finding>, f: Finding)
    ensures
        finding_views(final(findings)@) == finding_views(old(findings)@).push(f@),
{
    findings.push(f);
    assert(finding_views(final(findings)@) =~= finding_views(old(findings)@).push(f@));
}

/// The outcome of parsing an argument vector.
struct Parsed {
    values: Vec<(String, String)>,
    positionals: Vec<String>,
}

proof fn lemma_measure_skip(args: Seq<Seq<char>>, i: int)
    requires
        0 <= i <= args.len(),
    ensures
        args_measure(args.skip(i)) <= args_measure(args),
    decreases i,
{
    if i > 0 {
        assert(args.skip(i) =~= args.drop_first().skip(i - 1));
        lemma_measure_skip(args.drop_first(), i - 1);
    } else {
        assert(args.skip(i) =~= args);
    }
}

/// Parse an argument vector against a model, continuing from the values and
/// positional arguments gathered so far; see [`parse_spec`].
fn parse_args(
    model: &[Record],
    args: &[String],
    gathered: Vec<(String, String)>,
    earlier: Vec<String>,
    findings: &mut Vec<Finding>,
) -> (p: Parsed)
    ensures
        (assoc_view(p.values@), views(p.positionals@), finding_views(final(findings)@)) == parse_spec(
            model@,
            views(args@),
            (assoc_view(gathered@), views(earlier@), finding_views(old(findings)@)),
        ),
    decreases args_measure(views(args@)),
{
    let ghost target = parse_spec(
        model@,
        views(args@),
        (assoc_view(gathered@), views(earlier@), finding_views(old(findings)@)),
    );
    let mut values: Vec<(String, String)> = gathered;
    let mut positionals: Vec<String> = earlier;
    let mut i: usize = 0;
    assert(views(args@).skip(0) =~= views(args@));
    proof {
        reveal_strlit("--");
        reveal_strlit("no-");
        reveal_strlit("true");
        reveal_strlit("false");
    }
    while i < args.len()
        invariant
            i <= args@.len(),
            target == parse_spec(
                model@,
                views(args@),
                (assoc_view(gathered@), views(earlier@), finding_views(old(findings)@)),
            ),
            parse_spec(
                model@,
                views(args@).skip(i as int),
                (assoc_view(values@), views(positionals@), finding_views(findings@)),
            ) == target,
        decreases args.len() - i,
    {
        proof {
            reveal_strlit("--");
            reveal_strlit("no-");
            reveal_strlit("-");
        }
        let ghost sfx = views(args@).skip(i as int);
        let ghost st = (assoc_view(values@), views(positionals@), finding_views(findings@));
        assert(sfx[0] == args@[i as int]@);
        assert(sfx.drop_first() =~= views(args@).skip(i + 1));
        let a = args[i].as_str();
        let n = a.unicode_len();
        if str_eq(a, "--") {
            push_all_from(&mut positionals, args, i + 1);
            assert(views(positionals@) =~= st.1 + sfx.drop_first());
            assert(parse_spec(model@, sfx, st) == (st.0, st.1 + sfx.drop_first(), st.2));
            return Parsed { values, positionals };
        }
        if n >= 2 && a.get_char(0) == '-' && a.get_char(1) == '-' {
            let body = a.substring_char(2, n);
            assert(body@ =~= a@.skip(2));
            let blen = body.unicode_len();
            let eq = find_char_in(body, '=');
            let name = body.substring_char(0, eq);
            let inline: Option<&str> = if eq < blen {
                Some(body.substring_char(eq + 1, blen))
            } else {
                None
            };
            assert(name@ =~= body@.take(eq as int));
            assert(eq < blen ==> body@.subrange(eq + 1, blen as int) =~= body@.skip(eq + 1));
            // Negation: --no-colour sets the boolean off.
            let mut negated = false;
            if starts_with(name, "no-") {
                let base = name.substring_char(3, name.unicode_len());
                assert(base@ =~= name@.skip(3));
                if let Some(k) = find_long(model, base) {
                    let negatable = match &model[k].arg {
                        Some(b) => b.negatable,
                        None => false,
                    };
                    if negatable {
                        assoc_put(&mut values, model[k].key.as_str(), owned("false"));
                        negated = true;
                    }
                }
            }
            if !negated {
                match find_long(model, name) {
                    Some(k) => {
                        let r = &model[k];
                        if arity(r) == 0 {
                            if inline.is_some() {
                                push_finding(findings, Finding::UnexpectedValue { arg: cat("--", name) });
                            }
                            assoc_put(&mut values, r.key.as_str(), owned("true"));
                            i += 1;
                        } else {
                            match inline {
                                Some(v) => {
                                    accumulate(&mut values, r, owned(v));
                                    i += 1;
                                },
                                None => {
                                    if i + 1 < args.len() {
                                        accumulate(&mut values, r, owned(args[i + 1].as_str()));
                                        assert(sfx.drop_first()[0] == args@[i + 1]@);
                                        assert(sfx.drop_first().drop_first() =~= views(args@).skip(
                                            i + 2,
                                        ));
                                        i += 2;
                                    } else {
                                        push_finding(findings, Finding::MissingValue { arg: cat("--", name) });
                                        i += 1;
                                    }
                                },
                            }
                        }
                    },
                    None => {
                        let f = unknown_arg(model, cat("--", name));
                        push_finding(findings, f);
                        i += 1;
                    },
                }
            } else {
                i += 1;
            }
            continue;
        }
        if n > 1 && a.get_char(0) == '-' {
            let first = a.get_char(1);
            let rest = a.substring_char(2, n);
            assert(rest@ =~= a@.skip(2));
            match find_short(model, first) {
                Some(k) => {
                    let r = &model[k];
                    if arity(r) == 0 {
                        assoc_put(&mut values, r.key.as_str(), owned("true"));
                        if rest.unicode_len() == 0 {
                            i += 1;
                        } else {
                            // Bundled shorts: -abc. Re-enter with the remainder.
                            let mut rebuilt: Vec<String> = Vec::new();
                            let head = cat("-", rest);
                            assert("-"@ =~= seq!['-']);
                            assert(head@ =~= seq!['-'] + rest@);
                            rebuilt.push(head);
                            assert(views(rebuilt@) =~= seq![seq!['-'] + rest@]);
                            push_all_from(&mut rebuilt, args, i + 1);
                            proof {
                                assert(views(rebuilt@) =~= seq![seq!['-'] + rest@] + sfx.drop_first());
                                assert(views(rebuilt@).drop_first() =~= sfx.drop_first());
                                lemma_measure_skip(views(args@), i as int);
                            }
                            let sub = parse_args(model, rebuilt.as_slice(), values, positionals, findings);
                            return sub;
                        }
                    } else {
                        if rest.unicode_len() > 0 {
                            accumulate(&mut values, r, owned(strip_leading_equals(rest)));
                            i += 1;
                        } else if i + 1 < args.len() {
                            accumulate(&mut values, r, owned(args[i + 1].as_str()));
                            assert(sfx.drop_first()[0] == args@[i + 1]@);
                            assert(sfx.drop_first().drop_first() =~= views(args@).skip(i + 2));
                            i += 2;
                        } else {
                            let mut label = String::new();
                            crate::text::push_char(&mut label, '-');
                            crate::text::push_char(&mut label, first);
                            assert(label@ =~= seq!['-', first]);
                            push_finding(findings, Finding::MissingValue { arg: label });
                            i += 1;
                        }
                    }
                },
                None => {
                    let mut label = String::new();
                    crate::text::push_char(&mut label, '-');
                    crate::text::push_char(&mut label, first);
                    assert(label@ =~= seq!['-', first]);
                    let f = unknown_arg(model, label);
                    push_finding(findings, f);
                    i += 1;
                },
            }
            continue;
        }
        let ghost before = positionals@;
        positionals.push(owned(a));
        assert(views(positionals@) =~= views(before).push(a@));
        i += 1;
    }
    assert(views(args@).skip(i as int) =~= Seq::<Seq<char>>::empty());
    Parsed { values, positionals }
}


// ---------------------------------------------------------------------------
// Resolving
// ---------------------------------------------------------------------------

/// One resolved value and its provenance.
#[derive(Clone, Debug, PartialEq)]
pub struct Resolved {
    /// The raw, unparsed text.
    pub raw: String,
    /// Where it came from.
    pub source: Source,
}

/// What a program was invoked with: an argument vector and an environment.
pub struct Invocation<'a, E: EnvSource> {
    /// The arguments, **excluding** the program name.
    pub args: &'a [String],
    /// The environment.
    pub env: &'a E,
}

/// Everything an invocation resolved to, with provenance and any problems
/// found.
#[derive(Debug)]
pub struct Resolution {
    values: Vec<(String, Resolved)>,
    positionals: Vec<String>,
    findings: Vec<Finding>,
}

/// A resolved value as plain values.
pub type ResolvedView = (Seq<char>, Source);

/// A table of resolved values kept as a list with distinct keys.
pub open spec fn table_view(v: Seq<(String, Resolved)>) -> Map<Seq<char>, ResolvedView>
    decreases v.len(),
{
    if v.len() == 0 {
        Map::empty()
    } else {
        table_view(v.drop_last()).insert(v.last().0@, (v.last().1.raw@, v.last().1.source))
    }
}

/// No key occurs twice.
pub open spec fn keys_distinct(v: Seq<(String, Resolved)>) -> bool {
    forall|i: int, j: int| 0 <= i < j < v.len() ==> v[i].0@ != v[j].0@
}

/// The keys strictly ascend in the order of `String`.
pub open spec fn keys_ascending(v: Seq<(String, Resolved)>) -> bool {
    forall|i: int, j: int| 0 <= i < j < v.len() ==> text_lt(v[i].0@, v[j].0@)
}

proof fn lemma_ascending_distinct(v: Seq<(String, Resolved)>)
    requires
        keys_ascending(v),
    ensures
        keys_distinct(v),
{
    assert forall|i: int, j: int| 0 <= i < j < v.len() implies v[i].0@ != v[j].0@ by {
        lemma_text_lt_irreflexive(v[i].0@);
    }
}

/// The value of the first of `names` that `vars` sets.
pub open spec fn first_set(names: Seq<Seq<char>>, vars: Map<Seq<char>, Seq<char>>) -> Option<Seq<char>>
    decreases names.len(),
{
    if names.len() == 0 {
        None
    } else if vars.dom().contains(names[0]) {
        Some(vars[names[0]])
    } else {
        first_set(names.drop_first(), vars)
    }
}

/// The text an equivalent invocation would carry for a declared default.
pub open spec fn default_text(d: DefaultValue) -> Seq<char> {
    match d {
        DefaultValue::String(s) => s@,
        DefaultValue::Other(t) => t@,
    }
}

/// Fills in, record by record, what the arguments left unset: the first
/// environment name that is set, else the declared default.
pub open spec fn resolve_records(
    model: Seq<Record>,
    vars: Map<Seq<char>, Seq<char>>,
    base: Map<Seq<char>, ResolvedView>,
) -> Map<Seq<char>, ResolvedView>
    decreases model.len(),
{
    if model.len() == 0 {
        base
    } else {
        let m = resolve_records(model.drop_last(), vars, base);
        let r = model.last();
        if m.dom().contains(r.key@) {
            m
        } else {
            match first_set(r.spec_env_names(), vars) {
                Some(v) => m.insert(r.key@, (v, Source::Env)),
                None => match r.default {
                    Some(d) => m.insert(r.key@, (default_text(d), Source::Default)),
                    None => m,
                },
            }
        }
    }
}

/// The values an argument vector supplies, marked as arguments.
pub open spec fn from_args(values: Map<Seq<char>, Seq<char>>) -> Map<Seq<char>, ResolvedView> {
    Map::new(|k: Seq<char>| values.dom().contains(k), |k: Seq<char>| (values[k], Source::Arg))
}

/// What resolving `args` and `vars` against `model` gives: the values with
/// their provenance (`arg` > `env` > `default`), the positional arguments, and
/// the findings of parsing the arguments.
pub open spec fn spec_resolve(
    model: Seq<Record>,
    args: Seq<Seq<char>>,
    vars: Map<Seq<char>, Seq<char>>,
) -> (Map<Seq<char>, ResolvedView>, Seq<Seq<char>>, Seq<FindingView>) {
    let p = parse_spec(model, args, (Map::empty(), Seq::empty(), Seq::empty()));
    (resolve_records(model, vars, from_args(p.0)), p.1, p.2)
}

/// No two records share a key.
pub open spec fn model_keys_distinct(model: Seq<Record>) -> bool {
    forall|a: int, b: int| 0 <= a < b < model.len() ==> model[a].key@ != model[b].key@
}

proof fn lemma_resolve_untouched(
    model: Seq<Record>,
    vars: Map<Seq<char>, Seq<char>>,
    base: Map<Seq<char>, ResolvedView>,
    k: Seq<char>,
)
    requires
        forall|j: int| 0 <= j < model.len() ==> (#[trigger] model[j]).key@ != k,
    ensures
        resolve_records(model, vars, base).dom().contains(k) == base.dom().contains(k),
        base.dom().contains(k) ==> resolve_records(model, vars, base)[k] == base[k],
    decreases model.len(),
{
    if model.len() > 0 {
        assert forall|j: int| 0 <= j < model.len() - 1 implies (#[trigger] model.drop_last()[j]).key@ != k by {
            assert(model.drop_last()[j] == model[j]);
        }
        lemma_resolve_untouched(model.drop_last(), vars, base, k);
        assert(model.last() == model[model.len() - 1]);
    }
}

/// What resolving gives the record `r` when the earlier layer `base` holds
/// what the arguments supplied: that value, else the first environment name
/// set, else the declared default, else nothing.
pub open spec fn layered(r: Record, vars: Map<Seq<char>, Seq<char>>, base: Map<Seq<char>, ResolvedView>) -> Option<ResolvedView> {
    if base.dom().contains(r.key@) {
        Some(base[r.key@])
    } else {
        match first_set(r.spec_env_names(), vars) {
            Some(v) => Some((v, Source::Env)),
            None => match r.default {
                Some(d) => Some((default_text(d), Source::Default)),
                None => None,
            },
        }
    }
}

proof fn lemma_resolve_layers(
    model: Seq<Record>,
    vars: Map<Seq<char>, Seq<char>>,
    base: Map<Seq<char>, ResolvedView>,
    i: int,
)
    requires
        model_keys_distinct(model),
        0 <= i < model.len(),
    ensures
        ({
            let m = resolve_records(model, vars, base);
            match layered(model[i], vars, base) {
                Some(v) => m.dom().contains(model[i].key@) && m[model[i].key@] == v,
                None => !m.dom().contains(model[i].key@),
            }
        }),
    decreases model.len(),
{
    let k = model[i].key@;
    let front = model.drop_last();
    if i == model.len() - 1 {
        assert forall|j: int| 0 <= j < front.len() implies (#[trigger] front[j]).key@ != k by {
            assert(front[j] == model[j]);
        }
        lemma_resolve_untouched(front, vars, base, k);
    } else {
        assert(model_keys_distinct(front)) by {
            assert forall|a: int, b: int| 0 <= a < b < front.len() implies front[a].key@ != front[b].key@ by {
                assert(front[a] == model[a] && front[b] == model[b]);
            }
        }
        lemma_resolve_layers(front, vars, base, i);
        assert(front[i] == model[i]);
        assert(model.last().key@ != k);
    }
}

/// Precedence: an argument beats an environment variable, which beats the
/// declared default; among an input's environment names the first one set
/// wins; and the resolved value says which of them it came from. (When two
/// records share a key, the first of them is the one resolved.)
pub proof fn lemma_precedence(model: Seq<Record>, args: Seq<Seq<char>>, vars: Map<Seq<char>, Seq<char>>, i: int)
    requires
        model_keys_distinct(model),
        0 <= i < model.len(),
    ensures
        ({
            let values = spec_resolve(model, args, vars).0;
            let given = parse_spec(model, args, (Map::empty(), Seq::empty(), Seq::empty())).0;
            let r = model[i];
            &&& given.dom().contains(r.key@) ==> values.dom().contains(r.key@) && values[r.key@] == (
            given[r.key@], Source::Arg)
            &&& !given.dom().contains(r.key@) ==> match first_set(r.spec_env_names(), vars) {
                Some(v) => values.dom().contains(r.key@) && values[r.key@] == (v, Source::Env),
                None => match r.default {
                    Some(d) => values.dom().contains(r.key@) && values[r.key@] == (default_text(d), Source::Default),
                    None => !values.dom().contains(r.key@),
                },
            }
        }),
{
    let given = parse_spec(model, args, (Map::empty(), Seq::empty(), Seq::empty())).0;
    lemma_resolve_layers(model, vars, from_args(given), i);
}

proof fn lemma_resolve_dom(
    model: Seq<Record>,
    vars: Map<Seq<char>, Seq<char>>,
    base: Map<Seq<char>, ResolvedView>,
    k: Seq<char>,
)
    requires
        resolve_records(model, vars, base).dom().contains(k),
    ensures
        base.dom().contains(k) || exists|j: int| 0 <= j < model.len() && (#[trigger] model[j]).key@ == k,
    decreases model.len(),
{
    if model.len() > 0 {
        let front = model.drop_last();
        if resolve_records(front, vars, base).dom().contains(k) {
            lemma_resolve_dom(front, vars, base, k);
            if !base.dom().contains(k) {
                let j = choose|j: int| 0 <= j < front.len() && (#[trigger] front[j]).key@ == k;
                assert(model[j] == front[j]);
            }
        } else {
            assert(model[model.len() - 1].key@ == k);
        }
    }
}

/// Resolving holds no key but a declared one: every resolved key is the key
/// of some record; and the positional arguments and findings are those of
/// parsing the arguments.
pub proof fn lemma_resolved_keys(model: Seq<Record>, args: Seq<Seq<char>>, vars: Map<Seq<char>, Seq<char>>, k: Seq<char>)
    ensures
        ({
            let p = parse_spec(model, args, (Map::empty(), Seq::empty(), Seq::empty()));
            let res = spec_resolve(model, args, vars);
            &&& res.0.dom().contains(k) ==> declares_key(model, k)
            &&& res.1 == p.1
            &&& res.2 == p.2
        }),
{
    let p = parse_spec(model, args, (Map::empty(), Seq::empty(), Seq::empty()));
    if spec_resolve(model, args, vars).0.dom().contains(k) {
        lemma_resolve_dom(model, vars, from_args(p.0), k);
        if p.0.dom().contains(k) {
            lemma_parse_keys(model, args, (Map::empty(), Seq::empty(), Seq::empty()), k);
        }
    }
}

/// Two environments agree on the variable `n`: both leave it unset, or both
/// set it to the same value.
pub open spec fn agree_on(v1: Map<Seq<char>, Seq<char>>, v2: Map<Seq<char>, Seq<char>>, n: Seq<char>) -> bool {
    &&& v1.dom().contains(n) <==> v2.dom().contains(n)
    &&& v1.dom().contains(n) ==> v1[n] == v2[n]
}

/// Two environments agree on every name some record of `model` declares.
pub open spec fn agree_on_declared(
    model: Seq<Record>,
    v1: Map<Seq<char>, Seq<char>>,
    v2: Map<Seq<char>, Seq<char>>,
) -> bool {
    forall|j: int, i: int|
        0 <= j < model.len() && 0 <= i < model[j].spec_env_names().len() ==> agree_on(
            v1,
            v2,
            #[trigger] model[j].spec_env_names()[i],
        )
}

proof fn lemma_first_set_agree(names: Seq<Seq<char>>, v1: Map<Seq<char>, Seq<char>>, v2: Map<Seq<char>, Seq<char>>)
    requires
        forall|i: int| 0 <= i < names.len() ==> agree_on(v1, v2, #[trigger] names[i]),
    ensures
        first_set(names, v1) == first_set(names, v2),
    decreases names.len(),
{
    if names.len() > 0 {
        assert(agree_on(v1, v2, names[0]));
        assert forall|i: int| 0 <= i < names.drop_first().len() implies agree_on(
            v1,
            v2,
            #[trigger] names.drop_first()[i],
        ) by {
            assert(names.drop_first()[i] == names[i + 1]);
        }
        lemma_first_set_agree(names.drop_first(), v1, v2);
    }
}

proof fn lemma_resolve_records_agree(
    model: Seq<Record>,
    v1: Map<Seq<char>, Seq<char>>,
    v2: Map<Seq<char>, Seq<char>>,
    base: Map<Seq<char>, ResolvedView>,
)
    requires
        agree_on_declared(model, v1, v2),
    ensures
        resolve_records(model, v1, base) == resolve_records(model, v2, base),
    decreases model.len(),
{
    if model.len() > 0 {
        let front = model.drop_last();
        assert forall|j: int, i: int|
            0 <= j < front.len() && 0 <= i < front[j].spec_env_names().len() implies agree_on(
            v1,
            v2,
            #[trigger] front[j].spec_env_names()[i],
        ) by {
            assert(front[j] == model[j]);
            assert(agree_on(v1, v2, model[j].spec_env_names()[i]));
        }
        lemma_resolve_records_agree(front, v1, v2, base);
        let r = model.last();
        assert(r == model[model.len() - 1]);
        assert forall|i: int| 0 <= i < r.spec_env_names().len() implies agree_on(
            v1,
            v2,
            #[trigger] r.spec_env_names()[i],
        ) by {
            assert(agree_on(v1, v2, model[model.len() - 1].spec_env_names()[i]));
        }
        lemma_first_set_agree(r.spec_env_names(), v1, v2);
    }
}

/// Resolution reads the environment only through the names the model
/// declares: two environments that agree on every declared name (aliases
/// included) give the same resolution, whatever else they hold.
pub proof fn lemma_resolution_reads_declared_names(
    model: Seq<Record>,
    args: Seq<Seq<char>>,
    v1: Map<Seq<char>, Seq<char>>,
    v2: Map<Seq<char>, Seq<char>>,
)
    requires
        agree_on_declared(model, v1, v2),
    ensures
        spec_resolve(model, args, v1) == spec_resolve(model, args, v2),
{
    let p = parse_spec(model, args, (Map::empty(), Seq::empty(), Seq::empty()));
    lemma_resolve_records_agree(model, v1, v2, from_args(p.0));
}

impl Resolution {
    /// The resolved values by key.
    pub closed spec fn spec_values(self) -> Map<Seq<char>, ResolvedView> {
        table_view(self.values@)
    }

    /// The positional arguments.
    pub closed spec fn spec_positionals(self) -> Seq<Seq<char>> {
        views(self.positionals@)
    }

    /// The findings of parsing the arguments.
    pub closed spec fn spec_findings(self) -> Seq<FindingView> {
        finding_views(self.findings@)
    }

    /// The table's keys ascend, so each occurs once.
    #[verifier::type_invariant]
    pub closed spec fn wf(self) -> bool {
        keys_ascending(self.values@)
    }
}

proof fn lemma_table_lookup(v: Seq<(String, Resolved)>, i: int)
    requires
        keys_distinct(v),
        0 <= i < v.len(),
    ensures
        table_view(v).dom().contains(v[i].0@),
        table_view(v)[v[i].0@] == (v[i].1.raw@, v[i].1.source),
    decreases v.len(),
{
    if i < v.len() - 1 {
        assert(keys_distinct(v.drop_last()));
        lemma_table_lookup(v.drop_last(), i);
        assert(v.drop_last()[i] == v[i]);
        assert(v[i].0@ != v[v.len() - 1].0@);
    }
}

proof fn lemma_table_absent(v: Seq<(String, Resolved)>, key: Seq<char>)
    requires
        forall|j: int| 0 <= j < v.len() ==> v[j].0@ != key,
    ensures
        !table_view(v).dom().contains(key),
    decreases v.len(),
{
    if v.len() > 0 {
        assert forall|j: int| 0 <= j < v.len() - 1 implies v.drop_last()[j].0@ != key by {
            assert(v.drop_last()[j] == v[j]);
        }
        lemma_table_absent(v.drop_last(), key);
    }
}

proof fn lemma_table_update(v: Seq<(String, Resolved)>, i: int, e: (String, Resolved))
    requires
        keys_distinct(v),
        0 <= i < v.len(),
        e.0@ == v[i].0@,
    ensures
        keys_distinct(v.update(i, e)),
        table_view(v.update(i, e)) == table_view(v).insert(e.0@, (e.1.raw@, e.1.source)),
    decreases v.len(),
{
    let w = v.update(i, e);
    assert forall|a: int, b: int| 0 <= a < b < w.len() implies w[a].0@ != w[b].0@ by {
        assert(v[a].0@ != v[b].0@);
    }
    if i == v.len() - 1 {
        assert(w.drop_last() =~= v.drop_last());
        assert(table_view(w) =~= table_view(v).insert(e.0@, (e.1.raw@, e.1.source)));
    } else {
        assert(keys_distinct(v.drop_last()));
        lemma_table_update(v.drop_last(), i, e);
        assert(w.drop_last() =~= v.drop_last().update(i, e));
        assert(v[i].0@ != v[v.len() - 1].0@);
        assert(table_view(w) =~= table_view(v).insert(e.0@, (e.1.raw@, e.1.source)));
    }
}

/// Finds the position of `key`.
fn table_find(v: &Vec<(String, Resolved)>, key: &str) -> (r: Option<usize>)
    requires
        keys_ascending(v@),
    ensures
        match r {
            Some(i) => i < v@.len() && v@[i as int].0@ == key@ && table_view(v@).dom().contains(key@)
                && table_view(v@)[key@] == (v@[i as int].1.raw@, v@[i as int].1.source),
            None => !table_view(v@).dom().contains(key@),
        },
{
    proof {
        lemma_ascending_distinct(v@);
    }
    let mut i: usize = 0;
    while i < v.len()
        invariant
            i <= v@.len(),
            keys_distinct(v@),
            forall|j: int| 0 <= j < i ==> v@[j].0@ != key@,
        decreases v.len() - i,
    {
        if str_eq(v[i].0.as_str(), key) {
            proof {
                lemma_table_lookup(v@, i as int);
            }
            return Some(i);
        }
        i += 1;
    }
    proof {
        lemma_table_absent(v@, key@);
    }
    None
}

/// Records `key = value` in its place by key, replacing an earlier value for
/// `key`.
fn table_put(v: &mut Vec<(String, Resolved)>, key: &str, value: Resolved)
    requires
        keys_ascending(old(v)@),
    ensures
        keys_ascending(final(v)@),
        table_view(final(v)@) == table_view(old(v)@).insert(key@, (value.raw@, value.source)),
{
    proof {
        lemma_ascending_distinct(v@);
    }
    let e = (owned(key), value);
    let mut i: usize = 0;
    while i < v.len() && str_lt(v[i].0.as_str(), key)
        invariant
            i <= v@.len(),
            forall|j: int| 0 <= j < i ==> text_lt(#[trigger] v@[j].0@, key@),
        decreases v.len() - i,
    {
        i += 1;
    }
    if i < v.len() && str_eq(v[i].0.as_str(), key) {
        proof {
            lemma_table_update(v@, i as int, e);
        }
        let ghost before = v@;
        v.set(i, e);
        proof {
            assert forall|a: int, b: int| 0 <= a < b < v@.len() implies text_lt(v@[a].0@, v@[b].0@) by {
                assert(v@[a].0@ == before[a].0@ && v@[b].0@ == before[b].0@);
            }
        }
    } else {
        let ghost before = v@;
        proof {
            if i < before.len() {
                lemma_text_lt_total(key@, before[i as int].0@);
            }
            assert forall|j: int| i <= j < before.len() implies text_lt(key@, #[trigger] before[j].0@) by {
                if j > i {
                    lemma_text_lt_transitive(key@, before[i as int].0@, before[j].0@);
                }
            }
            assert forall|j: int| 0 <= j < before.len() implies before[j].0@ != key@ by {
                lemma_text_lt_irreflexive(key@);
            }
            lemma_table_insert(before, i as int, e);
        }
        v.insert(i, e);
        proof {
            assert(v@ == before.insert(i as int, e));
            assert forall|a: int, b: int| 0 <= a < b < v@.len() implies text_lt(v@[a].0@, v@[b].0@) by {
                if b < i {
                    assert(v@[a] == before[a] && v@[b] == before[b]);
                } else if b == i {
                    assert(v@[a] == before[a]);
                } else if a < i {
                    assert(v@[a] == before[a] && v@[b] == before[b - 1]);
                    lemma_text_lt_transitive(before[a].0@, key@, before[b - 1].0@);
                } else if a == i {
                    assert(v@[b] == before[b - 1]);
                } else {
                    assert(v@[a] == before[a - 1] && v@[b] == before[b - 1]);
                }
            }
        }
    }
}

proof fn lemma_table_insert(v: Seq<(String, Resolved)>, i: int, e: (String, Resolved))
    requires
        0 <= i <= v.len(),
        forall|j: int| 0 <= j < v.len() ==> v[j].0@ != e.0@,
    ensures
        table_view(v.insert(i, e)) == table_view(v).insert(e.0@, (e.1.raw@, e.1.source)),
    decreases v.len(),
{
    let w = v.insert(i, e);
    if i == v.len() {
        assert(w.drop_last() =~= v);
        assert(w.last() == e);
    } else {
        let u = v.drop_last();
        assert forall|j: int| 0 <= j < u.len() implies u[j].0@ != e.0@ by {
            assert(u[j] == v[j]);
        }
        lemma_table_insert(u, i, e);
        assert(w.drop_last() =~= u.insert(i, e));
        assert(w.last() == v.last());
        assert(v.last() == v[v.len() - 1]);
        assert(table_view(w) =~= table_view(v).insert(e.0@, (e.1.raw@, e.1.source)));
    }
}

/// Render a declared default as the text an equivalent invocation would carry.
fn render_default(d: &DefaultValue) -> (t: String)
    ensures
        t@ == default_text(*d),
{
    match d {
        DefaultValue::String(s) => owned(s.as_str()),
        DefaultValue::Other(t) => owned(t.as_str()),
    }
}

impl<'a, E: EnvSource> Invocation<'a, E> {
    /// An invocation with no arguments, reading the given environment.
    pub fn from_env(env: &'a E) -> (i: Invocation<'a, E>)
        ensures
            i.args@.len() == 0,
            i.env == env,
    {
        Invocation { args: &[], env }
    }

    /// The value of the first of `names` this invocation's environment sets.
    fn first_env(&self, names: &Vec<&str>) -> (r: Option<String>)
        ensures
            opt_view(r) == first_set(str_views(names@), self.env.spec_vars()),
    {
        let mut i: usize = 0;
        assert(str_views(names@).skip(0) =~= str_views(names@));
        while i < names.len()
            invariant
                i <= names@.len(),
                first_set(str_views(names@), self.env.spec_vars()) == first_set(
                    str_views(names@).skip(i as int),
                    self.env.spec_vars(),
                ),
            decreases names.len() - i,
        {
            let ghost rest = str_views(names@).skip(i as int);
            assert(rest[0] == names@[i as int]@);
            assert(rest.drop_first() =~= str_views(names@).skip(i + 1));
            match self.env.get(names[i]) {
                Some(v) => {
                    return Some(v);
                },
                None => {},
            }
            i += 1;
        }
        assert(str_views(names@).skip(i as int) =~= Seq::<Seq<char>>::empty());
        None
    }

    /// Resolve every declared input against this invocation.
    ///
    /// An argument beats an environment variable, which beats the declared
    /// default; among an input's environment names the first one set wins.
    pub fn resolve(&self, model: &[Record]) -> (res: Resolution)
        ensures
            res.wf(),
            (res.spec_values(), res.spec_positionals(), res.spec_findings()) == spec_resolve(
                model@,
                views(self.args@),
                self.env.spec_vars(),
            ),
    {
        let mut findings: Vec<Finding> = Vec::new();
        assert(finding_views(findings@) =~= Seq::empty());
        let gathered: Vec<(String, String)> = Vec::new();
        let earlier: Vec<String> = Vec::new();
        assert(assoc_view(gathered@) =~= Map::empty());
        assert(views(earlier@) =~= Seq::empty());
        let parsed = parse_args(model, self.args, gathered, earlier, &mut findings);
        let mut values: Vec<(String, Resolved)> = Vec::new();
        let mut i: usize = 0;
        let ghost pv = parsed.values@;
        while i < parsed.values.len()
            invariant
                i <= pv.len(),
                pv == parsed.values@,
                keys_ascending(values@),
                table_view(values@) == from_args(assoc_view(pv.take(i as int))),
            decreases parsed.values.len() - i,
        {
            let (k, v) = (&parsed.values[i].0, &parsed.values[i].1);
            table_put(&mut values, k.as_str(), Resolved { raw: owned(v.as_str()), source: Source::Arg });
            assert(pv.take(i + 1).drop_last() =~= pv.take(i as int));
            assert(table_view(values@) =~= from_args(assoc_view(pv.take(i + 1))));
            i += 1;
        }
        assert(pv.take(pv.len() as int) =~= pv);
        let ghost base = table_view(values@);
        let mut j: usize = 0;
        while j < model.len()
            invariant
                j <= model@.len(),
                keys_ascending(values@),
                table_view(values@) == resolve_records(model@.take(j as int), self.env.spec_vars(), base),
            decreases model.len() - j,
        {
            let r = &model[j];
            assert(model@.take(j + 1).drop_last() =~= model@.take(j as int));
            assert(model@.take(j + 1).last() == model@[j as int]);
            match table_find(&values, r.key.as_str()) {
                Some(_) => {},
                None => {
                    let names = r.env_names();
                    match self.first_env(&names) {
                        Some(raw) => {
                            table_put(&mut values, r.key.as_str(), Resolved { raw, source: Source::Env });
                        },
                        None => {
                            match &r.default {
                                Some(d) => {
                                    table_put(
                                        &mut values,
                                        r.key.as_str(),
                                        Resolved { raw: render_default(d), source: Source::Default },
                                    );
                                },
                                None => {},
                            }
                        },
                    }
                },
            }
            j += 1;
        }
        assert(model@.take(model@.len() as int) =~= model@);
        Resolution { values, positionals: parsed.positionals, findings }
    }
}

/// A table's entries as plain values.
pub open spec fn entries_view(v: Seq<(String, Resolved)>) -> Seq<(Seq<char>, Seq<char>, Source)> {
    v.map_values(|e: (String, Resolved)| (e.0@, e.1.raw@, e.1.source))
}

proof fn lemma_table_same_entries(a: Seq<(String, Resolved)>, b: Seq<(String, Resolved)>)
    requires
        entries_view(a) == entries_view(b),
    ensures
        table_view(a) == table_view(b),
        keys_ascending(a) == keys_ascending(b),
    decreases a.len(),
{
    assert(a.len() == entries_view(a).len() && b.len() == entries_view(b).len());
    assert forall|i: int| 0 <= i < a.len() implies a[i].0@ == b[i].0@ && a[i].1.raw@ == b[i].1.raw@
        && a[i].1.source == b[i].1.source by {
        assert(entries_view(a)[i] == entries_view(b)[i]);
    }
    if a.len() > 0 {
        assert(entries_view(a.drop_last()) =~= entries_view(b.drop_last()));
        lemma_table_same_entries(a.drop_last(), b.drop_last());
    }
}

fn clone_entries(v: &Vec<(String, Resolved)>) -> (r: Vec<(String, Resolved)>)
    ensures
        entries_view(r@) == entries_view(v@),
{
    let mut r: Vec<(String, Resolved)> = Vec::new();
    let mut i: usize = 0;
    while i < v.len()
        invariant
            i <= v@.len(),
            entries_view(r@) == entries_view(v@.take(i as int)),
        decreases v.len() - i,
    {
        let e = &v[i];
        let c = (owned(e.0.as_str()), Resolved { raw: owned(e.1.raw.as_str()), source: e.1.source });
        let ghost before = r@;
        r.push(c);
        proof {
            assert(entries_view(r@) =~= entries_view(before).push((e.0@, e.1.raw@, e.1.source)));
            assert(entries_view(v@.take(i + 1)) =~= entries_view(v@.take(i as int)).push(
                (e.0@, e.1.raw@, e.1.source),
            ));
        }
        i += 1;
    }
    assert(v@.take(v@.len() as int) =~= v@);
    r
}

fn clone_findings(v: &Vec<Finding>) -> (r: Vec<Finding>)
    ensures
        finding_views(r@) == finding_views(v@),
{
    let mut r: Vec<Finding> = Vec::new();
    let mut i: usize = 0;
    while i < v.len()
        invariant
            i <= v@.len(),
            finding_views(r@) == finding_views(v@.take(i as int)),
        decreases v.len() - i,
    {
        let c = v[i].clone_finding();
        let ghost before = r@;
        r.push(c);
        proof {
            assert(finding_views(r@) =~= finding_views(before).push(c@));
            assert(finding_views(v@.take(i + 1)) =~= finding_views(v@.take(i as int)).push(v@[i as int]@));
        }
        i += 1;
    }
    assert(v@.take(v@.len() as int) =~= v@);
    r
}

fn clone_texts(v: &Vec<String>) -> (r: Vec<String>)
    ensures
        views(r@) == views(v@),
{
    let mut r: Vec<String> = Vec::new();
    let mut i: usize = 0;
    while i < v.len()
        invariant
            i <= v@.len(),
            views(r@) == views(v@.take(i as int)),
        decreases v.len() - i,
    {
        let ghost before = r@;
        r.push(owned(v[i].as_str()));
        proof {
            assert(views(r@) =~= views(before).push(v@[i as int]@));
            assert(views(v@.take(i + 1)) =~= views(v@.take(i as int)).push(v@[i as int]@));
        }
        i += 1;
    }
    assert(v@.take(v@.len() as int) =~= v@);
    r
}

impl Clone for Resolution {
    /// A copy holding the same values, positional arguments and findings.
    fn clone(&self) -> (r: Resolution)
        ensures
            r.spec_values() == self.spec_values(),
            r.spec_positionals() == self.spec_positionals(),
            r.spec_findings() == self.spec_findings(),
    {
        proof {
            use_type_invariant(self);
        }
        let values = clone_entries(&self.values);
        proof {
            lemma_table_same_entries(values@, self.values@);
        }
        Resolution {
            values,
            positionals: clone_texts(&self.positionals),
            findings: clone_findings(&self.findings),
        }
    }
}

impl Default for Resolution {
    /// Nothing resolved, no positional arguments, no findings.
    fn default() -> (r: Resolution)
        ensures
            r.spec_values() == Map::<Seq<char>, ResolvedView>::empty(),
            r.spec_positionals() == Seq::<Seq<char>>::empty(),
            r.spec_findings() == Seq::<FindingView>::empty(),
    {
        let r = Resolution { values: Vec::new(), positionals: Vec::new(), findings: Vec::new() };
        assert(r.spec_positionals() =~= Seq::<Seq<char>>::empty());
        assert(r.spec_findings() =~= Seq::<FindingView>::empty());
        r
    }
}

impl Resolution {
    /// The raw text resolved for `key`, if anything supplied one.
    pub fn raw(&self, key: &str) -> (r: Option<&str>)
        ensures
            match r {
                Some(t) => self.spec_values().dom().contains(key@) && self.spec_values()[key@].0 == t@,
                None => !self.spec_values().dom().contains(key@),
            },
    {
        proof {
            use_type_invariant(self);
        }
        match table_find(&self.values, key) {
            Some(i) => Some(self.values[i].1.raw.as_str()),
            None => None,
        }
    }

    /// Where the value for `key` came from.
    pub fn source(&self, key: &str) -> (r: Option<Source>)
        ensures
            match r {
                Some(s) => self.spec_values().dom().contains(key@) && self.spec_values()[key@].1 == s,
                None => !self.spec_values().dom().contains(key@),
            },
    {
        proof {
            use_type_invariant(self);
        }
        match table_find(&self.values, key) {
            Some(i) => Some(self.values[i].1.source),
            None => None,
        }
    }

    /// The resolved value for `key`, if anything supplied one.
    pub fn get(&self, key: &str) -> (r: Option<&Resolved>)
        ensures
            match r {
                Some(v) => self.spec_values().dom().contains(key@) && self.spec_values()[key@] == (
                v.raw@,
                v.source,
                ),
                None => !self.spec_values().dom().contains(key@),
            },
    {
        proof {
            use_type_invariant(self);
        }
        match table_find(&self.values, key) {
            Some(i) => Some(&self.values[i].1),
            None => None,
        }
    }

    /// Every resolved value, each key once, in ascending order of key.
    pub fn values(&self) -> (v: &[(String, Resolved)])
        ensures
            table_view(v@) == self.spec_values(),
            keys_ascending(v@),
            keys_distinct(v@),
    {
        proof {
            use_type_invariant(self);
            lemma_ascending_distinct(self.values@);
        }
        self.values.as_slice()
    }

    /// Arguments that were not flags, in order, plus anything after `--`.
    pub fn positionals(&self) -> (p: &[String])
        ensures
            views(p@) == self.spec_positionals(),
    {
        self.positionals.as_slice()
    }

    /// Problems found while parsing the argument vector.
    pub fn findings(&self) -> (f: &[Finding])
        ensures
            finding_views(f@) == self.spec_findings(),
    {
        self.findings.as_slice()
    }
}

} // verus!
