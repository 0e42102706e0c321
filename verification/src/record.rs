//! [`Record`]: the portable projection of one input, and the checks that
//! work from a record's metadata alone.
use vstd::prelude::*;
use crate::text::{is_whitespace, lemma_trimmed_ends, views, str_views, joined, trimmed, trim, int_text, float_ok, str_eq, owned, owned_all, cat, cat3, join, read_int, is_float_text, contains_str, char_in};
use crate::vocabulary::DeprecationInfo;
use crate::from_raw::FromRaw;

verus! {

/// Bump on any breaking change to [`Record`]. Additive changes (a new optional
/// field) keep the major version and stay backward-compatible.
pub const CONTRACT_VERSION: u32 = 1;

/// The order in which bindings win when more than one supplies a value,
/// strongest first: an explicit argument beats an ambient environment
/// variable, which beats a compiled-in default.
pub const PRECEDENCE: [&'static str; 3] = ["arg", "env", "default"];

/// How a value may arrive from the environment.
#[derive(Clone, Debug, PartialEq)]
pub struct EnvBinding {
    /// The variable name.
    pub name: String,
    /// Other names still honoured.
    pub aliases: Vec<String>,
}

/// How a value may arrive from the argument vector.
#[derive(Clone, Debug, PartialEq)]
pub struct ArgBinding {
    /// The long form, without dashes.
    pub long: Option<String>,
    /// The short form, without its dash.
    pub short: Option<String>,
    /// How many values the flag consumes: `0` for a boolean whose presence is
    /// the value, `1` otherwise.
    pub arity: u8,
    /// The placeholder shown in help for the value.
    pub value_name: Option<String>,
    /// Whether `--no-<long>` is accepted.
    pub negatable: bool,
    /// Whether the flag may be repeated, accumulating values.
    pub repeatable: bool,
}

/// A declared default, in its natural JSON form.
#[derive(Clone, Debug, PartialEq)]
pub enum DefaultValue {
    /// A JSON string: its text.
    String(String),
    /// Any other JSON value: its compact JSON spelling (`false`, `3`, ...).
    Other(String),
}

/// One input, flattened to plain JSON-friendly types.
///
/// This is the shape every language binding implements and the JSON Schema
/// describes.
#[derive(Clone, Debug, PartialEq)]
pub struct Record {
    /// Transport-free identity, `snake_case`. The join key across every source.
    pub key: String,
    /// Wire kind: one of [`crate::Type::ALL`].
    pub ty: String,
    /// The declared default.
    pub default: Option<DefaultValue>,
    /// Accepted tokens for the `enum` and `list` kinds.
    pub allowed: Vec<String>,
    /// Characters that separate items in a `list` value.
    pub separators: Vec<String>,
    /// Whether the program requires this input.
    pub required: bool,
    /// One of [`crate::Stability::ALL`].
    pub stability: String,
    /// Introducing version, `major.minor.patch`.
    pub since: Option<String>,
    /// `{ since, replaced_by, migration }`, present only when deprecated.
    pub deprecation: Option<DeprecationInfo>,
    /// Grouping tag for documentation and help output.
    pub group: Option<String>,
    /// A key in another configuration surface this input bridges to.
    pub maps_to: Option<String>,
    /// A copy-pasteable example.
    pub example: Option<String>,
    /// A resolved-configuration field this input visibly changes.
    pub observe: Option<String>,
    /// Date a human last verified the entry, `YYYY-MM-DD`.
    pub reviewed: Option<String>,
    /// Prose description.
    pub summary: Option<String>,
    /// Date the declaration was last edited; stamped by tooling.
    pub modified: Option<String>,
    /// Which project and revision this record came from.
    pub source: Option<String>,
    /// The environment binding, if this input accepts one.
    pub env: Option<EnvBinding>,
    /// The argument-vector binding, if this input accepts one.
    pub arg: Option<ArgBinding>,
}

impl Record {
    /// Every environment name this input answers to: its name, then its
    /// aliases.
    pub open spec fn spec_env_names(self) -> Seq<Seq<char>> {
        match self.env {
            None => Seq::empty(),
            Some(e) => seq![e.name@] + views(e.aliases@),
        }
    }

    /// Every argument spelling, dashes included: `-s`, then `--long`, then
    /// `--no-long` when negatable.
    pub open spec fn spec_arg_labels(self) -> Seq<Seq<char>> {
        match self.arg {
            None => Seq::empty(),
            Some(a) => {
                let short = match a.short {
                    Some(s) => seq!["-"@ + s@],
                    None => Seq::empty(),
                };
                let long = match a.long {
                    Some(l) => if a.negatable {
                        seq!["--"@ + l@, "--no-"@ + l@]
                    } else {
                        seq!["--"@ + l@]
                    },
                    None => Seq::empty(),
                };
                short + long
            },
        }
    }

    /// The help signature, e.g. `-l, --log-level <LEVEL>`; empty without an
    /// argument form.
    pub open spec fn spec_usage(self) -> Seq<char> {
        match self.arg {
            None => Seq::empty(),
            Some(a) => {
                let parts = match a.short {
                    Some(s) => seq!["-"@ + s@],
                    None => Seq::<Seq<char>>::empty(),
                } + match a.long {
                    Some(l) => seq!["--"@ + l@],
                    None => Seq::<Seq<char>>::empty(),
                };
                let placeholder = match a.value_name {
                    Some(v) => v@,
                    None => "VALUE"@,
                };
                if a.arity > 0 {
                    joined(parts, ", "@) + " <"@ + placeholder + ">"@
                } else {
                    joined(parts, ", "@)
                }
            },
        }
    }

    /// Whether `raw` is a legal value, judged from the metadata alone; the
    /// error is the reason.
    pub open spec fn spec_accepts(self, raw: Seq<char>) -> Result<(), Seq<char>> {
        let v = trimmed(raw);
        let ty = self.ty@;
        if ty == "bool"@ {
            if crate::from_raw::is_true_word(v) || crate::from_raw::is_false_word(v) {
                Ok(())
            } else {
                Err("expected a boolean"@)
            }
        } else if ty == "uint"@ {
            match int_text(v, false) {
                Some(n) => if 0 <= n <= u64::MAX {
                    Ok(())
                } else {
                    Err("expected a non-negative integer"@)
                },
                None => Err("expected a non-negative integer"@),
            }
        } else if ty == "int"@ {
            match int_text(v, true) {
                Some(n) => if i64::MIN <= n <= i64::MAX {
                    Ok(())
                } else {
                    Err("expected an integer"@)
                },
                None => Err("expected an integer"@),
            }
        } else if ty == "float"@ {
            if float_ok(v) {
                Ok(())
            } else {
                Err("expected a number"@)
            }
        } else if ty == "enum"@ {
            if views(self.allowed@).contains(v) {
                Ok(())
            } else {
                Err("accepted: "@ + joined(views(self.allowed@), ", "@))
            }
        } else if ty == "list"@ || ty == "path"@ || ty == "string"@ {
            Ok(())
        } else {
            Err("unknown declared type `"@ + ty + "`"@)
        }
    }

    /// What `accepts` says of each declared type: a boolean, an unsigned or a
    /// signed integer is accepted exactly when the value's own reader
    /// accepts the text; a float when the trimmed text is a number as
    /// `f64::from_str` reads it; an enum when the trimmed text is one of the
    /// allowed tokens; a list, path or string always; and any other declared
    /// type is refused as unknown. Nothing but the record and the text is
    /// consulted.
    pub proof fn lemma_accepts_by_kind(self, raw: Seq<char>)
        ensures
            self.ty@ == "bool"@ ==> (self.spec_accepts(raw) is Ok <==> <bool as FromRaw>::accepts_raw(raw)),
            self.ty@ == "uint"@ ==> (self.spec_accepts(raw) is Ok <==> <u64 as FromRaw>::accepts_raw(raw)),
            self.ty@ == "int"@ ==> (self.spec_accepts(raw) is Ok <==> <i64 as FromRaw>::accepts_raw(raw)),
            self.ty@ == "float"@ ==> (self.spec_accepts(raw) is Ok <==> float_ok(trimmed(raw))),
            self.ty@ == "enum"@ ==> (self.spec_accepts(raw) is Ok <==> views(self.allowed@).contains(
                trimmed(raw),
            )),
            self.ty@ == "list"@ || self.ty@ == "path"@ || self.ty@ == "string"@ ==> self.spec_accepts(raw) is Ok,
            self.ty@ != "bool"@ && self.ty@ != "uint"@ && self.ty@ != "int"@ && self.ty@ != "float"@
                && self.ty@ != "enum"@ && self.ty@ != "list"@ && self.ty@ != "path"@ && self.ty@ != "string"@
                ==> self.spec_accepts(raw) == Err::<(), Seq<char>>("unknown declared type `"@ + self.ty@ + "`"@),
    {
        reveal_strlit("bool");
        reveal_strlit("uint");
        reveal_strlit("int");
        reveal_strlit("float");
        reveal_strlit("enum");
        reveal_strlit("list");
        reveal_strlit("path");
        reveal_strlit("string");
        // The kinds' names differ in their first character.
        assert("bool"@[0] == 'b' && "uint"@[0] == 'u' && "int"@[0] == 'i' && "float"@[0] == 'f');
        assert("enum"@[0] == 'e' && "list"@[0] == 'l' && "path"@[0] == 'p' && "string"@[0] == 's');
    }

    /// Every token of a list value is non-empty, starts and ends with a
    /// character that is not whitespace, and is the trimmed text of a piece of
    /// `raw` between separators: a stretch holding no separator character,
    /// preceded by the start of `raw` or a separator, and followed by a
    /// separator or the end of `raw`.
    pub proof fn lemma_tokens_are_trimmed_pieces(self, raw: Seq<char>)
        ensures
            forall|n: int|
                0 <= n < self.spec_tokens(raw).len() ==> {
                    let t = #[trigger] self.spec_tokens(raw)[n];
                    let seps = self.spec_separator_chars();
                    &&& t.len() > 0
                    &&& !is_whitespace(t[0])
                    &&& !is_whitespace(t.last())
                    &&& exists|i: int, j: int|
                        0 <= i <= j <= raw.len() && t == trimmed(#[trigger] raw.subrange(i, j)) && (i == 0
                            || seps.contains(raw[i - 1])) && (j == raw.len() || seps.contains(raw[j]))
                            && forall|m: int| i <= m < j ==> !seps.contains(#[trigger] raw[m])
                },
    {
        let toks = self.spec_tokens(raw);
        let seps = self.spec_separator_chars();
        if !(self.ty@ != "list"@ || self.separators@.len() == 0) {
            let ps = split_on(raw, seps);
            let b = lemma_split_bounds(raw, seps);
            lemma_nonempty_trimmed(ps);
            assert forall|n: int| 0 <= n < toks.len() implies {
                let t = #[trigger] toks[n];
                &&& t.len() > 0
                &&& !is_whitespace(t[0])
                &&& !is_whitespace(t.last())
                &&& exists|i: int, j: int|
                    0 <= i <= j <= raw.len() && t == trimmed(#[trigger] raw.subrange(i, j)) && (i == 0
                        || seps.contains(raw[i - 1])) && (j == raw.len() || seps.contains(raw[j]))
                        && forall|m: int| i <= m < j ==> !seps.contains(#[trigger] raw[m])
            } by {
                let t = toks[n];
                assert(t == nonempty_trimmed(ps)[n]);
                assert(nonempty_trimmed(ps)[n].len() > 0);
                let k = choose|k: int| 0 <= k < ps.len() && nonempty_trimmed(ps)[n] == trimmed(#[trigger] ps[k]);
                let (i, j) = b[k];
                assert(ps[k] == raw.subrange(i, j));
                lemma_trimmed_ends(raw.subrange(i, j));
            }
        }
    }

    /// The separator characters: the first character of each declared
    /// separator, empty ones skipped.
    pub open spec fn spec_separator_chars(self) -> Seq<char> {
        first_chars(views(self.separators@))
    }

    /// The tokens of a list value: the pieces between separators, trimmed,
    /// empty ones dropped. Empty when this input is not a list or declares no
    /// separators.
    pub open spec fn spec_tokens(self, raw: Seq<char>) -> Seq<Seq<char>> {
        if self.ty@ != "list"@ || self.separators@.len() == 0 {
            Seq::empty()
        } else {
            nonempty_trimmed(split_on(raw, self.spec_separator_chars()))
        }
    }
}

/// The first character of each non-empty string.
pub open spec fn first_chars(v: Seq<Seq<char>>) -> Seq<char>
    decreases v.len(),
{
    if v.len() == 0 {
        Seq::empty()
    } else if v.last().len() > 0 {
        first_chars(v.drop_last()).push(v.last()[0])
    } else {
        first_chars(v.drop_last())
    }
}

/// `s` cut at every character in `seps`, as `str::split` cuts it.
pub open spec fn split_on(s: Seq<char>, seps: Seq<char>) -> Seq<Seq<char>>
    decreases s.len(),
{
    if s.len() == 0 {
        seq![Seq::empty()]
    } else {
        let p = split_on(s.drop_last(), seps);
        if seps.contains(s.last()) {
            p.push(Seq::empty())
        } else {
            p.update(p.len() - 1, p.last().push(s.last()))
        }
    }
}

/// Each piece trimmed, the empty ones dropped.
pub open spec fn nonempty_trimmed(pieces: Seq<Seq<char>>) -> Seq<Seq<char>>
    decreases pieces.len(),
{
    if pieces.len() == 0 {
        Seq::empty()
    } else {
        let rest = nonempty_trimmed(pieces.drop_last());
        if trimmed(pieces.last()).len() > 0 {
            rest.push(trimmed(pieces.last()))
        } else {
            rest
        }
    }
}

/// Where each piece of `split_on(s, seps)` lies in `s`.
proof fn lemma_split_bounds(s: Seq<char>, seps: Seq<char>) -> (b: Seq<(int, int)>)
    ensures
        b.len() == split_on(s, seps).len(),
        b.len() >= 1,
        forall|k: int|
            0 <= k < b.len() ==> {
                let (i, j) = #[trigger] b[k];
                &&& 0 <= i <= j <= s.len()
                &&& split_on(s, seps)[k] == s.subrange(i, j)
                &&& (i == 0 || seps.contains(s[i - 1]))
                &&& (k < b.len() - 1 ==> j < s.len() && seps.contains(s[j]))
                &&& (k == b.len() - 1 ==> j == s.len())
                &&& forall|m: int| i <= m < j ==> !seps.contains(#[trigger] s[m])
            },
    decreases s.len(),
{
    if s.len() == 0 {
        let b = seq![(0int, 0int)];
        assert(split_on(s, seps)[0] =~= s.subrange(0, 0));
        b
    } else {
        let u = s.drop_last();
        let c = s.last();
        let bu = lemma_split_bounds(u, seps);
        let p = split_on(u, seps);
        let n = s.len() as int;
        assert forall|m: int| 0 <= m < u.len() implies u[m] == s[m] by {}
        if seps.contains(c) {
            let b = bu.push((n, n));
            assert forall|k: int|
                0 <= k < b.len() implies {
                let (i, j) = #[trigger] b[k];
                &&& 0 <= i <= j <= s.len()
                &&& split_on(s, seps)[k] == s.subrange(i, j)
                &&& (i == 0 || seps.contains(s[i - 1]))
                &&& (k < b.len() - 1 ==> j < s.len() && seps.contains(s[j]))
                &&& (k == b.len() - 1 ==> j == s.len())
                &&& forall|m: int| i <= m < j ==> !seps.contains(#[trigger] s[m])
            } by {
                if k < bu.len() {
                    let (i, j) = bu[k];
                    assert(b[k] == bu[k]);
                    assert(split_on(s, seps)[k] == p[k]);
                    assert(p[k] =~= s.subrange(i, j));
                    assert forall|m: int| i <= m < j implies !seps.contains(#[trigger] s[m]) by {
                        assert(s[m] == u[m]);
                    }
                    if k == bu.len() - 1 {
                        assert(s[j] == c);
                    }
                } else {
                    assert(split_on(s, seps)[k] =~= s.subrange(n, n));
                    assert(s[n - 1] == c);
                }
            }
            b
        } else {
            let l = bu.len();
            let (i0, j0) = bu[l - 1];
            let b = bu.update(l - 1, (i0, n));
            assert forall|k: int|
                0 <= k < b.len() implies {
                let (i, j) = #[trigger] b[k];
                &&& 0 <= i <= j <= s.len()
                &&& split_on(s, seps)[k] == s.subrange(i, j)
                &&& (i == 0 || seps.contains(s[i - 1]))
                &&& (k < b.len() - 1 ==> j < s.len() && seps.contains(s[j]))
                &&& (k == b.len() - 1 ==> j == s.len())
                &&& forall|m: int| i <= m < j ==> !seps.contains(#[trigger] s[m])
            } by {
                if k < l - 1 {
                    let (i, j) = bu[k];
                    assert(b[k] == bu[k]);
                    assert(split_on(s, seps)[k] == p[k]);
                    assert(p[k] =~= s.subrange(i, j));
                    assert forall|m: int| i <= m < j implies !seps.contains(#[trigger] s[m]) by {
                        assert(s[m] == u[m]);
                    }
                } else {
                    assert(split_on(s, seps)[k] == p[l - 1].push(c));
                    assert(p[l - 1] =~= u.subrange(i0, j0));
                    assert(p[l - 1].push(c) =~= s.subrange(i0, n));
                    assert forall|m: int| i0 <= m < n implies !seps.contains(#[trigger] s[m]) by {
                        if m < n - 1 {
                            assert(s[m] == u[m]);
                        }
                    }
                    if i0 > 0 {
                        assert(s[i0 - 1] == u[i0 - 1]);
                    }
                }
            }
            b
        }
    }
}

/// Every kept piece is the trimmed text of some piece, and is not empty.
proof fn lemma_nonempty_trimmed(ps: Seq<Seq<char>>)
    ensures
        forall|n: int|
            0 <= n < nonempty_trimmed(ps).len() ==> #[trigger] nonempty_trimmed(ps)[n].len() > 0 && exists|k: int|
                0 <= k < ps.len() && nonempty_trimmed(ps)[n] == trimmed(#[trigger] ps[k]),
    decreases ps.len(),
{
    if ps.len() > 0 {
        let front = ps.drop_last();
        lemma_nonempty_trimmed(front);
        let rest = nonempty_trimmed(front);
        let out = nonempty_trimmed(ps);
        assert forall|n: int| 0 <= n < out.len() implies #[trigger] out[n].len() > 0 && exists|k: int|
            0 <= k < ps.len() && out[n] == trimmed(#[trigger] ps[k]) by {
            if n < rest.len() {
                assert(out[n] == rest[n]);
                let k = choose|k: int| 0 <= k < front.len() && rest[n] == trimmed(#[trigger] front[k]);
                assert(ps[k] == front[k]);
            } else {
                assert(out[n] == trimmed(ps[ps.len() - 1]));
            }
        }
    }
}

proof fn lemma_split_nonempty(s: Seq<char>, seps: Seq<char>)
    ensures
        split_on(s, seps).len() >= 1,
    decreases s.len(),
{
    if s.len() > 0 {
        lemma_split_nonempty(s.drop_last(), seps);
    }
}

impl Record {
    /// Every environment name this input answers to.
    pub fn env_names(&self) -> (r: Vec<&str>)
        ensures
            str_views(r@) == self.spec_env_names(),
    {
        let mut r: Vec<&str> = Vec::new();
        match &self.env {
            None => {
                assert(str_views(r@) =~= self.spec_env_names());
            },
            Some(e) => {
                r.push(e.name.as_str());
                let mut i: usize = 0;
                while i < e.aliases.len()
                    invariant
                        i <= e.aliases@.len(),
                        str_views(r@) == seq![e.name@] + views(e.aliases@.take(i as int)),
                    decreases e.aliases.len() - i,
                {
                    let ghost before = r@;
                    let a = e.aliases[i].as_str();
                    r.push(a);
                    assert(r@ == before.push(a));
                    assert(str_views(r@) =~= str_views(before).push(e.aliases@[i as int]@));
                    assert(views(e.aliases@.take(i + 1)) =~= views(e.aliases@.take(i as int)).push(
                        e.aliases@[i as int]@,
                    ));
                    assert(str_views(r@) =~= seq![e.name@] + views(e.aliases@.take(i + 1)));
                    i += 1;
                }
                assert(e.aliases@.take(e.aliases@.len() as int) =~= e.aliases@);
                assert(str_views(r@) =~= self.spec_env_names());
            },
        }
        r
    }

    /// Every argument spelling this input answers to, dashes included.
    pub fn arg_labels(&self) -> (r: Vec<String>)
        ensures
            views(r@) == self.spec_arg_labels(),
    {
        let mut v: Vec<String> = Vec::new();
        if let Some(a) = &self.arg {
            if let Some(s) = &a.short {
                v.push(cat("-", s.as_str()));
            }
            if let Some(l) = &a.long {
                v.push(cat("--", l.as_str()));
                if a.negatable {
                    v.push(cat("--no-", l.as_str()));
                }
            }
        }
        assert(views(v@) =~= self.spec_arg_labels());
        v
    }

    /// The signature as it would appear in help output, e.g.
    /// `-l, --log-level <LEVEL>`. Empty when the input has no argument form.
    pub fn usage(&self) -> (u: String)
        ensures
            u@ == self.spec_usage(),
    {
        match &self.arg {
            None => String::new(),
            Some(a) => {
                let mut parts: Vec<String> = Vec::new();
                if let Some(s) = &a.short {
                    parts.push(cat("-", s.as_str()));
                }
                if let Some(l) = &a.long {
                    parts.push(cat("--", l.as_str()));
                }
                let mut out = join(parts.as_slice(), ", ");
                assert(views(parts@) =~= match a.short {
                    Some(s) => seq!["-"@ + s@],
                    None => Seq::<Seq<char>>::empty(),
                } + match a.long {
                    Some(l) => seq!["--"@ + l@],
                    None => Seq::<Seq<char>>::empty(),
                });
                if a.arity > 0 {
                    out.append(" <");
                    match &a.value_name {
                        Some(v) => out.append(v.as_str()),
                        None => out.append("VALUE"),
                    }
                    out.append(">");
                }
                out
            },
        }
    }

    /// Whether `raw` is a legal value, judged from the declaration's metadata
    /// alone: the cross-language check, using only what the published
    /// contract carries.
    pub fn accepts(&self, raw: &str) -> (r: Result<(), String>)
        ensures
            r is Ok <==> self.spec_accepts(raw@) is Ok,
            r matches Err(m) ==> self.spec_accepts(raw@) == Err::<(), Seq<char>>(m@),
    {
        let v = trim(raw);
        let ty = self.ty.as_str();
        if str_eq(ty, "bool") {
            let ok = str_eq(v, "1") || str_eq(v, "0") || str_eq(v, "true") || str_eq(v, "false")
                || str_eq(v, "True") || str_eq(v, "False") || str_eq(v, "on") || str_eq(v, "off")
                || str_eq(v, "yes") || str_eq(v, "no") || str_eq(v, "");
            if ok {
                Ok(())
            } else {
                Err(owned("expected a boolean"))
            }
        } else if str_eq(ty, "uint") {
            match read_int(v, false) {
                Some(_) => Ok(()),
                None => Err(owned("expected a non-negative integer")),
            }
        } else if str_eq(ty, "int") {
            match read_int(v, true) {
                Some((neg, m)) => {
                    if (neg && m <= 0x8000_0000_0000_0000) || (!neg && m <= 0x7fff_ffff_ffff_ffff) {
                        Ok(())
                    } else {
                        Err(owned("expected an integer"))
                    }
                },
                None => Err(owned("expected an integer")),
            }
        } else if str_eq(ty, "float") {
            if is_float_text(v) {
                Ok(())
            } else {
                Err(owned("expected a number"))
            }
        } else if str_eq(ty, "enum") {
            if contains_str(self.allowed.as_slice(), v) {
                Ok(())
            } else {
                Err(cat("accepted: ", join(self.allowed.as_slice(), ", ").as_str()))
            }
        } else if str_eq(ty, "list") || str_eq(ty, "path") || str_eq(ty, "string") {
            Ok(())
        } else {
            Err(cat3("unknown declared type `", ty, "`"))
        }
    }

    /// The separator characters of this input.
    fn separator_chars(&self) -> (r: Vec<char>)
        ensures
            r@ == self.spec_separator_chars(),
    {
        let mut r: Vec<char> = Vec::new();
        let mut i: usize = 0;
        while i < self.separators.len()
            invariant
                i <= self.separators@.len(),
                r@ == first_chars(views(self.separators@.take(i as int))),
            decreases self.separators.len() - i,
        {
            let s = self.separators[i].as_str();
            let ghost next = views(self.separators@.take(i + 1));
            assert(next.drop_last() =~= views(self.separators@.take(i as int)));
            if s.unicode_len() > 0 {
                r.push(s.get_char(0));
            }
            i += 1;
        }
        assert(self.separators@.take(self.separators@.len() as int) =~= self.separators@);
        r
    }

    /// Split a list value into its tokens using the declared separators.
    /// Empty when this input is not a list.
    pub fn tokens<'a>(&self, raw: &'a str) -> (r: Vec<&'a str>)
        ensures
            str_views(r@) == self.spec_tokens(raw@),
    {
        let mut out: Vec<&'a str> = Vec::new();
        if !str_eq(self.ty.as_str(), "list") || self.separators.len() == 0 {
            assert(str_views(out@) =~= self.spec_tokens(raw@));
            return out;
        }
        let seps = self.separator_chars();
        let n = raw.unicode_len();
        let mut start: usize = 0;
        let mut i: usize = 0;
        while i < n
            invariant
                n == raw@.len(),
                start <= i <= n,
                seps@ == self.spec_separator_chars(),
                split_on(raw@.take(i as int), seps@).len() >= 1,
                split_on(raw@.take(i as int), seps@).last() == raw@.subrange(start as int, i as int),
                str_views(out@) == nonempty_trimmed(
                    split_on(raw@.take(i as int), seps@).drop_last(),
                ),
            decreases n - i,
        {
            let c = raw.get_char(i);
            let ghost prev = split_on(raw@.take(i as int), seps@);
            assert(raw@.take(i + 1).drop_last() =~= raw@.take(i as int));
            if char_in(c, &seps) {
                let piece = trim(raw.substring_char(start, i));
                if piece.unicode_len() > 0 {
                    out.push(piece);
                }
                proof {
                    let next = split_on(raw@.take(i + 1), seps@);
                    assert(next =~= prev.push(Seq::empty()));
                    assert(next.drop_last() =~= prev);
                    assert(prev.drop_last().push(prev.last()) =~= prev);
                    assert(str_views(out@) =~= nonempty_trimmed(prev));
                }
                start = i + 1;
            } else {
                proof {
                    let next = split_on(raw@.take(i + 1), seps@);
                    assert(next.drop_last() =~= prev.drop_last());
                    assert(next.last() =~= raw@.subrange(start as int, i + 1));
                }
            }
            i += 1;
        }
        let piece = trim(raw.substring_char(start, n));
        if piece.unicode_len() > 0 {
            out.push(piece);
        }
        proof {
            let all = split_on(raw@.take(n as int), seps@);
            assert(raw@.take(n as int) =~= raw@);
            assert(all.drop_last().push(all.last()) =~= all);
            assert(str_views(out@) =~= nonempty_trimmed(all));
        }
        out
    }
}


/// A contract document: the envelope around a program's records, carrying the
/// format version, provenance and precedence.
#[derive(Clone, Debug)]
pub struct Document {
    /// The major version of the contract format.
    pub contract_version: u32,
    /// The emitting project and revision, e.g. `myapp@a1b2c3d`.
    pub source: String,
    /// When the document was emitted, RFC 3339 in UTC.
    pub generated: String,
    /// Which binding wins when more than one supplies a value, strongest first.
    pub precedence: Vec<String>,
    /// Every input the program accepts.
    pub inputs: Vec<Record>,
}

/// The precedence order, strongest first.
pub open spec fn spec_precedence() -> Seq<Seq<char>> {
    seq!["arg"@, "env"@, "default"@]
}

/// Wrap a program's records in the standard envelope, stamped with the
/// current moment.
///
/// The clock is read, so nothing fixes which moment: `generated` is the UTC
/// timestamp of some moment.
pub fn document(source: &str, records: Vec<Record>) -> (d: Document)
    ensures
        d.contract_version == CONTRACT_VERSION,
        d.source@ == source@,
        crate::date::is_timestamp(d.generated@),
        views(d.precedence@) == spec_precedence(),
        d.inputs@ == records@,
{
    let precedence = owned_all(&PRECEDENCE);
    assert(str_views(PRECEDENCE@) =~= spec_precedence());
    Document {
        contract_version: CONTRACT_VERSION,
        source: owned(source),
        generated: crate::date::now_iso(),
        precedence,
        inputs: records,
    }
}

} // verus!
