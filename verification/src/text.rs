//! Character-level text helpers shared by the parsers and renderers.
use vstd::prelude::*;

verus! {

/// Whether `c` is an ASCII decimal digit.
pub open spec fn is_digit(c: char) -> bool {
    '0' <= c && c <= '9'
}

/// The numeric value of an ASCII digit.
pub open spec fn digit_value(c: char) -> int {
    c as int - '0' as int
}

/// The ASCII digit for a value below ten.
pub open spec fn digit_char(d: int) -> char {
    (d + '0' as int) as char
}

/// The decimal value of a run of digits, most significant first.
pub open spec fn decimal_value(s: Seq<char>) -> int
    decreases s.len(),
{
    if s.len() == 0 {
        0
    } else {
        decimal_value(s.drop_last()) * 10 + digit_value(s.last())
    }
}

/// Every character of `s` is a digit.
pub open spec fn all_digits(s: Seq<char>) -> bool {
    forall|i: int| 0 <= i < s.len() ==> is_digit(#[trigger] s[i])
}

/// The shortest decimal spelling of `n`.
pub open spec fn decimal(n: nat) -> Seq<char>
    decreases n,
{
    if n < 10 {
        seq![digit_char(n as int)]
    } else {
        decimal(n / 10).push(digit_char((n % 10) as int))
    }
}

/// `n` in decimal, left-padded with zeros to at least `width` characters.
pub open spec fn zero_padded(n: nat, width: nat) -> Seq<char> {
    let d = decimal(n);
    if d.len() >= width {
        d
    } else {
        Seq::new((width - d.len()) as nat, |i: int| '0') + d
    }
}

/// Appends one character to a string (`String::push`).
#[verifier::external_body]
pub(crate) fn push_char(s: &mut String, c: char)
    ensures
        final(s)@ == old(s)@.push(c),
{
    s.push(c);
}

/// Appends the decimal spelling of `n`.
pub(crate) fn push_decimal(s: &mut String, n: u64)
    ensures
        final(s)@ == old(s)@ + decimal(n as nat),
    decreases n,
{
    if n >= 10 {
        push_decimal(s, n / 10);
    }
    let d: u8 = (n % 10) as u8;
    push_char(s, (d + 48u8) as char);
    assert(old(s)@ + decimal(n as nat) =~= s@);
}

/// Appends `n` in decimal, left-padded with zeros to at least `width` characters.
pub(crate) fn push_padded(s: &mut String, n: u64, width: usize)
    ensures
        final(s)@ == old(s)@ + zero_padded(n as nat, width as nat),
{
    let mut digits = String::new();
    push_decimal(&mut digits, n);
    let len = digits.as_str().unicode_len();
    let ghost start = s@;
    let mut k: usize = len;
    while k < width
        invariant
            len == decimal(n as nat).len(),
            len <= k,
            k <= width || k == len,
            s@ == start + Seq::new((k - len) as nat, |i: int| '0'),
        decreases width - k,
    {
        push_char(s, '0');
        assert(start + Seq::new((k + 1 - len) as nat, |i: int| '0') =~= start + Seq::new(
            (k - len) as nat,
            |i: int| '0',
        ).push('0'));
        k += 1;
    }
    s.append(digits.as_str());
    assert(s@ =~= start + zero_padded(n as nat, width as nat));
}


/// Whether two strings hold the same characters.
pub fn str_eq(a: &str, b: &str) -> (r: bool)
    ensures
        r == (a@ == b@),
{
    let n = a.unicode_len();
    if n != b.unicode_len() {
        return false;
    }
    let mut i: usize = 0;
    while i < n
        invariant
            n == a@.len(),
            n == b@.len(),
            i <= n,
            forall|j: int| 0 <= j < i ==> a@[j] == b@[j],
        decreases n - i,
    {
        if a.get_char(i) != b.get_char(i) {
            return false;
        }
        i += 1;
    }
    assert(a@ =~= b@);
    true
}

/// A fresh string holding `s`.
pub fn owned(s: &str) -> (r: String)
    ensures
        r@ == s@,
{
    String::from_str(s)
}


/// Unicode `White_Space`, as `char::is_whitespace` and `str::trim` use it.
pub open spec fn is_whitespace(c: char) -> bool {
    ||| '\t' <= c <= '\r'
    ||| c == ' '
    ||| c == '\u{85}'
    ||| c == '\u{a0}'
    ||| c == '\u{1680}'
    ||| '\u{2000}' <= c <= '\u{200a}'
    ||| c == '\u{2028}'
    ||| c == '\u{2029}'
    ||| c == '\u{202f}'
    ||| c == '\u{205f}'
    ||| c == '\u{3000}'
}

/// Whether `c` is Unicode whitespace.
pub fn char_is_whitespace(c: char) -> (r: bool)
    ensures
        r == is_whitespace(c),
{
    ('\t' <= c && c <= '\r') || c == ' ' || c == '\u{85}' || c == '\u{a0}' || c == '\u{1680}'
        || ('\u{2000}' <= c && c <= '\u{200a}') || c == '\u{2028}' || c == '\u{2029}' || c
        == '\u{202f}' || c == '\u{205f}' || c == '\u{3000}'
}

/// `s` without its leading whitespace.
pub open spec fn trim_start(s: Seq<char>) -> Seq<char>
    decreases s.len(),
{
    if s.len() > 0 && is_whitespace(s[0]) {
        trim_start(s.drop_first())
    } else {
        s
    }
}

/// `s` without its trailing whitespace.
pub open spec fn trim_end(s: Seq<char>) -> Seq<char>
    decreases s.len(),
{
    if s.len() > 0 && is_whitespace(s.last()) {
        trim_end(s.drop_last())
    } else {
        s
    }
}

/// `s` without leading and trailing whitespace, as `str::trim` gives it.
pub open spec fn trimmed(s: Seq<char>) -> Seq<char> {
    trim_end(trim_start(s))
}

proof fn lemma_trim_start(s: Seq<char>)
    ensures
        trim_start(s).len() <= s.len(),
        trim_start(s) =~= s.skip(s.len() - trim_start(s).len()),
        trim_start(s).len() > 0 ==> !is_whitespace(trim_start(s)[0]),
    decreases s.len(),
{
    if s.len() > 0 && is_whitespace(s[0]) {
        lemma_trim_start(s.drop_first());
        let t = trim_start(s.drop_first());
        assert(s.drop_first().skip(s.drop_first().len() - t.len()) =~= s.skip(s.len() - t.len()));
    }
}

proof fn lemma_trim_end(s: Seq<char>)
    ensures
        trim_end(s).len() <= s.len(),
        trim_end(s) =~= s.take(trim_end(s).len() as int),
        trim_end(s).len() > 0 ==> !is_whitespace(trim_end(s).last()),
    decreases s.len(),
{
    if s.len() > 0 && is_whitespace(s.last()) {
        lemma_trim_end(s.drop_last());
        let t = trim_end(s.drop_last());
        assert(s.drop_last().take(t.len() as int) =~= s.take(t.len() as int));
    }
}

/// Trimmed text is empty or starts and ends with a character that is not
/// whitespace.
pub proof fn lemma_trimmed_ends(s: Seq<char>)
    ensures
        trimmed(s).len() > 0 ==> !is_whitespace(trimmed(s)[0]) && !is_whitespace(trimmed(s).last()),
{
    let u = trim_start(s);
    lemma_trim_start(s);
    lemma_trim_end(u);
    if trimmed(s).len() > 0 {
        assert(trimmed(s)[0] == u[0]);
    }
}

/// `s` without leading and trailing whitespace.
pub fn trim(s: &str) -> (r: &str)
    ensures
        r@ == trimmed(s@),
{
    let n = s.unicode_len();
    let mut i: usize = 0;
    assert(s@.subrange(0, n as int) =~= s@);
    while i < n && char_is_whitespace(s.get_char(i))
        invariant
            n == s@.len(),
            i <= n,
            trim_start(s@) == trim_start(s@.subrange(i as int, n as int)),
        decreases n - i,
    {
        assert(s@.subrange(i as int, n as int).drop_first() =~= s@.subrange(i + 1, n as int));
        i += 1;
    }
    assert(trim_start(s@) == s@.subrange(i as int, n as int));
    let mut j: usize = n;
    while j > i && char_is_whitespace(s.get_char(j - 1))
        invariant
            n == s@.len(),
            i <= j <= n,
            trimmed(s@) == trim_end(s@.subrange(i as int, j as int)),
        decreases j,
    {
        assert(s@.subrange(i as int, j as int).drop_last() =~= s@.subrange(i as int, j - 1));
        j -= 1;
    }
    s.substring_char(i, j)
}

/// An optional sign, then at least one digit, as Rust's integer `from_str`
/// reads it. `None` for anything else; a `-` only when `signed`.
pub open spec fn int_text(t: Seq<char>, signed: bool) -> Option<int> {
    if t.len() > 0 && t[0] == '+' {
        digits_value(t.drop_first())
    } else if signed && t.len() > 0 && t[0] == '-' {
        match digits_value(t.drop_first()) {
            Some(v) => Some(-v),
            None => None,
        }
    } else {
        digits_value(t)
    }
}

/// The value of a non-empty run of digits.
pub open spec fn digits_value(d: Seq<char>) -> Option<int> {
    if d.len() > 0 && all_digits(d) {
        Some(decimal_value(d))
    } else {
        None
    }
}

pub proof fn lemma_decimal_value_nonneg(d: Seq<char>)
    requires
        all_digits(d),
    ensures
        decimal_value(d) >= 0,
    decreases d.len(),
{
    if d.len() > 0 {
        assert(all_digits(d.drop_last())) by {
            assert forall|i: int| 0 <= i < d.drop_last().len() implies is_digit(
                #[trigger] d.drop_last()[i],
            ) by {
                assert(d.drop_last()[i] == d[i]);
            }
        }
        lemma_decimal_value_nonneg(d.drop_last());
    }
}

/// Ten to the power `n`.
pub open spec fn ten_to(n: nat) -> int
    decreases n,
{
    if n == 0 {
        1
    } else {
        10 * ten_to((n - 1) as nat)
    }
}

proof fn lemma_digits_prefix(d: Seq<char>)
    requires
        all_digits(d),
        d.len() > 0,
    ensures
        all_digits(d.drop_last()),
        0 <= digit_value(d.last()) < 10,
{
    assert forall|i: int| 0 <= i < d.drop_last().len() implies is_digit(#[trigger] d.drop_last()[i]) by {
        assert(d.drop_last()[i] == d[i]);
    }
    assert(is_digit(d[d.len() - 1]));
}

/// A run of `n` digits is worth less than ten to the `n`.
pub proof fn lemma_decimal_value_below(d: Seq<char>)
    requires
        all_digits(d),
    ensures
        0 <= decimal_value(d) < ten_to(d.len()),
    decreases d.len(),
{
    if d.len() > 0 {
        lemma_digits_prefix(d);
        lemma_decimal_value_below(d.drop_last());
        let x = decimal_value(d.drop_last());
        let p = ten_to(d.drop_last().len());
        let c = digit_value(d.last());
        assert(d.drop_last().len() == d.len() - 1);
        assert(0 <= x * 10 + c < 10 * p) by (nonlinear_arith)
            requires
                0 <= x < p,
                0 <= c < 10,
        ;
    }
}

/// Two runs of digits of one length and one value are the same text.
pub proof fn lemma_decimal_value_injective(a: Seq<char>, b: Seq<char>)
    requires
        all_digits(a),
        all_digits(b),
        a.len() == b.len(),
        decimal_value(a) == decimal_value(b),
    ensures
        a == b,
    decreases a.len(),
{
    if a.len() > 0 {
        lemma_digits_prefix(a);
        lemma_digits_prefix(b);
        lemma_decimal_value_nonneg(a.drop_last());
        lemma_decimal_value_nonneg(b.drop_last());
        let x = decimal_value(a.drop_last());
        let y = decimal_value(b.drop_last());
        let c = digit_value(a.last());
        let e = digit_value(b.last());
        assert(x == y && c == e) by (nonlinear_arith)
            requires
                x * 10 + c == y * 10 + e,
                0 <= c < 10,
                0 <= e < 10,
        ;
        lemma_decimal_value_injective(a.drop_last(), b.drop_last());
        assert(a.last() == b.last());
        assert forall|i: int| 0 <= i < a.len() implies a[i] == b[i] by {
            if i < a.len() - 1 {
                assert(a[i] == a.drop_last()[i] && b[i] == b.drop_last()[i]);
            }
        }
        assert(a =~= b);
    }
}

proof fn lemma_decimal_value_monotone(d: Seq<char>, k: int)
    requires
        all_digits(d),
        0 <= k <= d.len(),
    ensures
        decimal_value(d.take(k)) <= decimal_value(d),
    decreases d.len() - k,
{
    if k < d.len() {
        let e = d.take(k + 1);
        assert(e.drop_last() =~= d.take(k));
        assert(all_digits(e)) by {
            assert forall|i: int| 0 <= i < e.len() implies is_digit(#[trigger] e[i]) by {
                assert(e[i] == d[i]);
            }
        }
        assert(all_digits(d.take(k))) by {
            assert forall|i: int| 0 <= i < d.take(k).len() implies is_digit(#[trigger] d.take(k)[i]) by {
                assert(d.take(k)[i] == d[i]);
            }
        }
        lemma_decimal_value_nonneg(d.take(k));
        lemma_decimal_value_monotone(d, k + 1);
    } else {
        assert(d.take(k) =~= d);
    }
}

/// Reads `t` as an optionally signed decimal integer: the sign and the
/// magnitude. `None` when `t` is not one, or its magnitude exceeds `u64::MAX`.
pub fn read_int(t: &str, signed: bool) -> (r: Option<(bool, u64)>)
    ensures
        r matches Some((neg, m)) ==> int_text(t@, signed) == Some(if neg {
            -(m as int)
        } else {
            m as int
        }) && (neg ==> signed),
        r is None ==> match int_text(t@, signed) {
            Some(v) => v > u64::MAX || v < -(u64::MAX as int),
            None => true,
        },
{
    let n = t.unicode_len();
    let mut start: usize = 0;
    let mut neg = false;
    if n > 0 {
        let c = t.get_char(0);
        if c == '+' {
            start = 1;
        } else if signed && c == '-' {
            start = 1;
            neg = true;
        }
    }
    let ghost d = t@.subrange(start as int, n as int);
    assert(start == 1 ==> d =~= t@.drop_first());
    assert(start == 0 ==> d =~= t@);
    assert(int_text(t@, signed) == if neg {
        match digits_value(d) {
            Some(v) => Some(-v),
            None => None,
        }
    } else {
        digits_value(d)
    });
    if start >= n {
        return None;
    }
    let mut acc: u64 = 0;
    let mut i: usize = start;
    while i < n
        invariant
            n == t@.len(),
            start <= i <= n,
            d == t@.subrange(start as int, n as int),
            int_text(t@, signed) == if neg {
                match digits_value(d) {
                    Some(v) => Some(-v),
                    None => None,
                }
            } else {
                digits_value(d)
            },
            all_digits(t@.subrange(start as int, i as int)),
            acc as int == decimal_value(t@.subrange(start as int, i as int)),
        decreases n - i,
    {
        let c = t.get_char(i);
        if !('0' <= c && c <= '9') {
            proof {
                assert(d[i - start] == t@[i as int]);
                assert(!is_digit(d[i - start]));
                assert(!all_digits(d));
            }
            return None;
        }
        let v: u64 = (c as u32 - 48) as u64;
        let ghost next = t@.subrange(start as int, i + 1);
        assert(next.drop_last() =~= t@.subrange(start as int, i as int));
        assert(all_digits(next)) by {
            assert forall|k: int| 0 <= k < next.len() implies is_digit(#[trigger] next[k]) by {
                if k < next.len() - 1 {
                    assert(next[k] == t@.subrange(start as int, i as int)[k]);
                }
            }
        }
        if acc > (u64::MAX - v) / 10 {
            proof {
                assert(decimal_value(next) > u64::MAX);
                assert(d.take(i + 1 - start) =~= next);
                if all_digits(d) {
                    lemma_decimal_value_monotone(d, i + 1 - start);
                }
            }
            return None;
        }
        acc = acc * 10 + v;
        i += 1;
    }
    assert(d =~= t@.subrange(start as int, i as int));
    Some((neg, acc))
}


/// The views of a sequence of strings.
pub open spec fn views(v: Seq<String>) -> Seq<Seq<char>> {
    v.map_values(|s: String| s@)
}

/// The views of a sequence of string slices.
pub open spec fn str_views(v: Seq<&str>) -> Seq<Seq<char>> {
    v.map_values(|s: &str| s@)
}

/// `items` joined by `sep`, as `[String]::join` gives it.
pub open spec fn joined(items: Seq<Seq<char>>, sep: Seq<char>) -> Seq<char>
    decreases items.len(),
{
    if items.len() == 0 {
        Seq::empty()
    } else if items.len() == 1 {
        items[0]
    } else {
        joined(items.drop_last(), sep) + sep + items.last()
    }
}

/// Joins `items` with `sep` between them.
pub fn join(items: &[String], sep: &str) -> (r: String)
    ensures
        r@ == joined(views(items@), sep@),
{
    let mut r = String::new();
    let mut i: usize = 0;
    while i < items.len()
        invariant
            i <= items@.len(),
            r@ == joined(views(items@.take(i as int)), sep@),
        decreases items.len() - i,
    {
        if i > 0 {
            r.append(sep);
        }
        r.append(items[i].as_str());
        proof {
            let next = views(items@.take(i + 1));
            assert(next.drop_last() =~= views(items@.take(i as int)));
            if i == 0 {
                assert(views(items@.take(i as int)) =~= Seq::<Seq<char>>::empty());
            }
        }
        i += 1;
    }
    assert(items@.take(items@.len() as int) =~= items@);
    r
}

/// `a` followed by `b`, as a fresh string.
pub fn cat(a: &str, b: &str) -> (r: String)
    ensures
        r@ == a@ + b@,
{
    let mut r = String::from_str(a);
    r.append(b);
    r
}

/// `a`, `b` and `c` in order, as a fresh string.
pub fn cat3(a: &str, b: &str, c: &str) -> (r: String)
    ensures
        r@ == a@ + b@ + c@,
{
    let mut r = String::from_str(a);
    r.append(b);
    r.append(c);
    r
}

/// Whether `c` is one of `set`.
pub fn char_in(c: char, set: &Vec<char>) -> (r: bool)
    ensures
        r == set@.contains(c),
{
    let mut i: usize = 0;
    while i < set.len()
        invariant
            i <= set@.len(),
            forall|j: int| 0 <= j < i ==> set@[j] != c,
        decreases set.len() - i,
    {
        if set[i] == c {
            return true;
        }
        i += 1;
    }
    false
}

/// Whether `s` is one of `items`.
pub fn contains_str(items: &[String], s: &str) -> (r: bool)
    ensures
        r == views(items@).contains(s@),
{
    let mut i: usize = 0;
    while i < items.len()
        invariant
            i <= items@.len(),
            forall|j: int| 0 <= j < i ==> items@[j]@ != s@,
        decreases items.len() - i,
    {
        if str_eq(items[i].as_str(), s) {
            assert(views(items@)[i as int] == s@);
            return true;
        }
        i += 1;
    }
    assert(!views(items@).contains(s@)) by {
        if views(items@).contains(s@) {
            let j = choose|j: int| 0 <= j < views(items@).len() && views(items@)[j] == s@;
            assert(items@[j]@ == s@);
        }
    }
    false
}

/// `c` in lower case, for the ASCII letters.
pub open spec fn ascii_lower(c: char) -> char {
    if 'A' <= c <= 'Z' {
        ((c as int) + 32) as char
    } else {
        c
    }
}

/// `s` with its ASCII letters in lower case.
pub open spec fn lowered(s: Seq<char>) -> Seq<char> {
    s.map_values(|c: char| ascii_lower(c))
}

/// A sign, `+` or `-`.
pub open spec fn is_sign(c: char) -> bool {
    c == '+' || c == '-'
}

/// The position of the first `c` in `s`, or its length when there is none.
pub open spec fn find_char(s: Seq<char>, c: char) -> int
    decreases s.len(),
{
    if s.len() == 0 {
        0
    } else if s[0] == c {
        0
    } else {
        1 + find_char(s.drop_first(), c)
    }
}

/// A decimal mantissa: digits, optionally with one `.` among them, and at
/// least one digit in all.
pub open spec fn mantissa_ok(m: Seq<char>) -> bool {
    let dot = find_char(m, '.');
    let int_part = m.take(dot);
    let frac = if dot < m.len() {
        m.skip(dot + 1)
    } else {
        Seq::empty()
    };
    all_digits(int_part) && all_digits(frac) && int_part.len() + frac.len() > 0
}

/// An exponent: nothing, or `e`, an optional sign and at least one digit.
pub open spec fn exponent_ok(x: Seq<char>) -> bool {
    x.len() == 0 || (x[0] == 'e' && {
        let rest = x.drop_first();
        let digits = if rest.len() > 0 && is_sign(rest[0]) {
            rest.drop_first()
        } else {
            rest
        };
        digits.len() > 0 && all_digits(digits)
    })
}

/// The text of a floating-point number as Rust's `f64::from_str` accepts it,
/// read in lower case: an optional sign, then `inf`, `infinity`, `nan` or a
/// decimal mantissa with an optional exponent.
pub open spec fn float_ok(t: Seq<char>) -> bool {
    let u = lowered(t);
    let body = if u.len() > 0 && is_sign(u[0]) {
        u.drop_first()
    } else {
        u
    };
    ||| body == "inf"@
    ||| body == "infinity"@
    ||| body == "nan"@
    ||| {
        let e = find_char(body, 'e');
        mantissa_ok(body.take(e)) && exponent_ok(body.skip(e))
    }
}


/// `find_char` is the first position holding `c`, or the length.
pub proof fn lemma_find_char(s: Seq<char>, c: char, k: int)
    requires
        0 <= k <= s.len(),
        forall|j: int| 0 <= j < k ==> s[j] != c,
        k == s.len() || s[k] == c,
    ensures
        find_char(s, c) == k,
    decreases k,
{
    if k > 0 {
        assert forall|j: int| 0 <= j < k - 1 implies s.drop_first()[j] != c by {
            assert(s.drop_first()[j] == s[j + 1]);
        }
        lemma_find_char(s.drop_first(), c, k - 1);
    }
}

/// The position of the first `c` in `v[from..to]`, relative to `from`.
fn find_in(v: &Vec<char>, from: usize, to: usize, c: char) -> (r: usize)
    requires
        from <= to <= v@.len(),
    ensures
        from <= r <= to,
        r - from == find_char(v@.subrange(from as int, to as int), c),
        r < to ==> v@[r as int] == c,
{
    let mut k: usize = from;
    while k < to && v[k] != c
        invariant
            from <= k <= to,
            to <= v@.len(),
            forall|j: int| from <= j < k ==> v@[j] != c,
        decreases to - k,
    {
        k += 1;
    }
    proof {
        let sub = v@.subrange(from as int, to as int);
        assert forall|j: int| 0 <= j < k - from implies sub[j] != c by {
            assert(sub[j] == v@[from + j]);
        }
        lemma_find_char(sub, c, k - from);
    }
    k
}

/// Whether `v[from..to]` is all digits.
fn digits_in(v: &Vec<char>, from: usize, to: usize) -> (r: bool)
    requires
        from <= to <= v@.len(),
    ensures
        r == all_digits(v@.subrange(from as int, to as int)),
{
    let mut k: usize = from;
    while k < to
        invariant
            from <= k <= to,
            to <= v@.len(),
            forall|j: int| from <= j < k ==> is_digit(#[trigger] v@[j]),
        decreases to - k,
    {
        let c = v[k];
        if !('0' <= c && c <= '9') {
            assert(v@.subrange(from as int, to as int)[k - from] == c);
            return false;
        }
        k += 1;
    }
    assert forall|j: int| 0 <= j < to - from implies is_digit(
        #[trigger] v@.subrange(from as int, to as int)[j],
    ) by {
        assert(v@.subrange(from as int, to as int)[j] == v@[from + j]);
    }
    true
}

/// Whether `v[from..]` spells `word`.
fn spells(v: &Vec<char>, from: usize, word: &str) -> (r: bool)
    requires
        from <= v@.len(),
    ensures
        r == (v@.subrange(from as int, v@.len() as int) == word@),
{
    let n = word.unicode_len();
    let total = v.len();
    if total - from != n {
        return false;
    }
    let mut k: usize = 0;
    while k < n
        invariant
            n == word@.len(),
            total == v@.len(),
            from + n == total,
            k <= n,
            forall|j: int| 0 <= j < k ==> v@[from + j] == word@[j],
        decreases n - k,
    {
        if v[from + k] != word.get_char(k) {
            assert(v@.subrange(from as int, v@.len() as int)[k as int] != word@[k as int]);
            return false;
        }
        k += 1;
    }
    assert(v@.subrange(from as int, v@.len() as int) =~= word@);
    true
}

fn lower_chars(t: &str) -> (u: Vec<char>)
    ensures
        u@ == lowered(t@),
{
    let n = t.unicode_len();
    let mut u: Vec<char> = Vec::new();
    let mut i: usize = 0;
    while i < n
        invariant
            n == t@.len(),
            i <= n,
            u@ == lowered(t@).take(i as int),
        decreases n - i,
    {
        let c = t.get_char(i);
        let l = if 'A' <= c && c <= 'Z' {
            (((c as u32) + 32) as u8) as char
        } else {
            c
        };
        u.push(l);
        assert(u@ =~= lowered(t@).take(i + 1));
        i += 1;
    }
    assert(u@ =~= lowered(t@));
    u
}

fn mantissa_at(u: &Vec<char>, from: usize, to: usize) -> (r: bool)
    requires
        from <= to <= u@.len(),
    ensures
        r == mantissa_ok(u@.subrange(from as int, to as int)),
{
    let dot = find_in(u, from, to, '.');
    proof {
        let m = u@.subrange(from as int, to as int);
        assert(m.take(dot - from) =~= u@.subrange(from as int, dot as int));
        if dot < to {
            assert(m.skip(dot - from + 1) =~= u@.subrange(dot + 1, to as int));
        } else {
            assert(all_digits(Seq::<char>::empty()));
        }
    }
    let int_ok = digits_in(u, from, dot);
    let frac_ok = if dot < to {
        digits_in(u, dot + 1, to)
    } else {
        true
    };
    let frac_len: usize = if dot < to {
        to - dot - 1
    } else {
        0
    };
    int_ok && frac_ok && (dot - from) + frac_len > 0
}

fn exponent_at(u: &Vec<char>, from: usize, to: usize) -> (r: bool)
    requires
        from <= to <= u@.len(),
    ensures
        r == exponent_ok(u@.subrange(from as int, to as int)),
{
    if from == to {
        return true;
    }
    if u[from] != 'e' {
        return false;
    }
    let mut k: usize = from + 1;
    if k < to && (u[k] == '+' || u[k] == '-') {
        k += 1;
    }
    proof {
        let x = u@.subrange(from as int, to as int);
        let rest = x.drop_first();
        assert(rest =~= u@.subrange(from + 1, to as int));
        if k == from + 2 {
            assert(rest.drop_first() =~= u@.subrange(k as int, to as int));
        }
    }
    k < to && digits_in(u, k, to)
}

/// Whether `t` is the text of a floating-point number, as Rust's
/// `f64::from_str` accepts it.
pub fn is_float_text(t: &str) -> (r: bool)
    ensures
        r == float_ok(t@),
{
    let u = lower_chars(t);
    let n = u.len();
    let start: usize = if n > 0 && (u[0] == '+' || u[0] == '-') {
        1
    } else {
        0
    };
    let ghost body = u@.subrange(start as int, n as int);
    assert(start == 1 ==> body =~= lowered(t@).drop_first());
    assert(start == 0 ==> body =~= lowered(t@));
    if spells(&u, start, "inf") || spells(&u, start, "infinity") || spells(&u, start, "nan") {
        return true;
    }
    let e = find_in(&u, start, n, 'e');
    proof {
        assert(body.take(e - start) =~= u@.subrange(start as int, e as int));
        assert(body.skip(e - start) =~= u@.subrange(e as int, n as int));
    }
    mantissa_at(&u, start, e) && exponent_at(&u, e, n)
}

/// Owned copies of a list of tokens.
pub fn owned_all(items: &[&str]) -> (r: Vec<String>)
    ensures
        views(r@) == str_views(items@),
{
    let mut r: Vec<String> = Vec::new();
    let mut i: usize = 0;
    while i < items.len()
        invariant
            i <= items@.len(),
            views(r@) == str_views(items@.take(i as int)),
        decreases items.len() - i,
    {
        let ghost before = r@;
        r.push(owned(items[i]));
        proof {
            assert(items@.take(i + 1) =~= items@.take(i as int).push(items@[i as int]));
            assert(r@ =~= before.push(r@.last()));
            assert(views(r@) =~= views(before).push(items@[i as int]@));
            assert(str_views(items@.take(i + 1)) =~= str_views(items@.take(i as int)).push(items@[i as int]@));
        }
        i += 1;
    }
    assert(items@.take(items@.len() as int) =~= items@);
    r
}


/// The shortest decimal spelling of `n` is digits that read back as `n`,
/// one character for each power of ten up to `n`.
pub proof fn lemma_decimal(n: nat)
    ensures
        all_digits(decimal(n)),
        decimal_value(decimal(n)) == n,
        decimal(n).len() >= 1,
        n < 10 ==> decimal(n).len() == 1,
        n < 100 ==> decimal(n).len() <= 2,
        n < 1000 ==> decimal(n).len() <= 3,
        n < 10000 ==> decimal(n).len() <= 4,
    decreases n,
{
    if n < 10 {
        assert(digit_value(digit_char(n as int)) == n);
        assert(decimal(n).drop_last() =~= Seq::<char>::empty());
        assert(decimal_value(decimal(n).drop_last()) == 0);
    } else {
        lemma_decimal(n / 10);
        assert(n == (n / 10) * 10 + n % 10) by (nonlinear_arith);
        assert(digit_value(digit_char((n % 10) as int)) == n % 10);
        assert(n < 100 ==> n / 10 < 10);
        assert(n < 1000 ==> n / 10 < 100);
        assert(n < 10000 ==> n / 10 < 1000);
        let d = decimal(n / 10);
        let e = d.push(digit_char((n % 10) as int));
        assert(e.drop_last() =~= d);
        assert(decimal(n) == e);
        assert(e.last() == digit_char((n % 10) as int));
        assert(decimal_value(e) == decimal_value(d) * 10 + digit_value(e.last()));
        assert(decimal_value(d) == n / 10);
        assert forall|i: int| 0 <= i < e.len() implies is_digit(#[trigger] e[i]) by {
            if i < d.len() {
                assert(e[i] == d[i]);
            }
        }
    }
}

/// Zeros in front of a run of digits do not change its value.
proof fn lemma_leading_zeros(k: nat, d: Seq<char>)
    ensures
        decimal_value(Seq::new(k, |i: int| '0') + d) == decimal_value(d),
    decreases d.len(), k,
{
    let z = Seq::new(k, |i: int| '0');
    if d.len() == 0 {
        assert(z + d =~= z);
        if k > 0 {
            assert(z.drop_last() =~= Seq::new((k - 1) as nat, |i: int| '0'));
            lemma_leading_zeros((k - 1) as nat, d);
            assert(Seq::new((k - 1) as nat, |i: int| '0') + d =~= Seq::new((k - 1) as nat, |i: int| '0'));
        }
    } else {
        assert((z + d).drop_last() =~= z + d.drop_last());
        lemma_leading_zeros(k, d.drop_last());
    }
}

/// A number below `10^width` padded to `width` is exactly `width` digits that
/// read back as the number.
pub proof fn lemma_zero_padded_digits(n: nat, width: nat)
    requires
        width == 2 ==> n < 100,
        width == 4 ==> n < 10000,
        width == 2 || width == 4,
    ensures
        zero_padded(n, width).len() == width,
        all_digits(zero_padded(n, width)),
        decimal_value(zero_padded(n, width)) == n,
{
    lemma_decimal(n);
    let d = decimal(n);
    if d.len() < width {
        let z = Seq::new((width - d.len()) as nat, |i: int| '0');
        lemma_leading_zeros((width - d.len()) as nat, d);
        assert forall|i: int| 0 <= i < (z + d).len() implies is_digit(#[trigger] (z + d)[i]) by {
            if i >= z.len() {
                assert((z + d)[i] == d[i - z.len()]);
            }
        }
    }
}

} // verus!
