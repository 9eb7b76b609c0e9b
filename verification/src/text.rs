//! Character-level text helpers: whitespace, trimming, searching and
//! comparison, each exec function proved against a spec-level mirror
//! over `Seq<char>`.

use vstd::prelude::*;
use vstd::string::StrSliceExecFns;

verus! {

/// Horizontal whitespace: what separates indentation from content.
/// The line separator `'\n'` is handled by the tokenizer, never here.
pub open spec fn is_ws(c: char) -> bool {
    c == ' ' || c == '\t' || c == '\r'
}

pub(crate) fn is_ws_char(c: char) -> (r: bool)
    ensures
        r == is_ws(c),
{
    c == ' ' || c == '\t' || c == '\r'
}

/// Number of leading whitespace characters of `s`.
pub open spec fn indent_of(s: Seq<char>) -> int
    decreases s.len(),
{
    if s.len() == 0 || !is_ws(s[0]) {
        0
    } else {
        1 + indent_of(s.drop_first())
    }
}

pub proof fn lemma_indent_of_bounds(s: Seq<char>)
    ensures
        0 <= indent_of(s) <= s.len(),
        forall|i: int| 0 <= i < indent_of(s) ==> is_ws(s[i]),
        indent_of(s) < s.len() ==> !is_ws(s[indent_of(s)]),
    decreases s.len(),
{
    if s.len() != 0 && is_ws(s[0]) {
        lemma_indent_of_bounds(s.drop_first());
        assert forall|i: int| 0 <= i < indent_of(s) implies is_ws(s[i]) by {
            if i > 0 {
                assert(s.drop_first()[i - 1] == s[i]);
            }
        }
        if indent_of(s) < s.len() {
            assert(s.drop_first()[indent_of(s) - 1] == s[indent_of(s)]);
        }
    }
}

pub proof fn lemma_indent_of_is(s: Seq<char>, k: int)
    requires
        0 <= k <= s.len(),
        forall|i: int| 0 <= i < k ==> is_ws(s[i]),
        k < s.len() ==> !is_ws(s[k]),
    ensures
        indent_of(s) == k,
    decreases s.len(),
{
    if s.len() != 0 && is_ws(s[0]) {
        assert(k > 0);
        assert forall|i: int| 0 <= i < k - 1 implies is_ws(s.drop_first()[i]) by {
            assert(s.drop_first()[i] == s[i + 1]);
        }
        if k - 1 < s.drop_first().len() {
            assert(s.drop_first()[k - 1] == s[k]);
        }
        lemma_indent_of_is(s.drop_first(), k - 1);
    }
}

/// Length of `s` once trailing whitespace is dropped.
pub open spec fn rstrip_len(s: Seq<char>) -> int
    decreases s.len(),
{
    if s.len() == 0 || !is_ws(s.last()) {
        s.len() as int
    } else {
        rstrip_len(s.drop_last())
    }
}

pub proof fn lemma_rstrip_len_bounds(s: Seq<char>)
    ensures
        0 <= rstrip_len(s) <= s.len(),
        forall|i: int| rstrip_len(s) <= i < s.len() ==> is_ws(s[i]),
        rstrip_len(s) > 0 ==> !is_ws(s[rstrip_len(s) - 1]),
    decreases s.len(),
{
    if s.len() != 0 && is_ws(s.last()) {
        lemma_rstrip_len_bounds(s.drop_last());
        assert forall|i: int| rstrip_len(s) <= i < s.len() implies is_ws(s[i]) by {
            if i < s.len() - 1 {
                assert(s.drop_last()[i] == s[i]);
            }
        }
    }
}

pub proof fn lemma_rstrip_len_is(s: Seq<char>, k: int)
    requires
        0 <= k <= s.len(),
        forall|i: int| k <= i < s.len() ==> is_ws(s[i]),
        k > 0 ==> !is_ws(s[k - 1]),
    ensures
        rstrip_len(s) == k,
    decreases s.len(),
{
    if s.len() != 0 && is_ws(s.last()) {
        assert(k < s.len());
        assert forall|i: int| k <= i < s.drop_last().len() implies is_ws(s.drop_last()[i]) by {
            assert(s.drop_last()[i] == s[i]);
        }
        lemma_rstrip_len_is(s.drop_last(), k);
    }
}

/// `s` with leading and trailing whitespace removed.
pub open spec fn trim_spec(s: Seq<char>) -> Seq<char> {
    let t = s.subrange(indent_of(s), s.len() as int);
    t.subrange(0, rstrip_len(t))
}

/// The trim is the subrange between the bounds an executable scan finds.
pub proof fn lemma_trim_is_subrange(s: Seq<char>, a: int, b: int)
    requires
        0 <= a <= b <= s.len(),
        forall|i: int| 0 <= i < a ==> is_ws(s[i]),
        a < s.len() ==> !is_ws(s[a]),
        forall|i: int| b <= i < s.len() ==> is_ws(s[i]),
        b > a ==> !is_ws(s[b - 1]),
        a == s.len() ==> b == a,
    ensures
        trim_spec(s) == s.subrange(a, b),
{
    lemma_indent_of_is(s, a);
    let t = s.subrange(a, s.len() as int);
    assert forall|i: int| b - a <= i < t.len() implies is_ws(t[i]) by {
        assert(t[i] == s[a + i]);
    }
    if b - a > 0 {
        assert(t[b - a - 1] == s[b - 1]);
    }
    lemma_rstrip_len_is(t, b - a);
    assert(t.subrange(0, b - a) =~= s.subrange(a, b));
}

/// A string that trimming leaves unchanged.
pub open spec fn trim_stable(s: Seq<char>) -> bool {
    trim_spec(s) == s
}

pub proof fn lemma_trim_noop(s: Seq<char>)
    requires
        s.len() > 0 ==> !is_ws(s[0]) && !is_ws(s.last()),
    ensures
        trim_spec(s) == s,
{
    lemma_trim_is_subrange(s, 0, s.len() as int);
    assert(s.subrange(0, s.len() as int) =~= s);
}

/// Index of the first occurrence of `c` in `s`; `s.len()` when absent.
pub open spec fn first_index_of(s: Seq<char>, c: char) -> int
    decreases s.len(),
{
    if s.len() == 0 {
        0
    } else if s[0] == c {
        0
    } else {
        1 + first_index_of(s.drop_first(), c)
    }
}

pub proof fn lemma_first_index_of_bounds(s: Seq<char>, c: char)
    ensures
        0 <= first_index_of(s, c) <= s.len(),
        forall|i: int| 0 <= i < first_index_of(s, c) ==> s[i] != c,
        first_index_of(s, c) < s.len() ==> s[first_index_of(s, c)] == c,
    decreases s.len(),
{
    if s.len() != 0 && s[0] != c {
        lemma_first_index_of_bounds(s.drop_first(), c);
        assert forall|i: int| 0 <= i < first_index_of(s, c) implies s[i] != c by {
            if i > 0 {
                assert(s.drop_first()[i - 1] == s[i]);
            }
        }
        if first_index_of(s, c) < s.len() {
            assert(s.drop_first()[first_index_of(s, c) - 1] == s[first_index_of(s, c)]);
        }
    }
}

pub proof fn lemma_first_index_of_is(s: Seq<char>, c: char, k: int)
    requires
        0 <= k <= s.len(),
        forall|i: int| 0 <= i < k ==> s[i] != c,
        k < s.len() ==> s[k] == c,
    ensures
        first_index_of(s, c) == k,
    decreases s.len(),
{
    if s.len() != 0 && s[0] != c {
        assert(k > 0);
        assert forall|i: int| 0 <= i < k - 1 implies s.drop_first()[i] != c by {
            assert(s.drop_first()[i] == s[i + 1]);
        }
        if k - 1 < s.drop_first().len() {
            assert(s.drop_first()[k - 1] == s[k]);
        }
        lemma_first_index_of_is(s.drop_first(), c, k - 1);
    }
}

/// Whether `c` occurs anywhere in `s`.
pub open spec fn contains_char(s: Seq<char>, c: char) -> bool {
    exists|i: int| 0 <= i < s.len() && s[i] == c
}

/// Count of leading whitespace characters of a line.
pub fn indent_level(line: &str) -> (r: usize)
    ensures
        r == indent_of(line@),
{
    let n = line.unicode_len();
    let mut a: usize = 0;
    while a < n && is_ws_char(line.get_char(a))
        invariant
            0 <= a <= n,
            n == line@.len(),
            forall|i: int| 0 <= i < a ==> is_ws(line@[i]),
        decreases n - a,
    {
        a = a + 1;
    }
    proof {
        lemma_indent_of_is(line@, a as int);
    }
    a
}

/// Leading and trailing whitespace removed, as a fresh slice of `s`.
pub fn trim_str<'a>(s: &'a str) -> (r: &'a str)
    ensures
        r@ == trim_spec(s@),
{
    let n = s.unicode_len();
    let mut a: usize = 0;
    while a < n && is_ws_char(s.get_char(a))
        invariant
            0 <= a <= n,
            n == s@.len(),
            forall|i: int| 0 <= i < a ==> is_ws(s@[i]),
        decreases n - a,
    {
        a = a + 1;
    }
    let mut b: usize = n;
    if a == n {
        b = a;
    } else {
        while b > a && is_ws_char(s.get_char(b - 1))
            invariant
                a <= b <= n,
                n == s@.len(),
                forall|i: int| b <= i < n ==> is_ws(s@[i]),
            decreases b,
        {
            b = b - 1;
        }
    }
    proof {
        lemma_trim_is_subrange(s@, a as int, b as int);
    }
    s.substring_char(a, b)
}

/// Index of the first `c` in `s`, or the length of `s` when absent.
pub fn find_char(s: &str, c: char) -> (r: usize)
    ensures
        r == first_index_of(s@, c),
{
    let n = s.unicode_len();
    let mut k: usize = 0;
    while k < n && s.get_char(k) != c
        invariant
            0 <= k <= n,
            n == s@.len(),
            forall|i: int| 0 <= i < k ==> s@[i] != c,
        decreases n - k,
    {
        k = k + 1;
    }
    proof {
        lemma_first_index_of_is(s@, c, k as int);
    }
    k
}

/// Character-for-character equality of two string slices.
pub fn str_eq(a: &str, b: &str) -> (r: bool)
    ensures
        r == (a@ == b@),
{
    let na = a.unicode_len();
    let nb = b.unicode_len();
    if na != nb {
        return false;
    }
    let mut k: usize = 0;
    while k < na && a.get_char(k) == b.get_char(k)
        invariant
            0 <= k <= na,
            na == a@.len(),
            nb == b@.len(),
            na == nb,
            forall|i: int| 0 <= i < k ==> a@[i] == b@[i],
        decreases na - k,
    {
        k = k + 1;
    }
    if k == na {
        proof {
            assert(a@ =~= b@);
        }
        true
    } else {
        false
    }
}

/// A nonempty trim-stable string neither starts nor ends in
/// whitespace.
pub proof fn lemma_trim_stable_ends(s: Seq<char>)
    requires
        trim_spec(s) == s,
        s.len() > 0,
    ensures
        !is_ws(s[0]),
        !is_ws(s.last()),
{
    lemma_indent_of_bounds(s);
    let t = s.subrange(indent_of(s), s.len() as int);
    lemma_rstrip_len_bounds(t);
    assert(trim_spec(s).len() == rstrip_len(t));
    assert(rstrip_len(t) <= t.len());
    assert(t.len() == s.len() - indent_of(s));
    assert(indent_of(s) == 0);
    assert(t =~= s);
    assert(rstrip_len(s) == s.len());
}

/// Prepending one space to a trim-stable string trims back to it.
pub proof fn lemma_trim_prepend_space(v: Seq<char>)
    requires
        trim_spec(v) == v,
    ensures
        trim_spec(seq![' '] + v) == v,
{
    let s = seq![' '] + v;
    if v.len() == 0 {
        assert(s =~= seq![' ']);
        lemma_indent_of_is(s, 1);
        let t = s.subrange(1, 1);
        assert(t =~= Seq::<char>::empty());
        lemma_rstrip_len_is(t, 0);
        assert(trim_spec(s) =~= v);
    } else {
        lemma_trim_stable_ends(v);
        assert(s[1] == v[0]);
        assert(s.last() == v.last());
        lemma_trim_is_subrange(s, 1, s.len() as int);
        assert(s.subrange(1, s.len() as int) =~= v);
    }
}

/// A decimal digit.
pub open spec fn is_digit(c: char) -> bool {
    '0' <= c && c <= '9'
}

/// One or more digits.
pub open spec fn all_digits(s: Seq<char>) -> bool {
    s.len() > 0 && forall|i: int| 0 <= i < s.len() ==> is_digit(s[i])
}

/// Zero or more digits.
pub open spec fn digits_or_empty(s: Seq<char>) -> bool {
    forall|i: int| 0 <= i < s.len() ==> is_digit(s[i])
}

/// An unsigned mantissa: digits, optionally around a single decimal point,
/// with at least one digit somewhere.
pub open spec fn mantissa_text(s: Seq<char>) -> bool {
    let d = first_index_of(s, '.');
    if d == s.len() {
        all_digits(s)
    } else {
        let ip = s.subrange(0, d);
        let fp = s.subrange(d + 1, s.len() as int);
        (all_digits(ip) && digits_or_empty(fp)) || (ip.len() == 0 && all_digits(fp))
    }
}

/// `s` without one optional leading sign.
pub open spec fn strip_sign(s: Seq<char>) -> Seq<char> {
    if s.len() > 0 && (s[0] == '+' || s[0] == '-') {
        s.drop_first()
    } else {
        s
    }
}

/// An exponent marker.
pub open spec fn is_exp_char(c: char) -> bool {
    c == 'e' || c == 'E'
}

/// Index of the first exponent marker in `s`; `s.len()` when absent.
pub open spec fn first_exp_index(s: Seq<char>) -> int
    decreases s.len(),
{
    if s.len() == 0 {
        0
    } else if is_exp_char(s[0]) {
        0
    } else {
        1 + first_exp_index(s.drop_first())
    }
}

pub proof fn lemma_first_exp_index_bounds(s: Seq<char>)
    ensures
        0 <= first_exp_index(s) <= s.len(),
        forall|i: int| 0 <= i < first_exp_index(s) ==> !is_exp_char(s[i]),
        first_exp_index(s) < s.len() ==> is_exp_char(s[first_exp_index(s)]),
    decreases s.len(),
{
    if s.len() != 0 && !is_exp_char(s[0]) {
        lemma_first_exp_index_bounds(s.drop_first());
        assert forall|i: int| 0 <= i < first_exp_index(s) implies !is_exp_char(s[i]) by {
            if i > 0 {
                assert(s.drop_first()[i - 1] == s[i]);
            }
        }
        if first_exp_index(s) < s.len() {
            assert(s.drop_first()[first_exp_index(s) - 1] == s[first_exp_index(s)]);
        }
    }
}

pub proof fn lemma_first_exp_index_is(s: Seq<char>, k: int)
    requires
        0 <= k <= s.len(),
        forall|i: int| 0 <= i < k ==> !is_exp_char(s[i]),
        k < s.len() ==> is_exp_char(s[k]),
    ensures
        first_exp_index(s) == k,
    decreases s.len(),
{
    if s.len() != 0 && !is_exp_char(s[0]) {
        assert(k > 0);
        assert forall|i: int| 0 <= i < k - 1 implies !is_exp_char(s.drop_first()[i]) by {
            assert(s.drop_first()[i] == s[i + 1]);
        }
        if k - 1 < s.drop_first().len() {
            assert(s.drop_first()[k - 1] == s[k]);
        }
        lemma_first_exp_index_is(s.drop_first(), k - 1);
    }
}

/// The numeric grammar of the format: an optionally signed decimal
/// mantissa, optionally followed by an exponent marker and an optionally
/// signed run of digits. `"52.9548"`, `"-1.1581"`, `"10"`, `"3e-2"` are
/// numbers; `"abc"`, `""`, `"1,2"` are not.
pub open spec fn number_text(s: Seq<char>) -> bool {
    let e = first_exp_index(s);
    if e == s.len() {
        mantissa_text(strip_sign(s))
    } else {
        mantissa_text(strip_sign(s.subrange(0, e))) && {
            let x = strip_sign(s.subrange(e + 1, s.len() as int));
            all_digits(x)
        }
    }
}

pub(crate) fn is_digit_char(c: char) -> (r: bool)
    ensures
        r == is_digit(c),
{
    '0' <= c && c <= '9'
}

/// Whether every character of `s` is a digit.
pub(crate) fn digits_only(s: &str) -> (r: bool)
    ensures
        r == digits_or_empty(s@),
{
    let n = s.unicode_len();
    let mut k: usize = 0;
    while k < n && is_digit_char(s.get_char(k))
        invariant
            0 <= k <= n,
            n == s@.len(),
            forall|i: int| 0 <= i < k ==> is_digit(s@[i]),
        decreases n - k,
    {
        k = k + 1;
    }
    k == n
}

/// Whether `m` is an unsigned mantissa.
fn is_mantissa_str(m: &str) -> (r: bool)
    ensures
        r == mantissa_text(m@),
{
    let n = m.unicode_len();
    let d = find_char(m, '.');
    proof {
        lemma_first_index_of_bounds(m@, '.');
    }
    if d == n {
        n > 0 && digits_only(m)
    } else {
        let ip = m.substring_char(0, d);
        let fp = m.substring_char(d + 1, n);
        let ip_ok = ip.unicode_len() > 0 && digits_only(ip);
        let fp_ok = digits_only(fp);
        (ip_ok && fp_ok) || (ip.unicode_len() == 0 && fp.unicode_len() > 0 && fp_ok)
    }
}

/// Whether `s` is an optionally signed unsigned mantissa.
fn is_signed_mantissa_str(s: &str) -> (r: bool)
    ensures
        r == mantissa_text(strip_sign(s@)),
{
    let n = s.unicode_len();
    let start: usize = if n > 0 && (s.get_char(0) == '+' || s.get_char(0) == '-') {
        1
    } else {
        0
    };
    let m = s.substring_char(start, n);
    proof {
        assert(m@ =~= strip_sign(s@));
    }
    is_mantissa_str(m)
}

/// Whether `s` belongs to the numeric grammar of the format.
pub fn is_number_str(s: &str) -> (r: bool)
    ensures
        r == number_text(s@),
{
    let n = s.unicode_len();
    let mut k: usize = 0;
    while k < n && !(s.get_char(k) == 'e' || s.get_char(k) == 'E')
        invariant
            0 <= k <= n,
            n == s@.len(),
            forall|i: int| 0 <= i < k ==> !is_exp_char(s@[i]),
        decreases n - k,
    {
        k = k + 1;
    }
    proof {
        lemma_first_exp_index_is(s@, k as int);
    }
    if k == n {
        is_signed_mantissa_str(s)
    } else {
        let mant = s.substring_char(0, k);
        let ex = s.substring_char(k + 1, n);
        let ex_n = ex.unicode_len();
        let ex_start: usize = if ex_n > 0 && (ex.get_char(0) == '+' || ex.get_char(0) == '-') {
            1
        } else {
            0
        };
        let ex_digits = ex.substring_char(ex_start, ex_n);
        proof {
            assert(ex_digits@ =~= strip_sign(s@.subrange(k + 1, s@.len() as int)));
        }
        is_signed_mantissa_str(mant) && ex_digits.unicode_len() > 0 && digits_only(ex_digits)
    }
}

/// A character that the numeric grammar can contain.
pub open spec fn number_char(c: char) -> bool {
    is_digit(c) || c == '+' || c == '-' || c == '.' || is_exp_char(c)
}

proof fn lemma_mantissa_chars(m: Seq<char>)
    requires
        mantissa_text(m),
    ensures
        m.len() > 0,
        forall|i: int| 0 <= i < m.len() ==> is_digit(m[i]) || m[i] == '.',
{
    let d = first_index_of(m, '.');
    lemma_first_index_of_bounds(m, '.');
    if d != m.len() {
        let ip = m.subrange(0, d);
        let fp = m.subrange(d + 1, m.len() as int);
        assert forall|i: int| 0 <= i < m.len() implies is_digit(m[i]) || m[i] == '.' by {
            if i < d {
                assert(ip[i] == m[i]);
            } else if i > d {
                assert(fp[i - d - 1] == m[i]);
            }
        }
    }
}

proof fn lemma_signed_mantissa_chars(s: Seq<char>)
    requires
        mantissa_text(strip_sign(s)),
    ensures
        s.len() > 0,
        forall|i: int| 0 <= i < s.len() ==> number_char(s[i]),
{
    let m = strip_sign(s);
    lemma_mantissa_chars(m);
    assert forall|i: int| 0 <= i < s.len() implies number_char(s[i]) by {
        if s.len() > 0 && (s[0] == '+' || s[0] == '-') {
            if i > 0 {
                assert(m[i - 1] == s[i]);
            }
        } else {
            assert(m[i] == s[i]);
        }
    }
}

/// A number contains only numeric characters; in particular it is
/// nonempty and free of commas, newlines and whitespace, so trimming
/// leaves it unchanged.
pub proof fn lemma_number_text_clean(s: Seq<char>)
    requires
        number_text(s),
    ensures
        s.len() > 0,
        forall|i: int| 0 <= i < s.len() ==> number_char(s[i]),
        forall|i: int| 0 <= i < s.len() ==> s[i] != ',' && s[i] != '\n' && !is_ws(s[i]),
        trim_spec(s) == s,
{
    let e = first_exp_index(s);
    lemma_first_exp_index_bounds(s);
    if e == s.len() {
        lemma_signed_mantissa_chars(s);
    } else {
        let mant = s.subrange(0, e);
        let ex = s.subrange(e + 1, s.len() as int);
        lemma_signed_mantissa_chars(mant);
        let x = strip_sign(ex);
        assert forall|i: int| 0 <= i < s.len() implies number_char(s[i]) by {
            if i < e {
                assert(mant[i] == s[i]);
            } else if i > e {
                assert(ex[i - e - 1] == s[i]);
                if ex.len() > 0 && (ex[0] == '+' || ex[0] == '-') {
                    if i - e - 1 > 0 {
                        assert(x[i - e - 2] == ex[i - e - 1]);
                    }
                } else {
                    assert(x[i - e - 1] == ex[i - e - 1]);
                }
            }
        }
    }
    lemma_trim_noop(s);
}

} // verus!
