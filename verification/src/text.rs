//! Character-level helpers on strings: splitting, trimming, parsing and
//! formatting numbers, each stated over the characters of the string.
use vstd::prelude::*;

verus! {

// ---------------------------------------------------------------------------
// Conversions between `str`/`String` and character vectors
// ---------------------------------------------------------------------------

/// The characters of `s`, in order.
pub fn chars_of(s: &str) -> (v: Vec<char>)
    ensures
        v@ == s@,
{
    let mut v: Vec<char> = Vec::new();
    for c in it: s.chars()
        invariant
            v@ == it.seq().take(it.index() as int),
            it.seq() == s@,
    {
        v.push(c);
    }
    v
}

/// `String::push`: appends one character.
#[verifier::external_body]
pub(crate) fn push_char(s: &mut String, c: char)
    ensures
        final(s)@ == old(s)@.push(c),
{
    s.push(c);
}

/// A `String` holding exactly the characters of `v`.
pub fn string_of(v: &Vec<char>) -> (s: String)
    ensures
        s@ == v@,
{
    let mut s = String::new();
    for i in 0..v.len()
        invariant
            s@ == v@.take(i as int),
    {
        push_char(&mut s, v[i]);
        assert(v@.take(i + 1) == v@.take(i as int).push(v@[i as int]));
    }
    assert(v@.take(v@.len() as int) == v@);
    s
}

/// Whether two character sequences are equal.
pub fn chars_eq(a: &Vec<char>, b: &Vec<char>) -> (r: bool)
    ensures
        r == (a@ == b@),
{
    if a.len() != b.len() {
        return false;
    }
    for i in 0..a.len()
        invariant
            a@.len() == b@.len(),
            forall|k: int| 0 <= k < i ==> a@[k] == b@[k],
    {
        if a[i] != b[i] {
            return false;
        }
    }
    assert(a@ =~= b@);
    true
}

/// Whether `s` spells `lit` exactly.
pub fn str_is(s: &str, lit: &str) -> (r: bool)
    ensures
        r == (s@ == lit@),
{
    let a = chars_of(s);
    let b = chars_of(lit);
    chars_eq(&a, &b)
}

// ---------------------------------------------------------------------------
// Digits
// ---------------------------------------------------------------------------

/// The digit a character stands for in any radix up to 36 (as `char::to_digit`
/// reads it): `0`-`9`, then `a`-`z` and `A`-`Z` from ten on; 36 for anything
/// else.
pub open spec fn digit_of(c: char) -> nat {
    if '0' <= c && c <= '9' {
        (c as int - '0' as int) as nat
    } else if 'a' <= c && c <= 'z' {
        (c as int - 'a' as int + 10) as nat
    } else if 'A' <= c && c <= 'Z' {
        (c as int - 'A' as int + 10) as nat
    } else {
        36
    }
}

/// Whether `c` is a digit in `radix`.
pub open spec fn is_digit(c: char, radix: nat) -> bool {
    digit_of(c) < radix
}

/// Whether every character of `s` is a digit in `radix`.
pub open spec fn all_digits(s: Seq<char>, radix: nat) -> bool {
    forall|i: int| 0 <= i < s.len() ==> #[trigger] is_digit(s[i], radix)
}

/// The number that the digits `s` spell in `radix`, most significant first.
pub open spec fn digits_value(s: Seq<char>, radix: nat) -> nat
    decreases s.len(),
{
    if s.len() == 0 {
        0
    } else {
        digits_value(s.drop_last(), radix) * radix + digit_of(s.last())
    }
}

/// What `from_str_radix(s, radix)` returns for an unsigned integer type whose
/// largest value is `max`: an optional `+`, then at least one digit, all
/// digits in `radix`, and a value that fits.
pub open spec fn parse_unsigned(s: Seq<char>, radix: nat, max: nat) -> Option<nat> {
    let digits = if s.len() > 0 && s[0] == '+' { s.drop_first() } else { s };
    if digits.len() > 0 && all_digits(digits, radix) && digits_value(digits, radix) <= max {
        Some(digits_value(digits, radix))
    } else {
        None
    }
}

/// What `s.parse::<i64>()` returns: an optional sign, then at least one
/// decimal digit, and a value within the range of `i64`.
pub open spec fn parse_i64(s: Seq<char>) -> Option<int> {
    let negative = s.len() > 0 && s[0] == '-';
    let digits = if s.len() > 0 && (s[0] == '+' || s[0] == '-') { s.drop_first() } else { s };
    let value: int = if negative { -digits_value(digits, 10) } else { digits_value(digits, 10) as int };
    if digits.len() > 0 && all_digits(digits, 10) && i64::MIN <= value <= i64::MAX {
        Some(value)
    } else {
        None
    }
}

/// A value never falls when more digits follow.
pub proof fn lemma_digits_value_prefix(s: Seq<char>, radix: nat, k: int)
    requires
        0 <= k <= s.len(),
        radix >= 1,
    ensures
        digits_value(s.take(k), radix) <= digits_value(s, radix),
    decreases s.len(),
{
    if k < s.len() {
        lemma_digits_value_prefix(s.drop_last(), radix, k);
        assert(s.drop_last().take(k) == s.take(k));
        let v = digits_value(s.drop_last(), radix);
        assert(v <= v * radix) by (nonlinear_arith)
            requires
                radix >= 1,
        ;
    } else {
        assert(s.take(k) == s);
    }
}

fn digit_exec(c: char) -> (d: u32)
    ensures
        d == digit_of(c),
{
    if '0' <= c && c <= '9' {
        (c as u32) - ('0' as u32)
    } else if 'a' <= c && c <= 'z' {
        (c as u32) - ('a' as u32) + 10
    } else if 'A' <= c && c <= 'Z' {
        (c as u32) - ('A' as u32) + 10
    } else {
        36
    }
}

/// Reads the digits `s[start..]` in `radix`, giving up once the value passes
/// `cap`.
fn read_digits(s: &Vec<char>, start: usize, radix: u32, cap: u64) -> (r: Option<u64>)
    requires
        start <= s.len(),
        2 <= radix <= 36,
    ensures
        ({
            let digits = s@.skip(start as int);
            match r {
                Some(v) => all_digits(digits, radix as nat) && v == digits_value(digits, radix as nat)
                    && v <= cap,
                None => !all_digits(digits, radix as nat) || digits_value(digits, radix as nat)
                    > cap,
            }
        }),
{
    let ghost digits = s@.skip(start as int);
    let mut acc: u128 = 0;
    let mut i = start;
    while i < s.len()
        invariant
            start <= i <= s.len(),
            2 <= radix <= 36,
            digits == s@.skip(start as int),
            all_digits(digits.take(i - start), radix as nat),
            acc == digits_value(digits.take(i - start), radix as nat),
            acc <= cap,
        decreases s.len() - i,
    {
        let d = digit_exec(s[i]);
        assert(digits[i - start] == s@[i as int]);
        if d >= radix {
            assert(!is_digit(digits[i - start], radix as nat));
            return None;
        }
        let ghost prev = digits.take(i - start);
        let ghost next = digits.take(i - start + 1);
        assert(next.drop_last() == prev);
        assert(next.last() == s@[i as int]);
        assert(acc * (radix as u128) + (d as u128) <= 0xffff_ffff_ffff_ffff * 36 + 36) by (nonlinear_arith)
            requires
                acc <= 0xffff_ffff_ffff_ffff,
                radix <= 36,
                d < 36,
        ;
        acc = acc * (radix as u128) + (d as u128);
        i = i + 1;
        assert(all_digits(next, radix as nat)) by {
            assert forall|k: int| 0 <= k < next.len() implies #[trigger] is_digit(next[k], radix as nat) by {
                if k < next.len() - 1 {
                    assert(next[k] == prev[k]);
                }
            }
        }
        if acc > cap as u128 {
            proof {
                lemma_digits_value_prefix(digits, radix as nat, i - start);
            }
            return None;
        }
    }
    assert(digits.take(i - start) == digits);
    Some(acc as u64)
}

/// `from_str_radix(s, 16)` for an unsigned type whose largest value is `max`.
pub fn parse_hex(s: &Vec<char>, max: u64) -> (r: Option<u64>)
    ensures
        match r {
            Some(v) => parse_unsigned(s@, 16, max as nat) == Some(v as nat),
            None => parse_unsigned(s@, 16, max as nat) is None,
        },
{
    let start: usize = if s.len() > 0 && s[0] == '+' { 1 } else { 0 };
    assert(s@.skip(start as int) == (if s@.len() > 0 && s@[0] == '+' { s@.drop_first() } else { s@ }));
    if start == s.len() {
        return None;
    }
    read_digits(s, start, 16, max)
}

/// `s.parse::<i64>()`, with `None` for what it refuses.
pub fn parse_i64_chars(s: &Vec<char>) -> (r: Option<i64>)
    ensures
        match r {
            Some(v) => parse_i64(s@) == Some(v as int),
            None => parse_i64(s@) is None,
        },
{
    let signed = s.len() > 0 && (s[0] == '+' || s[0] == '-');
    let negative = s.len() > 0 && s[0] == '-';
    let start: usize = if signed { 1 } else { 0 };
    assert(s@.skip(start as int) == (if s@.len() > 0 && (s@[0] == '+' || s@[0] == '-') {
        s@.drop_first()
    } else {
        s@
    }));
    if start == s.len() {
        return None;
    }
    match read_digits(s, start, 10, 0x8000_0000_0000_0000) {
        None => None,
        Some(m) => {
            if negative {
                if m == 0x8000_0000_0000_0000 {
                    Some(i64::MIN)
                } else {
                    Some(-(m as i64))
                }
            } else if m <= 0x7fff_ffff_ffff_ffff {
                Some(m as i64)
            } else {
                None
            }
        },
    }
}

// ---------------------------------------------------------------------------
// Trimming
// ---------------------------------------------------------------------------

/// `char::is_whitespace`: the characters with the Unicode `White_Space`
/// property.
pub open spec fn is_whitespace(c: char) -> bool {
    ||| c == ' '
    ||| ('\t' <= c && c <= '\r')
    ||| c == '\u{85}'
    ||| c == '\u{a0}'
    ||| c == '\u{1680}'
    ||| ('\u{2000}' <= c && c <= '\u{200a}')
    ||| c == '\u{2028}'
    ||| c == '\u{2029}'
    ||| c == '\u{202f}'
    ||| c == '\u{205f}'
    ||| c == '\u{3000}'
}

fn is_whitespace_exec(c: char) -> (r: bool)
    ensures
        r == is_whitespace(c),
{
    c == ' ' || ('\t' <= c && c <= '\r') || c == '\u{85}' || c == '\u{a0}' || c == '\u{1680}' || (
    '\u{2000}' <= c && c <= '\u{200a}') || c == '\u{2028}' || c == '\u{2029}' || c == '\u{202f}'
        || c == '\u{205f}' || c == '\u{3000}'
}

/// `s` without its leading whitespace.
pub open spec fn trim_start(s: Seq<char>) -> Seq<char>
    decreases s.len(),
{
    if s.len() > 0 && is_whitespace(s[0]) {
        trim_start(s.drop_first())
    } else {
        s
    }
}

/// `s` without its trailing whitespace.
pub open spec fn trim_end(s: Seq<char>) -> Seq<char>
    decreases s.len(),
{
    if s.len() > 0 && is_whitespace(s.last()) {
        trim_end(s.drop_last())
    } else {
        s
    }
}

/// `str::trim`: `s` without leading and trailing whitespace.
pub open spec fn trim(s: Seq<char>) -> Seq<char> {
    trim_end(trim_start(s))
}

proof fn lemma_trim_start_at(s: Seq<char>, i: int)
    requires
        0 <= i <= s.len(),
        forall|k: int| 0 <= k < i ==> is_whitespace(#[trigger] s[k]),
        i < s.len() ==> !is_whitespace(s[i]),
    ensures
        trim_start(s) == s.skip(i),
    decreases i,
{
    if i == 0 {
        assert(s.skip(0) == s);
    } else {
        let t = s.drop_first();
        assert forall|k: int| 0 <= k < i - 1 implies is_whitespace(#[trigger] t[k]) by {
            assert(t[k] == s[k + 1]);
        }
        if i - 1 < t.len() {
            assert(t[i - 1] == s[i]);
        }
        assert(is_whitespace(s[0]));
        lemma_trim_start_at(t, i - 1);
        assert(t.skip(i - 1) == s.skip(i));
    }
}

proof fn lemma_trim_end_at(s: Seq<char>, j: int)
    requires
        0 <= j <= s.len(),
        forall|k: int| j <= k < s.len() ==> is_whitespace(#[trigger] s[k]),
        j > 0 ==> !is_whitespace(s[j - 1]),
    ensures
        trim_end(s) == s.take(j),
    decreases s.len() - j,
{
    if j == s.len() {
        assert(s.take(j) == s);
    } else {
        let t = s.drop_last();
        assert forall|k: int| j <= k < t.len() implies is_whitespace(#[trigger] t[k]) by {
            assert(t[k] == s[k]);
        }
        if j > 0 {
            assert(t[j - 1] == s[j - 1]);
        }
        assert(is_whitespace(s[s.len() - 1]));
        lemma_trim_end_at(t, j);
        assert(t.take(j) == s.take(j));
    }
}

/// The characters of `s` without leading and trailing whitespace.
pub fn trim_chars(s: &Vec<char>) -> (r: Vec<char>)
    ensures
        r@ == trim(s@),
{
    let n = s.len();
    let mut i: usize = 0;
    while i < n && is_whitespace_exec(s[i])
        invariant
            i <= n,
            n == s.len(),
            forall|k: int| 0 <= k < i ==> is_whitespace(#[trigger] s@[k]),
        decreases n - i,
    {
        i = i + 1;
    }
    proof {
        lemma_trim_start_at(s@, i as int);
    }
    let ghost t = s@.skip(i as int);
    let mut j: usize = n;
    while j > i && is_whitespace_exec(s[j - 1])
        invariant
            i <= j <= n,
            n == s.len(),
            forall|k: int| j <= k < n ==> is_whitespace(#[trigger] s@[k]),
        decreases j,
    {
        j = j - 1;
    }
    proof {
        assert forall|k: int| j - i <= k < t.len() implies is_whitespace(#[trigger] t[k]) by {
            assert(t[k] == s@[k + i]);
        }
        if j > i {
            assert(t[j - i - 1] == s@[j - 1]);
        }
        lemma_trim_end_at(t, j - i);
    }
    let mut r: Vec<char> = Vec::new();
    let mut k: usize = i;
    while k < j
        invariant
            i <= k <= j <= n,
            n == s.len(),
            r@ == s@.subrange(i as int, k as int),
        decreases j - k,
    {
        r.push(s[k]);
        k = k + 1;
    }
    assert(r@ == t.take(j - i));
    r
}

/// `s` with every leading `0x` removed, as `trim_start_matches("0x")` does.
pub open spec fn strip_hex_prefixes(s: Seq<char>) -> Seq<char>
    decreases s.len(),
{
    if s.len() >= 2 && s[0] == '0' && s[1] == 'x' {
        strip_hex_prefixes(s.skip(2))
    } else {
        s
    }
}

/// The characters of `s` with every leading `0x` removed.
pub fn strip_hex_prefixes_chars(s: &Vec<char>) -> (r: Vec<char>)
    ensures
        r@ == strip_hex_prefixes(s@),
{
    let n = s.len();
    let mut i: usize = 0;
    assert(s@.skip(0) == s@);
    while n - i >= 2 && s[i] == '0' && s[i + 1] == 'x'
        invariant
            i <= n,
            n == s.len(),
            strip_hex_prefixes(s@) == strip_hex_prefixes(s@.skip(i as int)),
        decreases n - i,
    {
        assert(s@.skip(i as int).skip(2) == s@.skip(i + 2));
        i = i + 2;
    }
    if n - i >= 2 {
        assert(s@.skip(i as int)[0] == s@[i as int]);
        assert(s@.skip(i as int)[1] == s@[i + 1]);
    }
    let mut r: Vec<char> = Vec::new();
    let mut k: usize = i;
    while k < n
        invariant
            i <= k <= n,
            n == s.len(),
            r@ == s@.subrange(i as int, k as int),
        decreases n - k,
    {
        r.push(s[k]);
        k = k + 1;
    }
    assert(r@ == s@.skip(i as int));
    r
}


// ---------------------------------------------------------------------------
// Splitting
// ---------------------------------------------------------------------------

/// `str::split(sep)`: the pieces of `s` between occurrences of `sep`, in
/// order; one piece more than `sep` occurs.
pub open spec fn split_on(s: Seq<char>, sep: char) -> Seq<Seq<char>>
    decreases s.len(),
{
    if s.len() == 0 {
        seq![Seq::<char>::empty()]
    } else {
        let init = split_on(s.drop_last(), sep);
        if s.last() == sep {
            init.push(Seq::<char>::empty())
        } else {
            init.update(init.len() - 1, init.last().push(s.last()))
        }
    }
}

/// There is always at least one piece.
pub proof fn lemma_split_on_nonempty(s: Seq<char>, sep: char)
    ensures
        split_on(s, sep).len() >= 1,
    decreases s.len(),
{
    if s.len() > 0 {
        lemma_split_on_nonempty(s.drop_last(), sep);
    }
}

/// A string in which `sep` does not occur is a single piece.
pub proof fn lemma_split_on_without_sep(s: Seq<char>, sep: char)
    requires
        !s.contains(sep),
    ensures
        split_on(s, sep) == seq![s],
    decreases s.len(),
{
    if s.len() > 0 {
        assert(!s.drop_last().contains(sep)) by {
            if s.drop_last().contains(sep) {
                let k = choose|k: int| 0 <= k < s.drop_last().len() && s.drop_last()[k] == sep;
                assert(s[k] == sep);
            }
        }
        lemma_split_on_without_sep(s.drop_last(), sep);
        assert(s[s.len() - 1] != sep);
        assert(s.drop_last().push(s.last()) == s);
        assert(seq![s.drop_last()].update(0, s.drop_last().push(s.last())) == seq![s]);
    } else {
        assert(s == Seq::<char>::empty());
    }
}

/// Splitting `a`, a separator, then `b` gives the pieces of `a` followed by
/// the pieces of `b`.
pub proof fn lemma_split_on_concat(a: Seq<char>, b: Seq<char>, sep: char)
    ensures
        split_on(a.push(sep) + b, sep) == split_on(a, sep) + split_on(b, sep),
    decreases b.len(),
{
    lemma_split_on_nonempty(a, sep);
    lemma_split_on_nonempty(b, sep);
    if b.len() == 0 {
        assert(a.push(sep) + b == a.push(sep));
        assert(a.push(sep).drop_last() == a);
    } else {
        let s = a.push(sep) + b;
        assert(s.drop_last() == a.push(sep) + b.drop_last());
        lemma_split_on_concat(a, b.drop_last(), sep);
        lemma_split_on_nonempty(b.drop_last(), sep);
        let x = split_on(a, sep);
        let y = split_on(b.drop_last(), sep);
        assert(s.last() == b.last());
        if b.last() == sep {
            assert((x + y).push(Seq::<char>::empty()) == x + y.push(Seq::<char>::empty()));
        } else {
            assert((x + y).update((x + y).len() - 1, (x + y).last().push(b.last())) == x + y.update(
                y.len() - 1,
                y.last().push(b.last()),
            ));
        }
    }
}

/// The pieces of `s` between occurrences of `sep`.
pub fn split_chars(s: &Vec<char>, sep: char) -> (r: Vec<Vec<char>>)
    ensures
        r@.len() == split_on(s@, sep).len(),
        forall|k: int| 0 <= k < r@.len() ==> #[trigger] r@[k]@ == split_on(s@, sep)[k],
{
    let mut fields: Vec<Vec<char>> = Vec::new();
    let mut cur: Vec<char> = Vec::new();
    let n = s.len();
    for i in 0..n
        invariant
            n == s.len(),
            split_on(s@.take(i as int), sep).len() == fields@.len() + 1,
            forall|k: int| 0 <= k < fields@.len() ==> #[trigger] fields@[k]@ == split_on(s@.take(i as int), sep)[k],
            cur@ == split_on(s@.take(i as int), sep).last(),
    {
        let ghost prev = s@.take(i as int);
        assert(s@.take(i + 1).drop_last() == prev);
        assert(s@.take(i + 1).last() == s@[i as int]);
        if s[i] == sep {
            let done = cur;
            fields.push(done);
            cur = Vec::new();
        } else {
            cur.push(s[i]);
        }
    }
    assert(s@.take(n as int) == s@);
    let ghost whole = split_on(s@, sep);
    fields.push(cur);
    assert forall|k: int| 0 <= k < fields@.len() implies #[trigger] fields@[k]@ == whole[k] by {}
    fields
}

/// `str::split_once(sep)`: the text before the first `sep` and the text after
/// it, or `None` where `sep` does not occur.
pub open spec fn split_once(s: Seq<char>, sep: char) -> Option<(Seq<char>, Seq<char>)>
    decreases s.len(),
{
    if s.len() == 0 {
        None
    } else if s[0] == sep {
        Some((Seq::<char>::empty(), s.drop_first()))
    } else {
        match split_once(s.drop_first(), sep) {
            Some((a, b)) => Some((seq![s[0]] + a, b)),
            None => None,
        }
    }
}

/// `split_once` splits at the first occurrence, when there is one.
pub proof fn lemma_split_once_at(s: Seq<char>, sep: char, i: int)
    requires
        0 <= i <= s.len(),
        forall|k: int| 0 <= k < i ==> #[trigger] s[k] != sep,
        i < s.len() ==> s[i] == sep,
    ensures
        i < s.len() ==> split_once(s, sep) == Some((s.take(i), s.skip(i + 1))),
        i == s.len() ==> split_once(s, sep) is None,
    decreases i,
{
    if i == 0 {
        if s.len() > 0 {
            assert(s.take(0) == Seq::<char>::empty());
            assert(s.skip(1) == s.drop_first());
        }
    } else {
        let t = s.drop_first();
        assert forall|k: int| 0 <= k < i - 1 implies #[trigger] t[k] != sep by {
            assert(t[k] == s[k + 1]);
        }
        if i < s.len() {
            assert(t[i - 1] == s[i]);
        }
        assert(s[0] != sep);
        lemma_split_once_at(t, sep, i - 1);
        if i < s.len() {
            assert(seq![s[0]] + t.take(i - 1) == s.take(i));
            assert(t.skip(i) == s.skip(i + 1));
        }
    }
}

/// The characters before and after the first `sep` in `s`.
pub fn split_once_chars(s: &Vec<char>, sep: char) -> (r: Option<(Vec<char>, Vec<char>)>)
    ensures
        match r {
            Some((a, b)) => split_once(s@, sep) == Some((a@, b@)),
            None => split_once(s@, sep) is None,
        },
{
    let n = s.len();
    let mut i: usize = 0;
    while i < n && s[i] != sep
        invariant
            i <= n,
            n == s.len(),
            forall|k: int| 0 <= k < i ==> #[trigger] s@[k] != sep,
        decreases n - i,
    {
        i = i + 1;
    }
    proof {
        lemma_split_once_at(s@, sep, i as int);
    }
    if i == n {
        return None;
    }
    let mut a: Vec<char> = Vec::new();
    let mut k: usize = 0;
    while k < i
        invariant
            k <= i < n,
            n == s.len(),
            a@ == s@.take(k as int),
        decreases i - k,
    {
        a.push(s[k]);
        assert(s@.take(k + 1) == s@.take(k as int).push(s@[k as int]));
        k = k + 1;
    }
    let mut b: Vec<char> = Vec::new();
    let mut m: usize = i + 1;
    while m < n
        invariant
            i + 1 <= m <= n,
            n == s.len(),
            b@ == s@.subrange(i + 1, m as int),
        decreases n - m,
    {
        b.push(s[m]);
        m = m + 1;
    }
    assert(b@ == s@.skip(i + 1));
    Some((a, b))
}

// ---------------------------------------------------------------------------
// Formatting numbers
// ---------------------------------------------------------------------------

/// The lower-case digit for `d` (below 16).
pub open spec fn hex_char(d: nat) -> char {
    seq!['0', '1', '2', '3', '4', '5', '6', '7', '8', '9', 'a', 'b', 'c', 'd', 'e', 'f'][d as int]
}

/// `format!("{:x}", n)`: `n` in lower-case hexadecimal, without leading zeros.
pub open spec fn hex_lower(n: nat) -> Seq<char>
    decreases n,
{
    if n < 16 {
        seq![hex_char(n)]
    } else {
        hex_lower(n / 16).push(hex_char(n % 16))
    }
}

/// `s` with zeros in front up to `width` characters.
pub open spec fn zero_pad(s: Seq<char>, width: nat) -> Seq<char> {
    if s.len() >= width {
        s
    } else {
        Seq::new((width - s.len()) as nat, |i: int| '0') + s
    }
}

/// `format!("{:0w$x}", n)`.
pub open spec fn hex_padded(n: nat, width: nat) -> Seq<char> {
    zero_pad(hex_lower(n), width)
}

/// `format!("{}", n)`: `n` in decimal.
pub open spec fn dec_string(n: nat) -> Seq<char>
    decreases n,
{
    if n < 10 {
        seq![hex_char(n)]
    } else {
        dec_string(n / 10).push(hex_char(n % 10))
    }
}

fn hex_char_exec(d: u64) -> (c: char)
    requires
        d < 16,
    ensures
        c == hex_char(d as nat),
{
    let digits = ['0', '1', '2', '3', '4', '5', '6', '7', '8', '9', 'a', 'b', 'c', 'd', 'e', 'f'];
    let c = digits[d as usize];
    assert(digits@ == seq!['0', '1', '2', '3', '4', '5', '6', '7', '8', '9', 'a', 'b', 'c', 'd', 'e', 'f']);
    c
}

/// Appends `n` in lower-case hexadecimal.
pub fn push_hex(out: &mut Vec<char>, n: u64)
    ensures
        final(out)@ == old(out)@ + hex_lower(n as nat),
    decreases n,
{
    if n >= 16 {
        push_hex(out, n / 16);
    }
    out.push(hex_char_exec(n % 16));
}

/// Appends `n` in lower-case hexadecimal, zero-padded to `width`.
pub fn push_hex_padded(out: &mut Vec<char>, n: u64, width: usize)
    ensures
        final(out)@ == old(out)@ + hex_padded(n as nat, width as nat),
{
    let mut digits: Vec<char> = Vec::new();
    push_hex(&mut digits, n);
    assert(digits@ == hex_lower(n as nat));
    let len = digits.len();
    if len < width {
        let mut k: usize = 0;
        while k < width - len
            invariant
                k <= width - len,
                out@ == old(out)@ + Seq::new(k as nat, |i: int| '0'),
            decreases width - len - k,
        {
            out.push('0');
            k = k + 1;
            assert(out@ == old(out)@ + Seq::new(k as nat, |i: int| '0'));
        }
    }
    let ghost before = out@;
    for i in 0..len
        invariant
            len == digits@.len(),
            out@ == before + digits@.take(i as int),
    {
        out.push(digits[i]);
        assert(digits@.take(i + 1) == digits@.take(i as int).push(digits@[i as int]));
    }
    assert(digits@.take(len as int) == digits@);
}

/// Appends `n` in decimal.
pub fn push_dec(out: &mut Vec<char>, n: u64)
    ensures
        final(out)@ == old(out)@ + dec_string(n as nat),
    decreases n,
{
    if n >= 10 {
        push_dec(out, n / 10);
    }
    out.push(hex_char_exec(n % 10));
}

/// Appends the characters of `s`.
pub fn push_str(out: &mut Vec<char>, s: &str)
    ensures
        final(out)@ == old(out)@ + s@,
{
    let v = chars_of(s);
    push_chars(out, &v);
}

/// Appends the characters of `v`.
pub fn push_chars(out: &mut Vec<char>, v: &Vec<char>)
    ensures
        final(out)@ == old(out)@ + v@,
{
    let ghost before = out@;
    for i in 0..v.len()
        invariant
            out@ == before + v@.take(i as int),
    {
        out.push(v[i]);
        assert(v@.take(i + 1) == v@.take(i as int).push(v@[i as int]));
    }
    assert(v@.take(v@.len() as int) == v@);
}

// ---------------------------------------------------------------------------
// Facts about formatted numbers
// ---------------------------------------------------------------------------

/// A lower-case hexadecimal digit.
pub open spec fn is_lower_hex(c: char) -> bool {
    ('0' <= c && c <= '9') || ('a' <= c && c <= 'f')
}

/// The digit for `k` is a lower-case hexadecimal digit that reads back as `k`.
pub proof fn lemma_hex_char(k: nat)
    requires
        k < 16,
    ensures
        is_lower_hex(hex_char(k)),
        digit_of(hex_char(k)) == k,
{
    let t = seq!['0', '1', '2', '3', '4', '5', '6', '7', '8', '9', 'a', 'b', 'c', 'd', 'e', 'f'];
    assert(hex_char(k) == t[k as int]);
    if k == 0 { assert(t[0] == '0'); }
    else if k == 1 { assert(t[1] == '1'); }
    else if k == 2 { assert(t[2] == '2'); }
    else if k == 3 { assert(t[3] == '3'); }
    else if k == 4 { assert(t[4] == '4'); }
    else if k == 5 { assert(t[5] == '5'); }
    else if k == 6 { assert(t[6] == '6'); }
    else if k == 7 { assert(t[7] == '7'); }
    else if k == 8 { assert(t[8] == '8'); }
    else if k == 9 { assert(t[9] == '9'); }
    else if k == 10 { assert(t[10] == 'a'); }
    else if k == 11 { assert(t[11] == 'b'); }
    else if k == 12 { assert(t[12] == 'c'); }
    else if k == 13 { assert(t[13] == 'd'); }
    else if k == 14 { assert(t[14] == 'e'); }
    else { assert(t[15] == 'f'); }
}

/// `hex_lower(n)` is made of lower-case hexadecimal digits and reads back as
/// `n`.
pub proof fn lemma_hex_lower(n: nat)
    ensures
        hex_lower(n).len() >= 1,
        forall|i: int| 0 <= i < hex_lower(n).len() ==> #[trigger] is_lower_hex(hex_lower(n)[i]),
        all_digits(hex_lower(n), 16),
        digits_value(hex_lower(n), 16) == n,
        n < 16 ==> hex_lower(n).len() == 1,
        16 <= n < 256 ==> hex_lower(n).len() == 2,
        n < 256 ==> hex_lower(n).len() <= 2,
        n < 65536 ==> hex_lower(n).len() <= 4,
    decreases n,
{
    let s = hex_lower(n);
    if n < 16 {
        lemma_hex_char(n);
        assert(s.drop_last() == Seq::<char>::empty());
        assert(digits_value(Seq::<char>::empty(), 16) == 0);
        assert(digits_value(s, 16) == digits_value(s.drop_last(), 16) * 16 + digit_of(s.last()));
    } else {
        lemma_hex_lower(n / 16);
        lemma_hex_char(n % 16);
        let p = hex_lower(n / 16);
        assert(s.drop_last() == p);
        assert forall|i: int| 0 <= i < s.len() implies #[trigger] is_lower_hex(s[i]) by {
            if i < p.len() {
                assert(s[i] == p[i]);
            }
        }
        assert forall|i: int| 0 <= i < s.len() implies #[trigger] is_digit(s[i], 16) by {
            if i < p.len() {
                assert(s[i] == p[i]);
                assert(is_digit(p[i], 16));
            }
        }
        assert(n == (n / 16) * 16 + n % 16);
        assert(s.last() == hex_char(n % 16));
        assert(digits_value(s, 16) == digits_value(p, 16) * 16 + digit_of(s.last()));
        if n < 65536 {
            lemma_hex_lower(n / 16 / 16);
        }
    }
}

/// Leading zeros do not change what digits read as.
pub proof fn lemma_leading_zeros(m: nat, s: Seq<char>, radix: nat)
    requires
        radix >= 1,
    ensures
        digits_value(Seq::new(m, |i: int| '0') + s, radix) == digits_value(s, radix),
    decreases s.len(), m,
{
    let z = Seq::new(m, |i: int| '0');
    if s.len() == 0 {
        assert(z + s == z);
        if m > 0 {
            assert(z.drop_last() == Seq::new((m - 1) as nat, |i: int| '0'));
            lemma_leading_zeros((m - 1) as nat, s, radix);
            assert(Seq::new((m - 1) as nat, |i: int| '0') + s == Seq::new((m - 1) as nat, |i: int| '0'));
            assert(z.last() == '0');
            assert(digit_of('0') == 0);
            assert(digits_value(z, radix) == digits_value(z.drop_last(), radix) * radix + digit_of(z.last()));
            assert(digits_value(z.drop_last(), radix) == 0);
            assert(0 * radix == 0) by (nonlinear_arith);
        } else {
            assert(z == Seq::<char>::empty());
        }
        assert(digits_value(Seq::<char>::empty(), radix) == 0);
    } else {
        assert((z + s).drop_last() == z + s.drop_last());
        assert((z + s).last() == s.last());
        lemma_leading_zeros(m, s.drop_last(), radix);
    }
}

/// `hex_padded(n, width)` is made of lower-case hexadecimal digits, reads back
/// as `n`, and is `width` long where `n` has at most `width` digits.
pub proof fn lemma_hex_padded(n: nat, width: nat)
    ensures
        hex_padded(n, width).len() >= 1,
        forall|i: int| 0 <= i < hex_padded(n, width).len() ==> #[trigger] is_lower_hex(hex_padded(n, width)[i]),
        all_digits(hex_padded(n, width), 16),
        digits_value(hex_padded(n, width), 16) == n,
        hex_lower(n).len() <= width ==> hex_padded(n, width).len() == width,
{
    lemma_hex_lower(n);
    let h = hex_lower(n);
    let p = hex_padded(n, width);
    if h.len() < width {
        let m = (width - h.len()) as nat;
        let z = Seq::new(m, |i: int| '0');
        assert(p == z + h);
        lemma_leading_zeros(m, h, 16);
        assert forall|i: int| 0 <= i < p.len() implies #[trigger] is_lower_hex(p[i]) by {
            if i >= m {
                assert(p[i] == h[i - m]);
            }
        }
    }
    assert forall|i: int| 0 <= i < p.len() implies #[trigger] is_digit(p[i], 16) by {
        assert(is_lower_hex(p[i]));
    }
}

/// Lower-case hexadecimal digits read back as their value, through the same
/// parser that reads them in.
pub proof fn lemma_parse_hex_digits(s: Seq<char>, max: nat)
    requires
        s.len() >= 1,
        forall|i: int| 0 <= i < s.len() ==> #[trigger] is_lower_hex(s[i]),
        all_digits(s, 16),
        digits_value(s, 16) <= max,
    ensures
        parse_unsigned(s, 16, max) == Some(digits_value(s, 16)),
        !s.contains(':'),
        !s.contains('.'),
{
    assert(is_lower_hex(s[0]));
    if s.contains(':') {
        let k = choose|k: int| 0 <= k < s.len() && s[k] == ':';
        assert(is_lower_hex(s[k]));
    }
    if s.contains('.') {
        let k = choose|k: int| 0 <= k < s.len() && s[k] == '.';
        assert(is_lower_hex(s[k]));
    }
}

// ---------------------------------------------------------------------------
// Letter case
// ---------------------------------------------------------------------------

/// The code of `c` with ASCII upper-case letters taken to lower case.
pub open spec fn fold_case(c: char) -> int {
    if 'A' <= c && c <= 'Z' {
        c as int + 32
    } else {
        c as int
    }
}

/// `a` and `b` differ at most in the case of ASCII letters.
pub open spec fn same_ignoring_case(a: Seq<char>, b: Seq<char>) -> bool {
    &&& a.len() == b.len()
    &&& forall|i: int| 0 <= i < a.len() ==> #[trigger] fold_case(a[i]) == fold_case(b[i])
}

/// Characters that are not letters only match themselves.
pub proof fn lemma_fold_case_non_letter(c: char, d: char)
    requires
        fold_case(c) == fold_case(d),
        !('A' <= d && d <= 'Z'),
        !('a' <= d && d <= 'z'),
    ensures
        c == d,
{
}

/// Characters that differ at most in case are the same digit.
pub proof fn lemma_fold_case_digit(c: char, d: char)
    requires
        fold_case(c) == fold_case(d),
    ensures
        digit_of(c) == digit_of(d),
{
}

proof fn lemma_same_ignoring_case_drop_last(a: Seq<char>, b: Seq<char>)
    requires
        same_ignoring_case(a, b),
        a.len() > 0,
    ensures
        same_ignoring_case(a.drop_last(), b.drop_last()),
        fold_case(a.last()) == fold_case(b.last()),
{
    assert forall|i: int| 0 <= i < a.drop_last().len() implies #[trigger] fold_case(a.drop_last()[i])
        == fold_case(b.drop_last()[i]) by {
        assert(fold_case(a[i]) == fold_case(b[i]));
    }
    assert(fold_case(a[a.len() - 1]) == fold_case(b[b.len() - 1]));
}

proof fn lemma_same_ignoring_case_drop_first(a: Seq<char>, b: Seq<char>)
    requires
        same_ignoring_case(a, b),
        a.len() > 0,
    ensures
        same_ignoring_case(a.drop_first(), b.drop_first()),
        fold_case(a[0]) == fold_case(b[0]),
{
    assert forall|i: int| 0 <= i < a.drop_first().len() implies #[trigger] fold_case(a.drop_first()[i])
        == fold_case(b.drop_first()[i]) by {
        assert(fold_case(a[i + 1]) == fold_case(b[i + 1]));
    }
    assert(fold_case(a[0]) == fold_case(b[0]));
}

/// Splitting at a non-letter does not see the case of letters.
pub proof fn lemma_split_on_ignores_case(a: Seq<char>, b: Seq<char>, sep: char)
    requires
        same_ignoring_case(a, b),
        !('A' <= sep && sep <= 'Z'),
        !('a' <= sep && sep <= 'z'),
    ensures
        split_on(a, sep).len() == split_on(b, sep).len(),
        forall|k: int| 0 <= k < split_on(a, sep).len() ==> same_ignoring_case(
            #[trigger] split_on(a, sep)[k],
            split_on(b, sep)[k],
        ),
    decreases a.len(),
{
    lemma_split_on_nonempty(a, sep);
    lemma_split_on_nonempty(b, sep);
    if a.len() > 0 {
        lemma_same_ignoring_case_drop_last(a, b);
        lemma_split_on_ignores_case(a.drop_last(), b.drop_last(), sep);
        lemma_split_on_nonempty(a.drop_last(), sep);
        let x = split_on(a.drop_last(), sep);
        let y = split_on(b.drop_last(), sep);
        if a.last() == sep {
            assert(fold_case(b.last()) == fold_case(sep));
            lemma_fold_case_non_letter(b.last(), sep);
        } else if b.last() == sep {
            lemma_fold_case_non_letter(a.last(), sep);
        } else {
            let xl = x.last().push(a.last());
            let yl = y.last().push(b.last());
            assert(same_ignoring_case(x[x.len() - 1], y[y.len() - 1]));
            assert forall|i: int| 0 <= i < xl.len() implies #[trigger] fold_case(xl[i]) == fold_case(yl[i]) by {
                if i < xl.len() - 1 {
                    assert(fold_case(x.last()[i]) == fold_case(y.last()[i]));
                }
            }
            assert forall|k: int| 0 <= k < split_on(a, sep).len() implies same_ignoring_case(
                #[trigger] split_on(a, sep)[k],
                split_on(b, sep)[k],
            ) by {
                if k < x.len() - 1 {
                    assert(same_ignoring_case(x[k], y[k]));
                }
            }
        }
    } else {
        assert(b.len() == 0);
        assert(same_ignoring_case(Seq::<char>::empty(), Seq::<char>::empty()));
    }
}

/// Splitting once at a non-letter does not see the case of letters.
pub proof fn lemma_split_once_ignores_case(a: Seq<char>, b: Seq<char>, sep: char)
    requires
        same_ignoring_case(a, b),
        !('A' <= sep && sep <= 'Z'),
        !('a' <= sep && sep <= 'z'),
    ensures
        split_once(a, sep) is Some <==> split_once(b, sep) is Some,
        split_once(a, sep) is Some ==> same_ignoring_case(split_once(a, sep).unwrap().0, split_once(b, sep).unwrap().0)
            && same_ignoring_case(split_once(a, sep).unwrap().1, split_once(b, sep).unwrap().1),
    decreases a.len(),
{
    if a.len() > 0 {
        lemma_same_ignoring_case_drop_first(a, b);
        if a[0] == sep {
            lemma_fold_case_non_letter(b[0], sep);
        } else if b[0] == sep {
            lemma_fold_case_non_letter(a[0], sep);
        } else {
            lemma_split_once_ignores_case(a.drop_first(), b.drop_first(), sep);
            if let Some((p, q)) = split_once(a.drop_first(), sep) {
                let (r, t) = split_once(b.drop_first(), sep).unwrap();
                let pp = seq![a[0]] + p;
                let rr = seq![b[0]] + r;
                assert forall|i: int| 0 <= i < pp.len() implies #[trigger] fold_case(pp[i]) == fold_case(rr[i]) by {
                    if i > 0 {
                        assert(fold_case(p[i - 1]) == fold_case(r[i - 1]));
                    }
                }
            }
        }
    }
}

/// Reading digits does not see the case of letters.
pub proof fn lemma_digits_ignore_case(a: Seq<char>, b: Seq<char>, radix: nat)
    requires
        same_ignoring_case(a, b),
    ensures
        digits_value(a, radix) == digits_value(b, radix),
        all_digits(a, radix) == all_digits(b, radix),
    decreases a.len(),
{
    assert forall|i: int| 0 <= i < a.len() implies #[trigger] is_digit(a[i], radix) == is_digit(b[i], radix) by {
        assert(fold_case(a[i]) == fold_case(b[i]));
        lemma_fold_case_digit(a[i], b[i]);
    }
    if all_digits(a, radix) {
        assert forall|i: int| 0 <= i < b.len() implies #[trigger] is_digit(b[i], radix) by {
            assert(is_digit(a[i], radix));
        }
    }
    if all_digits(b, radix) {
        assert forall|i: int| 0 <= i < a.len() implies #[trigger] is_digit(a[i], radix) by {
            assert(is_digit(b[i], radix));
        }
    }
    if a.len() > 0 {
        lemma_same_ignoring_case_drop_last(a, b);
        lemma_digits_ignore_case(a.drop_last(), b.drop_last(), radix);
        lemma_fold_case_digit(a.last(), b.last());
    }
}

/// `from_str_radix` does not see the case of letters.
pub proof fn lemma_parse_unsigned_ignores_case(a: Seq<char>, b: Seq<char>, radix: nat, max: nat)
    requires
        same_ignoring_case(a, b),
    ensures
        parse_unsigned(a, radix, max) == parse_unsigned(b, radix, max),
{
    if a.len() > 0 {
        lemma_same_ignoring_case_drop_first(a, b);
        if a[0] == '+' {
            lemma_fold_case_non_letter(b[0], '+');
        } else if b[0] == '+' {
            lemma_fold_case_non_letter(a[0], '+');
        }
        lemma_digits_ignore_case(a.drop_first(), b.drop_first(), radix);
    }
    lemma_digits_ignore_case(a, b, radix);
}

// ---------------------------------------------------------------------------
// String order and the order of the numbers digits spell
// ---------------------------------------------------------------------------

/// `a < b` for strings: the first character where they differ decides, and a
/// proper prefix comes first.
pub open spec fn lex_lt(a: Seq<char>, b: Seq<char>) -> bool
    decreases a.len(),
{
    if a.len() == 0 {
        b.len() > 0
    } else if b.len() == 0 {
        false
    } else if a[0] != b[0] {
        a[0] < b[0]
    } else {
        lex_lt(a.drop_first(), b.drop_first())
    }
}

/// `16` to the power `n`.
pub open spec fn pow16(n: nat) -> nat
    decreases n,
{
    if n == 0 {
        1
    } else {
        16 * pow16((n - 1) as nat)
    }
}

/// Hexadecimal digits spell a number below `16` to the power of their count.
pub proof fn lemma_digits_value_bound(x: Seq<char>)
    requires
        all_digits(x, 16),
    ensures
        digits_value(x, 16) < pow16(x.len()),
    decreases x.len(),
{
    if x.len() > 0 {
        let init = x.drop_last();
        assert(all_digits(init, 16)) by {
            assert forall|i: int| 0 <= i < init.len() implies #[trigger] is_digit(init[i], 16) by {
                assert(is_digit(x[i], 16));
            }
        }
        assert(is_digit(x[x.len() - 1], 16));
        lemma_digits_value_bound(init);
        let v = digits_value(init, 16);
        let p = pow16(init.len());
        let d = digit_of(x.last());
        assert(v * 16 + d < p * 16) by (nonlinear_arith)
            requires
                v < p,
                d < 16,
        ;
    }
}

/// The first digit counts `16` to the power of the digits after it.
pub proof fn lemma_digits_value_front(x: Seq<char>)
    requires
        x.len() > 0,
    ensures
        digits_value(x, 16) == digit_of(x[0]) * pow16((x.len() - 1) as nat) + digits_value(x.drop_first(), 16),
    decreases x.len(),
{
    if x.len() == 1 {
        assert(x.drop_last() == Seq::<char>::empty());
        assert(x.drop_first() == Seq::<char>::empty());
        assert(digits_value(Seq::<char>::empty(), 16) == 0);
        assert(x.last() == x[0]);
        assert(digits_value(x, 16) == digits_value(x.drop_last(), 16) * 16 + digit_of(x.last()));
        assert(pow16(0) == 1);
        let d0 = digit_of(x[0]);
        assert(0 * 16 + d0 == d0 * 1 + 0) by (nonlinear_arith);
    } else {
        let init = x.drop_last();
        let tail = x.drop_first();
        lemma_digits_value_front(init);
        assert(init[0] == x[0]);
        assert(init.drop_first() == tail.drop_last());
        assert(tail.last() == x.last());
        let d0 = digit_of(x[0]);
        let p = pow16((init.len() - 1) as nat);
        let r = digits_value(tail.drop_last(), 16);
        let dl = digit_of(x.last());
        assert(pow16((x.len() - 1) as nat) == 16 * p);
        assert(digits_value(x, 16) == digits_value(init, 16) * 16 + dl);
        assert(digits_value(tail, 16) == digits_value(tail.drop_last(), 16) * 16 + digit_of(tail.last()));
        assert(digits_value(init, 16) == d0 * p + r);
        assert((d0 * p + r) * 16 + dl == d0 * (16 * p) + (r * 16 + dl)) by (nonlinear_arith);
    }
}

/// Lower-case hexadecimal digits are in the same order as the numbers they
/// stand for.
pub proof fn lemma_lower_hex_order(c: char, d: char)
    requires
        is_lower_hex(c),
        is_lower_hex(d),
    ensures
        (c < d) == (digit_of(c) < digit_of(d)),
        (c == d) == (digit_of(c) == digit_of(d)),
{
}

/// For lower-case hexadecimal digit strings of one length, string order is
/// the order of the numbers they spell, and equal numbers are equal strings.
pub proof fn lemma_lex_lt_lower_hex(x: Seq<char>, y: Seq<char>)
    requires
        x.len() == y.len(),
        forall|i: int| 0 <= i < x.len() ==> #[trigger] is_lower_hex(x[i]),
        forall|i: int| 0 <= i < y.len() ==> #[trigger] is_lower_hex(y[i]),
    ensures
        lex_lt(x, y) == (digits_value(x, 16) < digits_value(y, 16)),
        (x == y) == (digits_value(x, 16) == digits_value(y, 16)),
    decreases x.len(),
{
    if x.len() == 0 {
        assert(x == y);
    } else {
        let xt = x.drop_first();
        let yt = y.drop_first();
        assert forall|i: int| 0 <= i < xt.len() implies #[trigger] is_lower_hex(xt[i]) by {
            assert(is_lower_hex(x[i + 1]));
        }
        assert forall|i: int| 0 <= i < yt.len() implies #[trigger] is_lower_hex(yt[i]) by {
            assert(is_lower_hex(y[i + 1]));
        }
        assert(all_digits(xt, 16)) by {
            assert forall|i: int| 0 <= i < xt.len() implies #[trigger] is_digit(xt[i], 16) by {
                assert(is_lower_hex(xt[i]));
            }
        }
        assert(all_digits(yt, 16)) by {
            assert forall|i: int| 0 <= i < yt.len() implies #[trigger] is_digit(yt[i], 16) by {
                assert(is_lower_hex(yt[i]));
            }
        }
        lemma_lex_lt_lower_hex(xt, yt);
        lemma_digits_value_front(x);
        lemma_digits_value_front(y);
        lemma_digits_value_bound(xt);
        lemma_digits_value_bound(yt);
        assert(is_lower_hex(x[0]));
        assert(is_lower_hex(y[0]));
        lemma_lower_hex_order(x[0], y[0]);
        let p = pow16(xt.len());
        let dx = digit_of(x[0]);
        let dy = digit_of(y[0]);
        let rx = digits_value(xt, 16);
        let ry = digits_value(yt, 16);
        if dx < dy {
            assert(dx * p + rx < dy * p + ry) by (nonlinear_arith)
                requires
                    dx < dy,
                    rx < p,
                    ry >= 0,
            ;
            assert(x != y);
        } else if dy < dx {
            assert(dy * p + ry < dx * p + rx) by (nonlinear_arith)
                requires
                    dy < dx,
                    ry < p,
                    rx >= 0,
            ;
            assert(x != y);
        } else {
            assert(x[0] == y[0]);
            if xt == yt {
                assert(x == seq![x[0]] + xt);
                assert(y == seq![y[0]] + yt);
            } else if x == y {
                assert(xt == yt);
            }
        }
    }
}

/// String order across pieces: for `p` and `r` of one length, `p + q` comes
/// before `r + t` when `p` comes before `r`, or `p` is `r` and `q` comes
/// before `t`.
pub proof fn lemma_lex_lt_concat(p: Seq<char>, q: Seq<char>, r: Seq<char>, t: Seq<char>)
    requires
        p.len() == r.len(),
    ensures
        lex_lt(p + q, r + t) == (lex_lt(p, r) || (p == r && lex_lt(q, t))),
    decreases p.len(),
{
    if p.len() == 0 {
        assert(p + q == q);
        assert(r + t == t);
        assert(p == r);
    } else {
        assert((p + q)[0] == p[0]);
        assert((r + t)[0] == r[0]);
        assert((p + q).drop_first() == p.drop_first() + q);
        assert((r + t).drop_first() == r.drop_first() + t);
        lemma_lex_lt_concat(p.drop_first(), q, r.drop_first(), t);
        if p[0] == r[0] {
            if p.drop_first() == r.drop_first() {
                assert(p == seq![p[0]] + p.drop_first());
                assert(r == seq![r[0]] + r.drop_first());
            }
        } else {
            assert(p != r);
        }
    }
}

/// Keeping the characters that pass a test keeps a string all of whose
/// characters pass it.
pub proof fn lemma_filter_all(s: Seq<char>, keep: spec_fn(char) -> bool)
    requires
        forall|i: int| 0 <= i < s.len() ==> #[trigger] keep(s[i]),
    ensures
        s.filter(keep) == s,
    decreases s.len(),
{
    reveal_with_fuel(Seq::filter, 1);
    if s.len() > 0 {
        assert forall|i: int| 0 <= i < s.drop_last().len() implies #[trigger] keep(s.drop_last()[i]) by {
            assert(keep(s[i]));
        }
        lemma_filter_all(s.drop_last(), keep);
        assert(keep(s[s.len() - 1]));
        assert(s.drop_last().push(s.last()) == s);
    }
}

/// Keeping the characters that pass a test drops a single one that fails it.
pub proof fn lemma_filter_drop_one(c: char, keep: spec_fn(char) -> bool)
    requires
        !keep(c),
    ensures
        seq![c].filter(keep) == Seq::<char>::empty(),
{
    reveal_with_fuel(Seq::filter, 2);
    assert(seq![c].drop_last() == Seq::<char>::empty());
}

/// No string comes before itself.
pub proof fn lemma_lex_lt_irreflexive(a: Seq<char>)
    ensures
        !lex_lt(a, a),
    decreases a.len(),
{
    if a.len() > 0 {
        lemma_lex_lt_irreflexive(a.drop_first());
    }
}

// ---------------------------------------------------------------------------
// Numbers written out read back
// ---------------------------------------------------------------------------

/// `n` written in decimal, after a `-` where `negative`.
pub open spec fn signed_dec(n: nat, negative: bool) -> Seq<char> {
    if negative {
        seq!['-'] + dec_string(n)
    } else {
        dec_string(n)
    }
}

/// `dec_string(n)` is a non-empty run of decimal digits that reads back as
/// `n`, without a leading zero unless it is `0`.
pub proof fn lemma_dec_string(n: nat)
    ensures
        dec_string(n).len() >= 1,
        forall|i: int| 0 <= i < dec_string(n).len() ==> '0' <= #[trigger] dec_string(n)[i] && dec_string(n)[i] <= '9',
        all_digits(dec_string(n), 10),
        digits_value(dec_string(n), 10) == n,
        n >= 1 ==> dec_string(n)[0] != '0',
        n < 10 ==> dec_string(n).len() == 1,
    decreases n,
{
    let s = dec_string(n);
    if n < 10 {
        lemma_hex_char(n);
        assert(s.drop_last() == Seq::<char>::empty());
        assert(digits_value(Seq::<char>::empty(), 10) == 0);
        assert(digits_value(s, 10) == digits_value(s.drop_last(), 10) * 10 + digit_of(s.last()));
        assert(is_digit(s[0], 10));
    } else {
        lemma_dec_string(n / 10);
        lemma_hex_char(n % 10);
        let p = dec_string(n / 10);
        assert(s.drop_last() == p);
        assert(s.last() == hex_char(n % 10));
        assert forall|i: int| 0 <= i < s.len() implies '0' <= #[trigger] s[i] && s[i] <= '9' by {
            if i < p.len() {
                assert(s[i] == p[i]);
            }
        }
        assert forall|i: int| 0 <= i < s.len() implies #[trigger] is_digit(s[i], 10) by {
            assert('0' <= s[i] && s[i] <= '9');
        }
        assert(n == (n / 10) * 10 + n % 10);
        assert(digits_value(s, 10) == digits_value(p, 10) * 10 + digit_of(s.last()));
        assert(s[0] == p[0]);
    }
}

/// A number written in decimal, signed or not, reads back through
/// `parse_i64` as itself, whenever it is within the range of `i64`.
pub proof fn lemma_parse_i64_signed_dec(n: nat, negative: bool)
    requires
        negative ==> n <= 0x8000_0000_0000_0000,
        !negative ==> n <= 0x7fff_ffff_ffff_ffff,
    ensures
        parse_i64(signed_dec(n, negative)) == Some(if negative { -n } else { n as int }),
{
    lemma_dec_string(n);
    let d = dec_string(n);
    let s = signed_dec(n, negative);
    if negative {
        assert(s[0] == '-');
        assert(s.drop_first() == d);
    } else {
        assert('0' <= s[0] && s[0] <= '9');
    }
}

/// Surrounding whitespace is what `trim` drops: a text that does not begin or
/// end with whitespace comes back out of any whitespace around it.
pub proof fn lemma_trim_padded(pre: Seq<char>, core: Seq<char>, post: Seq<char>)
    requires
        forall|i: int| 0 <= i < pre.len() ==> #[trigger] is_whitespace(pre[i]),
        forall|i: int| 0 <= i < post.len() ==> #[trigger] is_whitespace(post[i]),
        core.len() > 0,
        !is_whitespace(core[0]),
        !is_whitespace(core.last()),
    ensures
        trim(pre + core + post) == core,
{
    let s = pre + core + post;
    let k = pre.len() as int;
    assert forall|i: int| 0 <= i < k implies is_whitespace(#[trigger] s[i]) by {
        assert(s[i] == pre[i]);
    }
    assert(s[k] == core[0]);
    lemma_trim_start_at(s, k);
    let t = core + post;
    assert(s.skip(k) == t);
    let j = core.len() as int;
    assert forall|i: int| j <= i < t.len() implies is_whitespace(#[trigger] t[i]) by {
        assert(t[i] == post[i - j]);
    }
    assert(t[j - 1] == core[j - 1]);
    lemma_trim_end_at(t, j);
    assert(t.take(j) == core);
}

/// A number written in lower-case hexadecimal, with or without `0x` and
/// inside any whitespace, reads as that number where it fits under `max`, and
/// as nothing where it does not.
pub proof fn lemma_sysfs_hex_reads_back(pre: Seq<char>, prefixed: bool, v: nat, post: Seq<char>, max: nat)
    requires
        forall|i: int| 0 <= i < pre.len() ==> #[trigger] is_whitespace(pre[i]),
        forall|i: int| 0 <= i < post.len() ==> #[trigger] is_whitespace(post[i]),
    ensures
        parse_unsigned(
            strip_hex_prefixes(trim(pre + ((if prefixed { seq!['0', 'x'] } else { Seq::<char>::empty() }) + hex_lower(v)) + post)),
            16,
            max,
        ) == (if v <= max { Some(v) } else { None::<nat> }),
{
    lemma_hex_lower(v);
    let h = hex_lower(v);
    let x = if prefixed { seq!['0', 'x'] } else { Seq::<char>::empty() };
    let core = x + h;
    assert(core.last() == h.last());
    assert(is_lower_hex(h[h.len() - 1]));
    if prefixed {
        assert(core[0] == '0');
    } else {
        assert(core == h);
        assert(is_lower_hex(h[0]));
    }
    lemma_trim_padded(pre, core, post);
    // `0x` is dropped once, and the digits never start with another `0x`
    assert(is_lower_hex(h[0]));
    if h.len() >= 2 {
        assert(is_lower_hex(h[1]));
    }
    assert(strip_hex_prefixes(h) == h);
    if prefixed {
        assert(core[1] == 'x');
        assert(core.skip(2) == h);
    }
    assert(strip_hex_prefixes(core) == h);
    assert(h[0] != '+');
    if v <= max {
        lemma_parse_hex_digits(h, max);
    }
}

} // verus!
