//! Text handling on sequences of characters: white space, tokens, trimming,
//! searching, and decimal numbers.
use vstd::prelude::*;

verus! {

/// Whether `c` is Unicode white space.
pub open spec fn is_space(c: char) -> bool {
    let n = c as u32;
    ||| 0x09 <= n <= 0x0D
    ||| n == 0x20
    ||| n == 0x85
    ||| n == 0xA0
    ||| n == 0x1680
    ||| 0x2000 <= n <= 0x200A
    ||| n == 0x2028
    ||| n == 0x2029
    ||| n == 0x202F
    ||| n == 0x205F
    ||| n == 0x3000
}

pub fn is_whitespace(c: char) -> (r: bool)
    ensures
        r == is_space(c),
{
    let n: u32 = c as u32;
    (0x09 <= n && n <= 0x0D) || n == 0x20 || n == 0x85 || n == 0xA0 || n == 0x1680 || (0x2000 <= n
        && n <= 0x200A) || n == 0x2028 || n == 0x2029 || n == 0x202F || n == 0x205F || n == 0x3000
}

/// The characters of `s`.
pub fn chars_of(s: &str) -> (v: Vec<char>)
    ensures
        v@ == s@,
{
    let n: usize = s.unicode_len();
    let mut v: Vec<char> = Vec::new();
    let mut i: usize = 0;
    while i < n
        invariant
            n == s@.len(),
            i <= n,
            v@ == s@.take(i as int),
        decreases n - i,
    {
        v.push(s.get_char(i));
        proof {
            assert(s@.take(i as int).push(s@[i as int]) =~= s@.take(i + 1));
        }
        i = i + 1;
    }
    proof {
        assert(s@.take(n as int) =~= s@);
    }
    v
}

/// The tokens of `s`: its maximal runs of characters that are not white
/// space, in their order. Reading from the left, a character that is not white
/// space lengthens the last token where the character before it is none
/// either, and starts a new token otherwise.
pub open spec fn tokens(s: Seq<char>) -> Seq<Seq<char>>
    decreases s.len(),
{
    if s.len() == 0 {
        Seq::empty()
    } else {
        let before = tokens(s.drop_last());
        if is_space(s.last()) {
            before
        } else if s.len() >= 2 && !is_space(s[s.len() - 2]) && before.len() > 0 {
            before.drop_last().push(before.last().push(s.last()))
        } else {
            before.push(seq![s.last()])
        }
    }
}

/// Whether `t` has a character and none that is white space.
pub open spec fn is_token(t: Seq<char>) -> bool {
    t.len() > 0 && forall|k: int| 0 <= k < t.len() ==> !is_space(#[trigger] t[k])
}

/// Every token has a character and none that is white space. A text that ends
/// in a character that is no white space ends in its last token; a text of
/// white space alone has no token.
pub proof fn lemma_tokens(s: Seq<char>)
    ensures
        forall|k: int| 0 <= k < tokens(s).len() ==> is_token(#[trigger] tokens(s)[k]),
        s.len() > 0 && !is_space(s.last()) ==> tokens(s).len() > 0 && tokens(s).last().len() > 0
            && tokens(s).last().last() == s.last(),
        (forall|k: int| 0 <= k < s.len() ==> is_space(#[trigger] s[k])) ==> tokens(s).len() == 0,
    decreases s.len(),
{
    if s.len() > 0 {
        let t = s.drop_last();
        lemma_tokens(t);
        let before = tokens(t);
        if is_space(s.last()) {
            if forall|k: int| 0 <= k < s.len() ==> is_space(#[trigger] s[k]) {
                assert forall|k: int| 0 <= k < t.len() implies is_space(#[trigger] t[k]) by {
                    assert(t[k] == s[k]);
                }
            }
        } else {
            assert(!is_space(s[s.len() - 1]));
            if s.len() >= 2 && !is_space(s[s.len() - 2]) && before.len() > 0 {
                let grown = before.last().push(s.last());
                assert(is_token(before[before.len() - 1]));
                assert forall|k: int| 0 <= k < grown.len() implies !is_space(
                    #[trigger] grown[k],
                ) by {
                    if k < grown.len() - 1 {
                        assert(grown[k] == before.last()[k]);
                    }
                }
                assert forall|k: int| 0 <= k < tokens(s).len() implies is_token(
                    #[trigger] tokens(s)[k],
                ) by {
                    if k < before.len() - 1 {
                        assert(tokens(s)[k] == before[k]);
                    }
                }
            } else {
                assert(is_token(seq![s.last()]));
                assert forall|k: int| 0 <= k < tokens(s).len() implies is_token(
                    #[trigger] tokens(s)[k],
                ) by {
                    if k < before.len() {
                        assert(tokens(s)[k] == before[k]);
                    }
                }
            }
        }
    }
}

/// Start and end of each token of the characters `v`.
pub fn token_ranges(v: &Vec<char>) -> (ranges: Vec<(usize, usize)>)
    ensures
        ranges.len() == tokens(v@).len(),
        forall|k: int|
            0 <= k < ranges.len() ==> {
                &&& (#[trigger] ranges[k]).0 <= ranges[k].1 <= v.len()
                &&& v@.subrange(ranges[k].0 as int, ranges[k].1 as int) == tokens(v@)[k]
            },
{
    let n: usize = v.len();
    let mut ranges: Vec<(usize, usize)> = Vec::new();
    let mut i: usize = 0;
    while i < n
        invariant
            n == v.len(),
            i <= n,
            ranges.len() == tokens(v@.take(i as int)).len(),
            forall|k: int|
                0 <= k < ranges.len() ==> {
                    &&& (#[trigger] ranges[k]).0 <= ranges[k].1 <= i
                    &&& v@.subrange(ranges[k].0 as int, ranges[k].1 as int) == tokens(
                        v@.take(i as int),
                    )[k]
                },
            i > 0 && !is_space(v[i - 1]) ==> ranges.len() > 0 && ranges[ranges.len() - 1].1 == i,
        decreases n - i,
    {
        let c: char = v[i];
        let ghost before = tokens(v@.take(i as int));
        proof {
            assert(v@.take(i + 1).drop_last() =~= v@.take(i as int));
            assert(v@.take(i + 1).last() == c);
            if i > 0 {
                assert(v@.take(i + 1)[i - 1] == v[i - 1]);
            }
        }
        if !is_whitespace(c) {
            if i > 0 && !is_whitespace(v[i - 1]) {
                let last: usize = ranges.len() - 1;
                let start: usize = ranges[last].0;
                ranges.set(last, (start, i + 1));
                proof {
                    assert(v@.subrange(start as int, i + 1) =~= before.last().push(c));
                }
            } else {
                ranges.push((i, i + 1));
                proof {
                    assert(v@.subrange(i as int, i + 1) =~= seq![c]);
                }
            }
        }
        i = i + 1;
    }
    proof {
        assert(v@.take(n as int) =~= v@);
    }
    ranges
}

/// The tokens of `line`, as `str::split_whitespace` yields them.
pub fn split_whitespace(line: &str) -> (parts: Vec<String>)
    ensures
        parts.len() == tokens(line@).len(),
        forall|k: int| 0 <= k < parts.len() ==> (#[trigger] parts[k])@ == tokens(line@)[k],
{
    let v: Vec<char> = chars_of(line);
    let ranges: Vec<(usize, usize)> = token_ranges(&v);
    let mut parts: Vec<String> = Vec::new();
    let mut k: usize = 0;
    while k < ranges.len()
        invariant
            v@ == line@,
            k <= ranges.len(),
            ranges.len() == tokens(v@).len(),
            forall|j: int|
                0 <= j < ranges.len() ==> {
                    &&& (#[trigger] ranges[j]).0 <= ranges[j].1 <= v.len()
                    &&& v@.subrange(ranges[j].0 as int, ranges[j].1 as int) == tokens(v@)[j]
                },
            parts.len() == k,
            forall|j: int| 0 <= j < k ==> (#[trigger] parts[j])@ == tokens(line@)[j],
        decreases ranges.len() - k,
    {
        let (start, end) = ranges[k];
        parts.push(String::from_str(line.substring_char(start, end)));
        k = k + 1;
    }
    parts
}

/// `s` without the white space at its end.
pub open spec fn trim_end(s: Seq<char>) -> Seq<char>
    decreases s.len(),
{
    if s.len() > 0 && is_space(s.last()) {
        trim_end(s.drop_last())
    } else {
        s
    }
}

/// `s` without the white space at its start.
pub open spec fn trim_start(s: Seq<char>) -> Seq<char>
    decreases s.len(),
{
    if s.len() > 0 && is_space(s.first()) {
        trim_start(s.drop_first())
    } else {
        s
    }
}

/// `s` without the white space at either end.
pub open spec fn trimmed(s: Seq<char>) -> Seq<char> {
    trim_start(trim_end(s))
}

/// A trimmed text neither starts nor ends in white space, and trimming it
/// again changes nothing.
pub proof fn lemma_trimmed(s: Seq<char>)
    ensures
        trimmed(s).len() > 0 ==> !is_space(trimmed(s).first()) && !is_space(trimmed(s).last()),
        trimmed(s).len() <= s.len(),
        trimmed(trimmed(s)) == trimmed(s),
{
    lemma_trim_end(s);
    lemma_trim_start(trim_end(s));
    let t = trimmed(s);
    lemma_trim_end(t);
    lemma_trim_start(t);
}

proof fn lemma_trim_end(s: Seq<char>)
    ensures
        trim_end(s).len() <= s.len(),
        trim_end(s) == s.take(trim_end(s).len() as int),
        trim_end(s).len() > 0 ==> !is_space(trim_end(s).last()),
        s.len() > 0 && !is_space(s.last()) ==> trim_end(s) == s,
        s.len() == 0 ==> trim_end(s) == s,
    decreases s.len(),
{
    if s.len() > 0 && is_space(s.last()) {
        lemma_trim_end(s.drop_last());
        let n = trim_end(s).len() as int;
        assert(s.drop_last().take(n) =~= s.take(n));
    } else {
        assert(s.take(s.len() as int) =~= s);
    }
}

proof fn lemma_trim_start(s: Seq<char>)
    ensures
        trim_start(s).len() <= s.len(),
        trim_start(s) == s.skip(s.len() - trim_start(s).len()),
        trim_start(s).len() > 0 ==> !is_space(trim_start(s).first()),
        s.len() > 0 && !is_space(s.first()) ==> trim_start(s) == s,
        s.len() == 0 ==> trim_start(s) == s,
    decreases s.len(),
{
    if s.len() > 0 && is_space(s.first()) {
        lemma_trim_start(s.drop_first());
        let n = trim_start(s).len() as int;
        assert(s.drop_first().skip(s.len() - 1 - n) =~= s.skip(s.len() - n));
    } else {
        assert(s.skip(0) =~= s);
    }
}

/// Where the trimmed part of `v` starts and ends.
pub fn trim_range(v: &Vec<char>) -> (r: (usize, usize))
    ensures
        r.0 <= r.1 <= v.len(),
        v@.subrange(r.0 as int, r.1 as int) == trimmed(v@),
{
    let mut end: usize = v.len();
    proof {
        assert(v@.take(end as int) =~= v@);
    }
    while end > 0 && is_whitespace(v[end - 1])
        invariant
            end <= v.len(),
            trim_end(v@) == trim_end(v@.take(end as int)),
        decreases end,
    {
        proof {
            assert(v@.take(end as int).drop_last() =~= v@.take(end - 1));
        }
        end = end - 1;
    }
    let mut start: usize = 0;
    while start < end && is_whitespace(v[start])
        invariant
            start <= end <= v.len(),
            trim_start(v@.take(end as int)) == trim_start(v@.subrange(start as int, end as int)),
        decreases end - start,
    {
        proof {
            assert(v@.subrange(start as int, end as int).drop_first() =~= v@.subrange(
                start + 1,
                end as int,
            ));
        }
        start = start + 1;
    }
    proof {
        assert(v@.take(end as int) =~= v@.subrange(0, end as int));
    }
    (start, end)
}

/// `line` without the white space at either end, as `str::trim` gives it.
pub fn trim(line: &str) -> (r: String)
    ensures
        r@ == trimmed(line@),
{
    let v: Vec<char> = chars_of(line);
    let (start, end) = trim_range(&v);
    String::from_str(line.substring_char(start, end))
}

/// Whether `pattern` stands in `s` at index `at`.
pub open spec fn occurs_at(s: Seq<char>, pattern: Seq<char>, at: int) -> bool {
    0 <= at && at + pattern.len() <= s.len() && s.subrange(at, at + pattern.len()) == pattern
}

/// Whether `pattern` stands somewhere in `s`.
pub open spec fn contains_text(s: Seq<char>, pattern: Seq<char>) -> bool {
    exists|at: int| occurs_at(s, pattern, at)
}

/// Whether `s` begins with `pattern`.
pub open spec fn starts_with_text(s: Seq<char>, pattern: Seq<char>) -> bool {
    occurs_at(s, pattern, 0)
}

pub fn matches_at(v: &Vec<char>, pattern: &Vec<char>, at: usize) -> (r: bool)
    ensures
        r == occurs_at(v@, pattern@, at as int),
{
    let n: usize = v.len();
    let m: usize = pattern.len();
    if at > n || m > n - at {
        return false;
    }
    let mut k: usize = 0;
    while k < m
        invariant
            n == v.len(),
            m == pattern.len(),
            at + m <= n,
            k <= m,
            forall|j: int| 0 <= j < k ==> v[at + j] == pattern[j],
        decreases m - k,
    {
        if v[at + k] != pattern[k] {
            proof {
                assert(v@.subrange(at as int, at + m)[k as int] == v[at + k]);
            }
            return false;
        }
        k = k + 1;
    }
    proof {
        assert(v@.subrange(at as int, at + m) =~= pattern@);
    }
    true
}

pub fn starts_with(v: &Vec<char>, pattern: &Vec<char>) -> (r: bool)
    ensures
        r == starts_with_text(v@, pattern@),
{
    matches_at(v, pattern, 0)
}

pub fn contains(v: &Vec<char>, pattern: &Vec<char>) -> (r: bool)
    ensures
        r == contains_text(v@, pattern@),
{
    let n: usize = v.len();
    let m: usize = pattern.len();
    if m > n {
        return false;
    }
    let mut at: usize = 0;
    while at < n - m
        invariant
            n == v.len(),
            m == pattern.len(),
            m <= n,
            at <= n - m,
            forall|j: int| 0 <= j < at ==> !occurs_at(v@, pattern@, j),
        decreases n - m - at,
    {
        if matches_at(v, pattern, at) {
            return true;
        }
        at = at + 1;
    }
    matches_at(v, pattern, at)
}

/// Whether `c` is one of the ten decimal digits.
pub open spec fn is_digit(c: char) -> bool {
    '0' <= c <= '9'
}

/// The number that the digit `c` stands for.
pub open spec fn digit_value(c: char) -> int {
    c as u32 - 0x30
}

/// The number that the decimal digits `s` write.
pub open spec fn digits_value(s: Seq<char>) -> int
    decreases s.len(),
{
    if s.len() == 0 {
        0
    } else {
        digits_value(s.drop_last()) * 10 + digit_value(s.last())
    }
}

/// Whether `s` holds decimal digits only.
pub open spec fn all_digits(s: Seq<char>) -> bool {
    forall|k: int| 0 <= k < s.len() ==> is_digit(#[trigger] s[k])
}

/// `s` without one leading `+`.
pub open spec fn unsigned_part(s: Seq<char>) -> Seq<char> {
    if s.len() > 0 && s[0] == '+' {
        s.drop_first()
    } else {
        s
    }
}

/// The number that `s` writes, as `u32::from_str` reads it: one or more
/// decimal digits, with or without a `+` before them, and a value that a `u32`
/// holds.
pub open spec fn parsed_u32(s: Seq<char>) -> Option<u32> {
    let digits = unsigned_part(s);
    if digits.len() > 0 && all_digits(digits) && digits_value(digits) <= u32::MAX {
        Some(digits_value(digits) as u32)
    } else {
        None
    }
}

pub proof fn lemma_digits_value_grows(s: Seq<char>, n: int)
    requires
        all_digits(s),
        0 <= n <= s.len(),
    ensures
        0 <= digits_value(s.take(n)) <= digits_value(s),
    decreases s.len() - n,
{
    if n == s.len() {
        assert(s.take(n) =~= s);
        lemma_digits_value_nonnegative(s);
    } else {
        lemma_digits_value_grows(s, n + 1);
        assert(s.take(n + 1).drop_last() =~= s.take(n));
        assert(is_digit(s[n]));
        assert(s.take(n + 1).last() == s[n]);
        lemma_digits_value_nonnegative(s.take(n));
    }
}

pub proof fn lemma_digits_value_nonnegative(s: Seq<char>)
    requires
        all_digits(s),
    ensures
        digits_value(s) >= 0,
    decreases s.len(),
{
    if s.len() > 0 {
        assert(is_digit(s.last()));
        assert forall|k: int| 0 <= k < s.drop_last().len() implies is_digit(
            #[trigger] s.drop_last()[k],
        ) by {
            assert(s.drop_last()[k] == s[k]);
        }
        lemma_digits_value_nonnegative(s.drop_last());
    }
}

/// Reads a `u32` from the characters `v[start..end]`.
pub fn parse_u32(v: &Vec<char>, start: usize, end: usize) -> (r: Option<u32>)
    requires
        start <= end <= v.len(),
    ensures
        r == parsed_u32(v@.subrange(start as int, end as int)),
{
    let ghost s = v@.subrange(start as int, end as int);
    let mut from: usize = start;
    if from < end && v[from] == '+' {
        from = from + 1;
    }
    let ghost digits = v@.subrange(from as int, end as int);
    proof {
        assert(digits =~= unsigned_part(s));
    }
    if from == end {
        return None;
    }
    let mut value: u64 = 0;
    let mut i: usize = from;
    while i < end
        invariant
            start <= from <= i <= end <= v.len(),
            s == v@.subrange(start as int, end as int),
            digits == v@.subrange(from as int, end as int),
            digits == unsigned_part(s),
            digits.len() > 0,
            all_digits(digits.take(i - from)),
            value == digits_value(digits.take(i - from)),
            value <= u32::MAX,
        decreases end - i,
    {
        let c: char = v[i];
        proof {
            assert(digits[i - from] == c);
            assert(digits.take(i - from + 1).drop_last() =~= digits.take(i - from));
            assert(digits.take(i - from + 1).last() == c);
        }
        if c < '0' || c > '9' {
            proof {
                assert(!is_digit(digits[i - from]));
            }
            return None;
        }
        let d: u64 = (c as u32 - 0x30) as u64;
        value = value * 10 + d;
        proof {
            assert forall|k: int| 0 <= k < digits.take(i - from + 1).len() implies is_digit(
                #[trigger] digits.take(i - from + 1)[k],
            ) by {
                if k < i - from {
                    assert(digits.take(i - from)[k] == digits[k]);
                }
            }
        }
        if value > 0xFFFF_FFFF {
            proof {
                if all_digits(digits) {
                    lemma_digits_value_grows(digits, i - from + 1);
                }
            }
            return None;
        }
        i = i + 1;
    }
    proof {
        assert(digits.take(end - from) =~= digits);
    }
    Some(value as u32)
}

/// The decimal digit for `d`.
pub open spec fn digit_char(d: int) -> char {
    if d == 0 {
        '0'
    } else if d == 1 {
        '1'
    } else if d == 2 {
        '2'
    } else if d == 3 {
        '3'
    } else if d == 4 {
        '4'
    } else if d == 5 {
        '5'
    } else if d == 6 {
        '6'
    } else if d == 7 {
        '7'
    } else if d == 8 {
        '8'
    } else {
        '9'
    }
}

/// `n` written in decimal, without leading zeros.
pub open spec fn decimal(n: nat) -> Seq<char>
    decreases n,
{
    if n < 10 {
        seq![digit_char(n as int)]
    } else {
        decimal(n / 10).push(digit_char((n % 10) as int))
    }
}

/// The one-character text of the digit `d`.
pub fn digit_text(d: u32) -> (r: &'static str)
    requires
        d < 10,
    ensures
        r@ == seq![digit_char(d as int)],
{
    proof {
        reveal_strlit("0");
        reveal_strlit("1");
        reveal_strlit("2");
        reveal_strlit("3");
        reveal_strlit("4");
        reveal_strlit("5");
        reveal_strlit("6");
        reveal_strlit("7");
        reveal_strlit("8");
        reveal_strlit("9");
    }
    let r: &'static str = if d == 0 {
        "0"
    } else if d == 1 {
        "1"
    } else if d == 2 {
        "2"
    } else if d == 3 {
        "3"
    } else if d == 4 {
        "4"
    } else if d == 5 {
        "5"
    } else if d == 6 {
        "6"
    } else if d == 7 {
        "7"
    } else if d == 8 {
        "8"
    } else {
        "9"
    };
    assert(r@ =~= seq![digit_char(d as int)]);
    r
}

/// Appends `n` in decimal to `out`.
pub fn push_decimal(out: &mut String, n: u32)
    ensures
        final(out)@ == old(out)@ + decimal(n as nat),
    decreases n,
{
    if n >= 10 {
        push_decimal(out, n / 10);
    }
    out.append(digit_text(n % 10));
    proof {
        if n >= 10 {
            assert(old(out)@ + decimal((n / 10) as nat) + seq![digit_char((n % 10) as int)]
                =~= old(out)@ + decimal(n as nat));
        } else {
            assert(old(out)@ + seq![digit_char((n % 10) as int)] =~= old(out)@ + decimal(
                n as nat,
            ));
        }
    }
}

/// The characters `v[start..end]`.
pub fn slice_of(v: &Vec<char>, start: usize, end: usize) -> (part: Vec<char>)
    requires
        start <= end <= v.len(),
    ensures
        part@ == v@.subrange(start as int, end as int),
{
    let mut part: Vec<char> = Vec::new();
    let mut i: usize = start;
    while i < end
        invariant
            start <= i <= end <= v.len(),
            part@ == v@.subrange(start as int, i as int),
        decreases end - i,
    {
        part.push(v[i]);
        proof {
            assert(v@.subrange(start as int, i as int).push(v[i as int]) =~= v@.subrange(
                start as int,
                i + 1,
            ));
        }
        i = i + 1;
    }
    part
}

/// Whether `v[start..end]` is the text `pattern`.
pub fn range_is(v: &Vec<char>, start: usize, end: usize, pattern: &Vec<char>) -> (r: bool)
    requires
        start <= end <= v.len(),
    ensures
        r == (v@.subrange(start as int, end as int) == pattern@),
{
    if end - start != pattern.len() {
        return false;
    }
    matches_at(v, pattern, start)
}

/// Whether two texts are the same.
pub fn same_text(a: &Vec<char>, b: &Vec<char>) -> (r: bool)
    ensures
        r == (a@ == b@),
{
    proof {
        assert(a@.subrange(0, a@.len() as int) =~= a@);
    }
    range_is(a, 0, a.len(), b)
}

/// The texts of `strings`.
pub open spec fn texts_of(strings: Seq<String>) -> Seq<Seq<char>> {
    Seq::new(strings.len(), |k: int| strings[k]@)
}

} // verus!
