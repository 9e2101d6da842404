//! Character sequences: the conversions between `String` and `Vec<char>`, the character
//! classes the grammar is built on, and integer literals in both directions.
use vstd::prelude::*;
use vstd::std_specs::iter::IteratorSpec;

verus! {

/// Whether a character beyond ASCII carries the Unicode `White_Space` property, as
/// `char::is_whitespace` reports it.
pub uninterp spec fn unicode_white_space(c: char) -> bool;

/// Whether a character beyond ASCII is alphabetic or numeric in Unicode's sense, as
/// `char::is_alphanumeric` reports it.
pub uninterp spec fn unicode_alphanumeric(c: char) -> bool;

/// The ASCII white space characters: tab, line feed, vertical tab, form feed, carriage
/// return and space.
pub open spec fn is_ascii_whitespace(c: char) -> bool {
    (0x09 <= c as u32 && c as u32 <= 0x0d) || c == ' '
}

/// The ASCII letters and digits.
pub open spec fn is_ascii_alphanumeric(c: char) -> bool {
    ('0' <= c && c <= '9') || ('a' <= c && c <= 'z') || ('A' <= c && c <= 'Z')
}

/// Whether `c` is white space: one of six characters in ASCII, and beyond ASCII what
/// Unicode says.
pub open spec fn white_space(c: char) -> bool {
    if (c as u32) < 0x80 {
        is_ascii_whitespace(c)
    } else {
        unicode_white_space(c)
    }
}

/// Whether `c` is a letter or a digit: in ASCII the usual ones, and beyond ASCII what
/// Unicode says.
pub open spec fn alphanumeric(c: char) -> bool {
    if (c as u32) < 0x80 {
        is_ascii_alphanumeric(c)
    } else {
        unicode_alphanumeric(c)
    }
}

/// `char::is_whitespace` of std. In ASCII, std names the characters itself: the space
/// and the five from tab to carriage return. Beyond ASCII it looks the character up in
/// the Unicode tables, and that result is named by [`unicode_white_space`].
pub assume_specification[ char::is_whitespace ](c: char) -> (r: bool)
    ensures
        r == white_space(c),
        (c as u32) >= 0x80 ==> r == unicode_white_space(c),
;

/// `char::is_alphanumeric` of std. In ASCII, std names the characters itself: the
/// letters and the digits. Beyond ASCII it looks the character up in the Unicode tables,
/// and that result is named by [`unicode_alphanumeric`].
pub assume_specification[ char::is_alphanumeric ](c: char) -> (r: bool)
    ensures
        r == alphanumeric(c),
        (c as u32) >= 0x80 ==> r == unicode_alphanumeric(c),
;

/// `String::push` of std: appends one character.
pub assume_specification[ String::push ](s: &mut String, c: char)
    ensures
        final(s)@ == old(s)@.push(c),
;

/// The characters of `s`, in order.
pub fn to_chars(s: &str) -> (v: Vec<char>)
    ensures
        v@ == s@,
{
    let mut v: Vec<char> = Vec::new();
    let mut it = s.chars();
    loop
        invariant
            v@ + it.remaining() == s@,
        ensures
            v@ == s@,
        decreases s@.len() - v@.len(),
    {
        match it.next() {
            Some(c) => {
                v.push(c);
            },
            None => {
                break ;
            },
        }
    }
    v
}

/// Appends `chars[start..end]` to `out`.
pub fn push_range(out: &mut String, chars: &Vec<char>, start: usize, end: usize)
    requires
        start <= end <= chars.len(),
    ensures
        final(out)@ == old(out)@ + chars@.subrange(start as int, end as int),
{
    let mut i: usize = start;
    while i < end
        invariant
            start <= i <= end <= chars.len(),
            out@ == old(out)@ + chars@.subrange(start as int, i as int),
        decreases end - i,
    {
        out.push(chars[i]);
        i += 1;
    }
}

/// The string that holds `chars[start..end]`.
pub fn string_of_range(chars: &Vec<char>, start: usize, end: usize) -> (s: String)
    requires
        start <= end <= chars.len(),
    ensures
        s@ == chars@.subrange(start as int, end as int),
{
    let mut s = String::new();
    push_range(&mut s, chars, start, end);
    s
}

/// The string that holds `chars`.
pub fn string_of(chars: &Vec<char>) -> (s: String)
    ensures
        s@ == chars@,
{
    let s = string_of_range(chars, 0, chars.len());
    assert(chars@.subrange(0, chars@.len() as int) == chars@);
    s
}

/// Appends the characters of `s` to `out`.
pub fn push_text(out: &mut String, s: &str)
    ensures
        final(out)@ == old(out)@ + s@,
{
    let mut it = s.chars();
    let ghost mut done: Seq<char> = Seq::empty();
    loop
        invariant
            done + it.remaining() == s@,
            out@ == old(out)@ + done,
        ensures
            out@ == old(out)@ + s@,
        decreases s@.len() - done.len(),
    {
        match it.next() {
            Some(c) => {
                out.push(c);
                proof {
                    done = done.push(c);
                }
            },
            None => {
                break ;
            },
        }
    }
}

/// Whether two texts hold the same characters.
pub fn text_eq(a: &str, b: &str) -> (r: bool)
    ensures
        r == (a@ == b@),
{
    let mut ia = a.chars();
    let mut ib = b.chars();
    let ghost mut n: int = 0;
    loop
        invariant
            0 <= n <= a@.len(),
            n <= b@.len(),
            a@.take(n) == b@.take(n),
            ia.remaining() == a@.skip(n),
            ib.remaining() == b@.skip(n),
        decreases a@.len() - n,
    {
        let ca = ia.next();
        let cb = ib.next();
        match (ca, cb) {
            (Some(x), Some(y)) => {
                if x != y {
                    assert(a@[n] != b@[n]);
                    return false;
                }
                proof {
                    assert(a@.take(n + 1) == a@.take(n).push(a@[n]));
                    assert(b@.take(n + 1) == b@.take(n).push(b@[n]));
                    assert(a@.skip(n).drop_first() == a@.skip(n + 1));
                    assert(b@.skip(n).drop_first() == b@.skip(n + 1));
                    n = n + 1;
                }
            },
            (None, None) => {
                assert(a@.take(n) == a@);
                assert(b@.take(n) == b@);
                return true;
            },
            _ => {
                assert(a@.len() != b@.len());
                return false;
            },
        }
    }
}

/// Whether `s` begins with `prefix` at position `at`.
pub open spec fn has_at(s: Seq<char>, at: int, pattern: Seq<char>) -> bool {
    0 <= at && at + pattern.len() <= s.len() && s.subrange(at, at + pattern.len()) == pattern
}

/// Whether `chars` holds `pattern` at position `at`.
pub fn matches_at(chars: &Vec<char>, at: usize, pattern: &Vec<char>) -> (r: bool)
    ensures
        r == has_at(chars@, at as int, pattern@),
{
    if at > chars.len() || pattern.len() > chars.len() - at {
        return false;
    }
    let mut i: usize = 0;
    while i < pattern.len()
        invariant
            i <= pattern.len(),
            at + pattern.len() <= chars.len(),
            chars@.subrange(at as int, at + i) == pattern@.take(i as int),
        decreases pattern.len() - i,
    {
        if chars[at + i] != pattern[i] {
            assert(chars@.subrange(at as int, at + pattern.len())[i as int] != pattern@[i as int]);
            return false;
        }
        assert(chars@.subrange(at as int, at + i + 1) == chars@.subrange(at as int, at + i).push(
            chars@[at + i],
        ));
        assert(pattern@.take(i + 1) == pattern@.take(i as int).push(pattern@[i as int]));
        i += 1;
    }
    assert(pattern@.take(pattern@.len() as int) == pattern@);
    true
}

/// Whether `s` begins with `prefix`.
pub fn starts_with(s: &str, prefix: &str) -> (r: bool)
    ensures
        r == has_at(s@, 0, prefix@),
{
    let chars = to_chars(s);
    let pattern = to_chars(prefix);
    matches_at(&chars, 0, &pattern)
}

/// Whether `s` ends with `suffix`.
pub fn ends_with(s: &str, suffix: &str) -> (r: bool)
    ensures
        r == has_at(s@, s@.len() - suffix@.len(), suffix@),
{
    let chars = to_chars(s);
    let pattern = to_chars(suffix);
    if pattern.len() > chars.len() {
        return false;
    }
    matches_at(&chars, chars.len() - pattern.len(), &pattern)
}

/// Where the first `c` stands in `s` at or behind `from`, or the length of `s`.
pub open spec fn index_of(s: Seq<char>, c: char, from: int) -> int
    decreases s.len() - from,
{
    if from < 0 || from >= s.len() {
        s.len() as int
    } else if s[from] == c {
        from
    } else {
        index_of(s, c, from + 1)
    }
}

/// `index_of` lies between where the search begins and the end of the text.
pub proof fn lemma_index_of(s: Seq<char>, c: char, from: int)
    requires
        0 <= from <= s.len(),
    ensures
        from <= index_of(s, c, from) <= s.len(),
    decreases s.len() - from,
{
    if from < s.len() && s[from] != c {
        lemma_index_of(s, c, from + 1);
    }
}

/// Whether `pattern` occurs somewhere in `s`.
pub open spec fn occurs_in(s: Seq<char>, pattern: Seq<char>) -> bool {
    exists|at: int| has_at(s, at, pattern)
}

/// Whether `pattern` occurs somewhere in `s`.
pub fn contains(s: &str, pattern: &str) -> (r: bool)
    ensures
        r == occurs_in(s@, pattern@),
{
    let chars = to_chars(s);
    let pat = to_chars(pattern);
    let mut at: usize = 0;
    loop
        invariant
            chars@ == s@,
            pat@ == pattern@,
            at <= chars.len(),
            forall|k: int| 0 <= k < at ==> !has_at(s@, k, pattern@),
        decreases chars.len() - at,
    {
        if matches_at(&chars, at, &pat) {
            return true;
        }
        if at == chars.len() {
            return false;
        }
        at += 1;
    }
}

} // verus!
verus! {

/// The value of `c` as a digit, for digits `0-9`, `a-z` and `A-Z`.
pub open spec fn digit_of(c: char) -> Option<nat> {
    if '0' <= c && c <= '9' {
        Some((c as u32 - '0' as u32) as nat)
    } else if 'a' <= c && c <= 'z' {
        Some((c as u32 - 'a' as u32 + 10) as nat)
    } else if 'A' <= c && c <= 'Z' {
        Some((c as u32 - 'A' as u32 + 10) as nat)
    } else {
        None
    }
}

/// The value of `c` as a digit in the given radix, if it is one.
pub open spec fn digit_value(c: char, radix: nat) -> Option<nat> {
    match digit_of(c) {
        Some(d) => if d < radix {
            Some(d)
        } else {
            None
        },
        None => None,
    }
}

/// The number that a non-empty run of digits denotes, most significant digit first.
pub open spec fn digits_value(s: Seq<char>, radix: nat) -> Option<nat>
    decreases s.len(),
{
    if s.len() == 0 {
        None
    } else {
        match digit_value(s.last(), radix) {
            None => None,
            Some(d) => if s.len() == 1 {
                Some(d)
            } else {
                match digits_value(s.drop_last(), radix) {
                    None => None,
                    Some(v) => Some(v * radix + d),
                }
            },
        }
    }
}

/// The integer that `s` denotes: an optional `+`, or `-` where `signed`, then digits.
pub open spec fn integer_value(s: Seq<char>, radix: nat, signed: bool) -> Option<int> {
    if s.len() > 0 && s[0] == '+' {
        match digits_value(s.drop_first(), radix) {
            Some(v) => Some(v as int),
            None => None,
        }
    } else if signed && s.len() > 0 && s[0] == '-' {
        match digits_value(s.drop_first(), radix) {
            Some(v) => Some(-(v as int)),
            None => None,
        }
    } else {
        match digits_value(s, radix) {
            Some(v) => Some(v as int),
            None => None,
        }
    }
}

/// The integer that `s` denotes, if it lies between `min` and `max`.
pub open spec fn bounded_integer(s: Seq<char>, radix: nat, signed: bool, min: int, max: int) -> Option<int> {
    match integer_value(s, radix, signed) {
        Some(v) => if min <= v <= max {
            Some(v)
        } else {
            None
        },
        None => None,
    }
}

/// What `str::parse::<usize>` accepts: an optional `+` and decimal digits, no larger than `usize::MAX`.
pub open spec fn usize_value(s: Seq<char>) -> Option<int> {
    bounded_integer(s, 10, false, 0, usize::MAX as int)
}

/// What `i64::from_str_radix` accepts: an optional sign and digits of the radix, within the range of `i64`.
pub open spec fn i64_value(s: Seq<char>, radix: nat) -> Option<int> {
    bounded_integer(s, radix, true, i64::MIN as int, i64::MAX as int)
}

/// What `isize::from_str_radix` accepts.
pub open spec fn isize_value(s: Seq<char>, radix: nat) -> Option<int> {
    bounded_integer(s, radix, true, isize::MIN as int, isize::MAX as int)
}

/// A run of digits that has a value has one for each of its non-empty prefixes, and none
/// of those is larger.
pub proof fn lemma_digits_prefix(s: Seq<char>, radix: nat, k: int)
    requires
        1 <= k <= s.len(),
        radix >= 1,
        digits_value(s, radix) is Some,
    ensures
        digits_value(s.take(k), radix) is Some,
        digits_value(s.take(k), radix)->0 <= digits_value(s, radix)->0,
    decreases s.len(),
{
    if k == s.len() {
        assert(s.take(k) == s);
    } else {
        assert(s.drop_last().take(k) == s.take(k));
        lemma_digits_prefix(s.drop_last(), radix, k);
        let v = digits_value(s.drop_last(), radix)->0;
        assert(v <= v * radix) by (nonlinear_arith)
            requires
                radix >= 1,
        ;
    }
}

/// The digit that `c` stands for in the given radix.
pub fn digit_in_radix(c: char, radix: u32) -> (r: Option<u32>)
    requires
        2 <= radix <= 36,
    ensures
        match r {
            Some(d) => digit_value(c, radix as nat) == Some(d as nat),
            None => digit_value(c, radix as nat).is_none(),
        },
{
    let d: u32 = if '0' <= c && c <= '9' {
        c as u32 - '0' as u32
    } else if 'a' <= c && c <= 'z' {
        c as u32 - 'a' as u32 + 10
    } else if 'A' <= c && c <= 'Z' {
        c as u32 - 'A' as u32 + 10
    } else {
        return None;
    };
    if d < radix {
        Some(d)
    } else {
        None
    }
}

/// Reads `chars[start..]` as an integer between `min` and `max`.
pub fn parse_integer(chars: &Vec<char>, start: usize, radix: u32, signed: bool, min: i128, max: i128) -> (r:
    Option<i128>)
    requires
        start <= chars.len(),
        2 <= radix <= 36,
        -0x1_0000_0000_0000_0000 <= min <= 0 <= max <= 0x1_0000_0000_0000_0000,
    ensures
        match r {
            Some(v) => bounded_integer(chars@.skip(start as int), radix as nat, signed, min as int, max as int)
                == Some(v as int),
            None => bounded_integer(chars@.skip(start as int), radix as nat, signed, min as int, max as int).is_none(),
        },
{
    let ghost s = chars@.skip(start as int);
    let mut i: usize = start;
    let mut negative = false;
    if i < chars.len() && chars[i] == '+' {
        i += 1;
    } else if signed && i < chars.len() && chars[i] == '-' {
        negative = true;
        i += 1;
    }
    let first: usize = i;
    let ghost digits = chars@.skip(first as int);
    assert(first > start ==> digits == s.drop_first());
    assert(first == start ==> digits == s);
    if first == chars.len() {
        return None;
    }
    let limit: i128 = if negative {
        -min
    } else {
        max
    };
    let mut acc: i128 = 0;
    assert(integer_value(s, radix as nat, signed) == match digits_value(digits, radix as nat) {
        Some(v) => Some(if negative { -(v as int) } else { v as int }),
        None => None,
    });
    while i < chars.len()
        invariant
            start <= first <= i <= chars.len(),
            first < chars.len(),
            digits == chars@.skip(first as int),
            s == chars@.skip(start as int),
            limit == if negative { -min } else { max as int },
            integer_value(s, radix as nat, signed) == match digits_value(digits, radix as nat) {
                Some(v) => Some(if negative { -(v as int) } else { v as int }),
                None => None,
            },
            2 <= radix <= 36,
            0 <= limit <= 0x1_0000_0000_0000_0000,
            0 <= acc <= limit,
            i > first ==> digits_value(digits.take(i - first), radix as nat) == Some(acc as nat),
            i == first ==> acc == 0,
        decreases chars.len() - i,
    {
        let d = match digit_in_radix(chars[i], radix) {
            Some(d) => d,
            None => {
                proof {
                    if digits_value(digits, radix as nat) is Some {
                        lemma_digits_prefix(digits, radix as nat, i - first + 1);
                        assert(digits.take(i - first + 1).last() == chars@[i as int]);
                    }
                }
                return None;
            },
        };
        assert(acc * radix + d <= 0x1_0000_0000_0000_0000 * 36 + 35) by (nonlinear_arith)
            requires
                0 <= acc <= 0x1_0000_0000_0000_0000,
                2 <= radix <= 36,
                d < radix,
        ;
        let next: i128 = acc * (radix as i128) + (d as i128);
        proof {
            let p = digits.take(i - first + 1);
            assert(p.last() == chars@[i as int]);
            assert(p.drop_last() == digits.take(i - first));
            assert(digits_value(p, radix as nat) == Some(next as nat));
        }
        if next > limit {
            proof {
                if digits_value(digits, radix as nat) is Some {
                    lemma_digits_prefix(digits, radix as nat, i - first + 1);
                }
            }
            return None;
        }
        acc = next;
        i += 1;
    }
    assert(digits.take(digits.len() as int) == digits);
    if negative {
        Some(-acc)
    } else {
        Some(acc)
    }
}

/// Reads `s` as `str::parse::<usize>` does.
pub fn parse_usize(s: &str) -> (r: Option<usize>)
    ensures
        match r {
            Some(v) => usize_value(s@) == Some(v as int),
            None => usize_value(s@).is_none(),
        },
{
    let chars = to_chars(s);
    assert(chars@.skip(0) == s@);
    match parse_integer(&chars, 0, 10, false, 0, usize::MAX as i128) {
        Some(v) => Some(v as usize),
        None => None,
    }
}

/// The character that stands for the digit `d`, lower case above nine.
pub open spec fn digit_char(d: nat) -> char {
    if d == 0 { '0' } else if d == 1 { '1' } else if d == 2 { '2' } else if d == 3 { '3' }
    else if d == 4 { '4' } else if d == 5 { '5' } else if d == 6 { '6' } else if d == 7 { '7' }
    else if d == 8 { '8' } else if d == 9 { '9' } else if d == 10 { 'a' } else if d == 11 { 'b' }
    else if d == 12 { 'c' } else if d == 13 { 'd' } else if d == 14 { 'e' } else { 'f' }
}

/// The character that stands for the digit `d`.
pub fn digit_to_char(d: u8) -> (c: char)
    requires
        d < 16,
    ensures
        c == digit_char(d as nat),
{
    if d == 0 { '0' } else if d == 1 { '1' } else if d == 2 { '2' } else if d == 3 { '3' }
    else if d == 4 { '4' } else if d == 5 { '5' } else if d == 6 { '6' } else if d == 7 { '7' }
    else if d == 8 { '8' } else if d == 9 { '9' } else if d == 10 { 'a' } else if d == 11 { 'b' }
    else if d == 12 { 'c' } else if d == 13 { 'd' } else if d == 14 { 'e' } else { 'f' }
}

/// The decimal digits of `n`, without leading zeros.
pub open spec fn decimal_digits(n: nat) -> Seq<char>
    decreases n,
{
    if n < 10 {
        seq![digit_char(n)]
    } else {
        decimal_digits(n / 10).push(digit_char(n % 10))
    }
}

/// The decimal text of `v`, with a leading `-` below zero.
pub open spec fn decimal(v: int) -> Seq<char> {
    if v < 0 {
        seq!['-'] + decimal_digits((-v) as nat)
    } else {
        decimal_digits(v as nat)
    }
}

/// Appends the decimal digits of `n` to `out`.
pub fn push_decimal_digits(out: &mut String, n: u64)
    ensures
        final(out)@ == old(out)@ + decimal_digits(n as nat),
    decreases n,
{
    if n >= 10 {
        push_decimal_digits(out, n / 10);
    }
    out.push(digit_to_char((n % 10) as u8));
    proof {
        if n >= 10 {
            assert(old(out)@ + decimal_digits(n as nat) == (old(out)@ + decimal_digits((n / 10) as nat)).push(
                digit_char((n % 10) as nat),
            ));
        } else {
            assert(old(out)@ + decimal_digits(n as nat) == old(out)@.push(digit_char(n as nat)));
        }
    }
}

/// The decimal text of `n`.
pub fn decimal_of_usize(n: usize) -> (s: String)
    ensures
        s@ == decimal(n as int),
{
    let mut s = String::new();
    push_decimal_digits(&mut s, n as u64);
    assert(Seq::<char>::empty() + decimal_digits(n as nat) == decimal_digits(n as nat));
    s
}

/// The decimal text of `v`.
pub fn decimal_of_i64(v: i64) -> (s: String)
    ensures
        s@ == decimal(v as int),
{
    let mut s = String::new();
    if v < 0 {
        s.push('-');
        let magnitude: u64 = ((-(v + 1)) as u64) + 1;
        push_decimal_digits(&mut s, magnitude);
        assert(Seq::<char>::empty().push('-') == seq!['-']);
    } else {
        push_decimal_digits(&mut s, v as u64);
        assert(Seq::<char>::empty() + decimal_digits(v as nat) == decimal_digits(v as nat));
    }
    s
}

} // verus!
