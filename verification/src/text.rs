//! Searching and cutting strings.

use vstd::prelude::*;
use vstd::string::*;

verus! {

/// Whether `pattern` stands in `s` at position `at`.
pub open spec fn occurs_at(s: Seq<char>, pattern: Seq<char>, at: int) -> bool {
    0 <= at && at + pattern.len() <= s.len() && s.subrange(at, at + pattern.len()) == pattern
}

/// Whether `pattern` stands somewhere in `s`.
pub open spec fn occurs(s: Seq<char>, pattern: Seq<char>) -> bool {
    exists|at: int| occurs_at(s, pattern, at)
}

/// Whether `at` is the first position at which `pattern` stands in `s`.
pub open spec fn first_at(s: Seq<char>, pattern: Seq<char>, at: int) -> bool {
    occurs_at(s, pattern, at) && forall|k: int| 0 <= k < at ==> !occurs_at(s, pattern, k)
}

/// Whether `head` and `tail` are what stands before and behind the first
/// `pattern` in `s`.
pub open spec fn cut_at_first(
    s: Seq<char>,
    pattern: Seq<char>,
    head: Seq<char>,
    tail: Seq<char>,
) -> bool {
    &&& first_at(s, pattern, head.len() as int)
    &&& head == s.subrange(0, head.len() as int)
    &&& tail == s.subrange((head.len() + pattern.len()) as int, s.len() as int)
}

/// Calls `str::split_once` with a string as the delimiter. Its documentation
/// says that it splits on the first occurrence of the delimiter and returns
/// what stands before and what stands behind it, and `None` where the
/// delimiter does not occur. The contract says this of a delimiter that is not
/// empty.
#[verifier::external_body]
pub(crate) fn split_once<'a>(s: &'a str, delimiter: &str) -> (parts: Option<(&'a str, &'a str)>)
    requires
        delimiter@.len() > 0,
    ensures
        match parts {
            Some((head, tail)) => cut_at_first(s@, delimiter@, head@, tail@),
            None => !occurs(s@, delimiter@),
        },
{
    s.split_once(delimiter)
}

/// White space as `u8::is_ascii_whitespace` has it: space, tab, line feed,
/// form feed and carriage return.
pub open spec fn is_blank(c: char) -> bool {
    c == ' ' || c == '\t' || c == '\n' || c == '\x0C' || c == '\r'
}

/// `s` without the white space at its start.
pub open spec fn trim_start(s: Seq<char>) -> Seq<char>
    decreases s.len(),
{
    if s.len() > 0 && is_blank(s[0]) {
        trim_start(s.skip(1))
    } else {
        s
    }
}

/// `s` without the white space at its end.
pub open spec fn trim_end(s: Seq<char>) -> Seq<char>
    decreases s.len(),
{
    if s.len() > 0 && is_blank(s.last()) {
        trim_end(s.drop_last())
    } else {
        s
    }
}

/// `s` without the white space at its start and at its end.
pub open spec fn trimmed(s: Seq<char>) -> Seq<char> {
    trim_end(trim_start(s))
}

/// The position of the first line feed of `s` from `from` on, or the length
/// of `s` where there is none.
pub open spec fn line_end(s: Seq<char>, from: int) -> int
    decreases s.len() - from,
{
    if from < 0 || from >= s.len() {
        s.len() as int
    } else if s[from] == '\n' {
        from
    } else {
        line_end(s, from + 1)
    }
}

/// `line` without a carriage return at its end.
pub open spec fn without_return(line: Seq<char>) -> Seq<char> {
    if line.len() > 0 && line.last() == '\r' {
        line.drop_last()
    } else {
        line
    }
}

/// The lines of `s` from `from` on. A line ends with a line feed, or with a
/// carriage return and a line feed, which are not part of it; the last line
/// ends where `s` ends, and there is no line behind a last line feed.
pub open spec fn lines_from(s: Seq<char>, from: int) -> Seq<Seq<char>>
    decreases s.len() - from,
{
    if from < 0 || from >= s.len() {
        Seq::empty()
    } else {
        let end = line_end(s, from);
        if end < from || end >= s.len() {
            seq![s.subrange(from, s.len() as int)]
        } else {
            seq![without_return(s.subrange(from, end))] + lines_from(s, end + 1)
        }
    }
}

/// The lines of `s`.
pub open spec fn lines_of(s: Seq<char>) -> Seq<Seq<char>> {
    lines_from(s, 0)
}

/// The views of string slices.
pub open spec fn slices(parts: Seq<&str>) -> Seq<Seq<char>> {
    parts.map_values(|part: &str| part@)
}

/// Calls `str::trim_ascii`. Its documentation says that it returns the slice
/// with leading and trailing ASCII white space removed, white space being what
/// `u8::is_ascii_whitespace` accepts.
#[verifier::external_body]
pub(crate) fn trim_ascii<'a>(s: &'a str) -> (rest: &'a str)
    ensures
        rest@ == trimmed(s@),
{
    s.trim_ascii()
}

/// Calls `str::lines` and collects what it yields. Its documentation says that
/// lines are split at line feeds, or at a carriage return followed by a line
/// feed, that the line terminator is not part of a line, that a carriage
/// return without a line feed behind it stays, and that a final line ending
/// is optional.
#[verifier::external_body]
pub(crate) fn lines<'a>(s: &'a str) -> (out: Vec<&'a str>)
    ensures
        slices(out@) == lines_of(s@),
{
    s.lines().collect()
}

/// Whether two strings hold the same characters.
pub fn same_text(a: &str, b: &str) -> (same: bool)
    ensures
        same == (a@ == b@),
{
    let left = String::from_str(a);
    let right = String::from_str(b);
    left == right
}

/// Whether `c` is one of the digits `0` to `9`.
pub open spec fn is_digit(c: char) -> bool {
    '0' <= c && c <= '9'
}

/// Whether `s` is made of digits only.
pub open spec fn all_digits(s: Seq<char>) -> bool {
    forall|i: int| 0 <= i < s.len() ==> is_digit(#[trigger] s[i])
}

/// The number that the digits of `s` write.
pub open spec fn digits_value(s: Seq<char>) -> int
    decreases s.len(),
{
    if s.len() == 0 {
        0
    } else {
        digits_value(s.drop_last()) * 10 + (s.last() as int - '0' as int)
    }
}

/// The position of the first `c` of `s`, or the length of `s` where there is
/// none.
pub open spec fn first_position(s: Seq<char>, c: char) -> int
    decreases s.len(),
{
    if s.len() == 0 {
        0
    } else if s[0] == c {
        0
    } else {
        1 + first_position(s.skip(1), c)
    }
}

/// The position of the first point of `s`, or the length of `s` where there
/// is none.
pub open spec fn point_at(s: Seq<char>) -> int {
    first_position(s, '.')
}

/// What stands before the first `c` of `s`: all of `s` where there is none.
pub open spec fn before_first(s: Seq<char>, c: char) -> Seq<char> {
    s.take(first_position(s, c))
}

/// What stands behind the first `c` of `s`: nothing where there is none.
pub open spec fn behind_first(s: Seq<char>, c: char) -> Seq<char> {
    if first_position(s, c) < s.len() {
        s.skip(first_position(s, c) + 1)
    } else {
        Seq::empty()
    }
}

/// The digit of `fraction` at `place`, or 0 where it has none there.
pub open spec fn fraction_digit(fraction: Seq<char>, place: int) -> int {
    if 0 <= place < fraction.len() {
        fraction[place] as int - '0' as int
    } else {
        0
    }
}

/// The thousandths that a decimal number writes, rounded to the nearest: the
/// number is digits, then optionally a point and digits, with a digit
/// somewhere. `None` for any other text and for a number of more than
/// `u32::MAX` thousandths.
pub open spec fn thousandths_of(s: Seq<char>) -> Option<int> {
    let point = point_at(s);
    let whole = s.take(point);
    let fraction = if point < s.len() {
        s.skip(point + 1)
    } else {
        Seq::empty()
    };
    let value = digits_value(whole) * 1000 + fraction_digit(fraction, 0) * 100 + fraction_digit(
        fraction,
        1,
    ) * 10 + fraction_digit(fraction, 2) + if fraction_digit(fraction, 3) >= 5 {
        1int
    } else {
        0int
    };
    if all_digits(whole) && all_digits(fraction) && whole.len() + fraction.len() > 0 && value
        <= u32::MAX {
        Some(value)
    } else {
        None
    }
}

/// `point_at` is the position of the first point, or the length where there
/// is none.
pub proof fn lemma_point_at(s: Seq<char>)
    ensures
        0 <= point_at(s) <= s.len(),
        forall|k: int| 0 <= k < point_at(s) ==> #[trigger] s[k] != '.',
        point_at(s) < s.len() ==> s[point_at(s)] == '.',
{
    lemma_first_position(s, '.');
}

/// `first_position` is the position of the first `c`, or the length where
/// there is none.
pub proof fn lemma_first_position(s: Seq<char>, c: char)
    ensures
        0 <= first_position(s, c) <= s.len(),
        forall|k: int| 0 <= k < first_position(s, c) ==> #[trigger] s[k] != c,
        first_position(s, c) < s.len() ==> s[first_position(s, c)] == c,
    decreases s.len(),
{
    if s.len() > 0 && s[0] != c {
        lemma_first_position(s.skip(1), c);
        assert forall|k: int| 0 <= k < first_position(s, c) implies #[trigger] s[k] != c by {
            if k > 0 {
                assert(s.skip(1)[k - 1] == s[k]);
            }
        }
    }
}

/// A cut at the first occurrence of a pattern of one character is the cut at
/// the first position of that character.
pub proof fn lemma_cut_at_char(s: Seq<char>, c: char, head: Seq<char>, tail: Seq<char>)
    requires
        cut_at_first(s, seq![c], head, tail),
    ensures
        first_position(s, c) < s.len(),
        head == before_first(s, c),
        tail == behind_first(s, c),
{
    lemma_first_position(s, c);
    let at = head.len() as int;
    let found = first_position(s, c);
    assert(s.subrange(at, at + 1)[0] == c);
    assert(s[at] == c);
    if found < at {
        assert(s.subrange(found, found + 1) =~= seq![c]);
        assert(occurs_at(s, seq![c], found));
    }
    assert(found == at);
    assert(head =~= s.take(found));
    assert(tail =~= s.skip(found + 1));
}

/// Without the character there is no cut.
pub proof fn lemma_no_cut_at_char(s: Seq<char>, c: char)
    requires
        !occurs(s, seq![c]),
    ensures
        first_position(s, c) == s.len(),
{
    lemma_first_position(s, c);
    let found = first_position(s, c);
    if found < s.len() {
        assert(s.subrange(found, found + 1) =~= seq![c]);
        assert(occurs_at(s, seq![c], found));
    }
}

/// Cuts `s` at its first `c`: what stands before it and what stands behind
/// it. Without a `c` all of `s` stands before.
pub fn cut_at<'a>(s: &'a str, c: &str) -> (parts: (&'a str, &'a str))
    requires
        c@.len() == 1,
    ensures
        parts.0@ == before_first(s@, c@[0]),
        parts.1@ == behind_first(s@, c@[0]),
{
    proof {
        assert(c@ =~= seq![c@[0]]);
        reveal_strlit("");
    }
    match split_once(s, c) {
        Some(parts) => {
            proof {
                lemma_cut_at_char(s@, c@[0], parts.0@, parts.1@);
            }
            parts
        },
        None => {
            proof {
                lemma_no_cut_at_char(s@, c@[0]);
                assert(before_first(s@, c@[0]) =~= s@);
            }
            (s, "")
        },
    }
}

/// The value of a digit.
fn digit_of(c: char) -> (value: u64)
    requires
        is_digit(c),
    ensures
        value == c as int - '0' as int,
        value <= 9,
{
    (c as u32 - '0' as u32) as u64
}

/// Reads a decimal number as thousandths, rounded to the nearest.
pub fn parse_thousandths(text: &str) -> (value: Option<u32>)
    ensures
        match value {
            Some(value) => thousandths_of(text@) == Some(value as int),
            None => thousandths_of(text@) is None,
        },
{
    let n = text.unicode_len();
    let ghost s = text@;
    proof {
        lemma_point_at(s);
    }
    let mut whole: u64 = 0;
    let mut big = false;
    let mut i: usize = 0;
    let mut at_point = false;
    while i < n && !at_point
        invariant
            s == text@,
            n == s.len(),
            0 <= i <= n,
            forall|k: int| 0 <= k < i ==> #[trigger] s[k] != '.' && is_digit(s[k]),
            at_point ==> i < n && s[i as int] == '.',
            !big ==> whole == digits_value(s.take(i as int)) && whole <= 4_294_967,
            big ==> digits_value(s.take(i as int)) > 4_294_967,
        decreases n - i + if at_point { 0int } else { 1int },
    {
        let c = text.get_char(i);
        if c == '.' {
            at_point = true;
        } else {
            if !(c >= '0' && c <= '9') {
                proof {
                    lemma_point_at(s);
                    if point_at(s) < i {
                        assert(s[point_at(s)] != '.');
                    }
                    assert(point_at(s) > i);
                    assert(s.take(point_at(s))[i as int] == c);
                }
                return None;
            }
            let digit = digit_of(c);
            proof {
                assert(s.take(i as int + 1).drop_last() =~= s.take(i as int));
                assert(s.take(i as int + 1).last() == c);
            }
            if !big {
                whole = whole * 10 + digit;
                if whole > 4_294_967 {
                    big = true;
                }
            }
            i += 1;
        }
    }
    let point = i;
    proof {
        lemma_point_at(s);
        if point_at(s) < point {
            assert(s[point_at(s)] != '.');
        }
        assert(point_at(s) == point);
        assert(all_digits(s.take(point as int))) by {
            assert forall|k: int| 0 <= k < point implies is_digit(#[trigger] s.take(point as int)[k]) by {
                assert(s[k] != '.' && is_digit(s[k]));
            }
        }
    }
    let ghost fraction = if point < n {
        s.skip(point as int + 1)
    } else {
        Seq::<char>::empty()
    };
    let mut tenths: u64 = 0;
    let mut hundredths: u64 = 0;
    let mut thousandths: u64 = 0;
    let mut beyond: u64 = 0;
    let mut places: usize = 0;
    if point < n {
        let first = point + 1;
        let mut j: usize = first;
        while j < n
            invariant
                s == text@,
                n == s.len(),
                first == point + 1,
                first <= j <= n,
                point_at(s) == point,
                fraction == s.skip(point as int + 1),
                forall|k: int| 0 <= k < j - first ==> is_digit(#[trigger] fraction[k]),
                tenths == if j - first > 0 { fraction_digit(fraction, 0) } else { 0 },
                hundredths == if j - first > 1 { fraction_digit(fraction, 1) } else { 0 },
                thousandths == if j - first > 2 { fraction_digit(fraction, 2) } else { 0 },
                beyond == if j - first > 3 { fraction_digit(fraction, 3) } else { 0 },
                tenths <= 9 && hundredths <= 9 && thousandths <= 9 && beyond <= 9,
            decreases n - j,
        {
            let c = text.get_char(j);
            proof {
                assert(fraction[j - first] == c);
            }
            if !(c >= '0' && c <= '9') {
                return None;
            }
            let digit = digit_of(c);
            let place = j - first;
            if place == 0 {
                tenths = digit;
            } else if place == 1 {
                hundredths = digit;
            } else if place == 2 {
                thousandths = digit;
            } else if place == 3 {
                beyond = digit;
            }
            j += 1;
        }
        places = n - first;
    }
    proof {
        assert(all_digits(fraction));
        assert(fraction.len() == places);
    }
    if point + places == 0 || big {
        proof {
            if big {
                assert(digits_value(s.take(point as int)) * 1000 > u32::MAX);
            }
        }
        return None;
    }
    let total: u64 = whole * 1000 + tenths * 100 + hundredths * 10 + thousandths + if beyond >= 5 {
        1
    } else {
        0
    };
    if total > 0xFFFF_FFFF {
        None
    } else {
        Some(total as u32)
    }
}

} // verus!
