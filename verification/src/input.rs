//! Parsing the textual move format used by interactive front ends.
//!
//! A move is entered as two numbers separated by one comma, for example
//! `1, 2`: the row index, a comma, and the column index. Each part may
//! carry surrounding ASCII whitespace and an optional leading plus sign,
//! exactly as machine-word parsing accepts; anything else is rejected
//! with a message saying what was wrong.

use vstd::prelude::*;
use vstd::string::StrSliceExecFns;

verus! {

/// An ASCII whitespace character, as trimming removes it.
pub open spec fn is_space(c: char) -> bool {
    c == ' ' || c == '\t' || c == '\n' || c == '\r' || c == '\u{b}' || c == '\u{c}'
}

/// A decimal digit.
pub open spec fn is_digit(c: char) -> bool {
    48 <= (c as u32) && (c as u32) <= 57
}

/// How many commas `s` holds at or after position `i`.
pub open spec fn comma_count_from(s: Seq<char>, i: int) -> int
    decreases s.len() - i,
{
    if i < 0 || i >= s.len() {
        0
    } else {
        (if s[i] == ',' {
            1int
        } else {
            0
        }) + comma_count_from(s, i + 1)
    }
}

/// The position of the first comma at or after `i`; the length when
/// there is none.
pub open spec fn first_comma_from(s: Seq<char>, i: int) -> int
    decreases s.len() - i,
{
    if i < 0 || i >= s.len() {
        s.len() as int
    } else if s[i] == ',' {
        i
    } else {
        first_comma_from(s, i + 1)
    }
}

/// The position after the leading whitespace run that starts at `i`.
pub open spec fn trim_front_idx(s: Seq<char>, i: int) -> int
    decreases s.len() - i,
{
    if i < 0 || i >= s.len() {
        s.len() as int
    } else if is_space(s[i]) {
        trim_front_idx(s, i + 1)
    } else {
        i
    }
}

/// The position before the trailing whitespace run that ends at `j`.
pub open spec fn trim_back_idx(s: Seq<char>, j: int) -> int
    decreases j,
{
    if j <= 0 || j > s.len() {
        0
    } else if is_space(s[j - 1]) {
        trim_back_idx(s, j - 1)
    } else {
        j
    }
}

/// `s` without leading and trailing ASCII whitespace.
pub open spec fn trimmed(s: Seq<char>) -> Seq<char> {
    let lo = trim_front_idx(s, 0);
    let hi = trim_back_idx(s, s.len() as int);
    if lo >= hi {
        Seq::empty()
    } else {
        s.subrange(lo, hi)
    }
}

/// The number denoted by a digit sequence, read left to right.
pub open spec fn digits_value(s: Seq<char>) -> int
    decreases s.len(),
{
    if s.len() == 0 {
        0
    } else {
        digits_value(s.drop_last()) * 10 + ((s.last() as u32) - 48)
    }
}

/// The digits of a number text: everything after an optional leading
/// plus sign.
pub open spec fn number_digits(s: Seq<char>) -> Seq<char> {
    if s.len() > 0 && s[0] == '+' {
        s.drop_first()
    } else {
        s
    }
}

/// `s` is a machine-word number: an optional leading plus sign, then at
/// least one decimal digit, denoting a value that fits.
pub open spec fn is_usize_text(s: Seq<char>) -> bool {
    &&& number_digits(s).len() > 0
    &&& forall|i: int| 0 <= i < number_digits(s).len() ==> is_digit(#[trigger] number_digits(s)[i])
    &&& digits_value(number_digits(s)) <= usize::MAX
}

/// The value a machine-word number denotes.
pub open spec fn usize_text_value(s: Seq<char>) -> int {
    digits_value(number_digits(s))
}

/// Digit sequences denote non-negative values, and extending one only
/// grows the value: every prefix denotes at most the whole.
proof fn lemma_digits_value_mono(s: Seq<char>, j: int)
    requires
        0 <= j <= s.len(),
    ensures
        (forall|i: int| 0 <= i < s.len() ==> is_digit(#[trigger] s[i])) ==> digits_value(s.take(j))
            <= digits_value(s) && digits_value(s) >= 0,
    decreases s.len() - j,
{
    if j < s.len() {
        lemma_digits_value_mono(s, j + 1);
        if forall|i: int| 0 <= i < s.len() ==> is_digit(#[trigger] s[i]) {
            assert(s.take(j + 1).drop_last() =~= s.take(j));
            assert(digits_value(s.take(j + 1)) == digits_value(s.take(j)) * 10 + ((s[j] as u32)
                - 48));
            lemma_digits_nonneg(s.take(j));
        }
    } else {
        assert(s.take(j) =~= s);
        if forall|i: int| 0 <= i < s.len() ==> is_digit(#[trigger] s[i]) {
            lemma_digits_nonneg(s);
        }
    }
}

/// A sequence of digits denotes a non-negative value.
proof fn lemma_digits_nonneg(s: Seq<char>)
    requires
        forall|i: int| 0 <= i < s.len() ==> is_digit(#[trigger] s[i]),
    ensures
        digits_value(s) >= 0,
    decreases s.len(),
{
    if s.len() > 0 {
        lemma_digits_nonneg(s.drop_last());
    }
}

/// Whether `c` is ASCII whitespace.
fn is_space_exec(c: char) -> (r: bool)
    ensures
        r == is_space(c),
{
    match c {
        ' ' | '\t' | '\n' | '\r' | '\u{b}' | '\u{c}' => true,
        _ => false,
    }
}

/// Parses the characters of `part` as a machine-word number after
/// trimming ASCII whitespace; nothing when the text is not one.
fn parse_usize_chars(part: &Vec<char>) -> (r: Option<usize>)
    ensures
        match r {
            Some(v) => is_usize_text(trimmed(part@)) && v == usize_text_value(trimmed(part@)),
            None => !is_usize_text(trimmed(part@)),
        },
{
    let s = part;
    let n = s.len();
    let mut lo: usize = 0;
    while lo < n && is_space_exec(s[lo])
        invariant
            lo <= n,
            n == s@.len(),
            trim_front_idx(s@, 0) == trim_front_idx(s@, lo as int),
        decreases n - lo,
    {
        lo = lo + 1;
    }
    let mut hi: usize = n;
    while hi > lo && is_space_exec(s[hi - 1])
        invariant
            lo <= hi <= n,
            n == s@.len(),
            trim_back_idx(s@, n as int) == trim_back_idx(s@, hi as int),
        decreases hi,
    {
        hi = hi - 1;
    }
    proof {
        assert(trim_front_idx(s@, lo as int) == if lo < n && is_space(s@[lo as int]) {
            trim_front_idx(s@, lo as int + 1)
        } else if lo < n {
            lo as int
        } else {
            n as int
        });
    }
    if lo >= hi {
        proof {
            lemma_trim_empty(s@, lo as int, hi as int);
        }
        return None;
    }
    let ghost tr = trimmed(s@);
    proof {
        assert(trim_front_idx(s@, 0) == lo);
        assert(trim_back_idx(s@, n as int) == hi);
        assert(tr =~= s@.subrange(lo as int, hi as int));
    }
    let start = if s[lo] == '+' {
        lo + 1
    } else {
        lo
    };
    proof {
        assert(number_digits(tr) =~= s@.subrange(start as int, hi as int));
    }
    if start >= hi {
        return None;
    }
    let ghost digits = number_digits(tr);
    let mut acc: usize = 0;
    let mut i = start;
    while i < hi
        invariant
            start <= i <= hi <= n,
            s@ == part@,
            n == s@.len(),
            start < hi,
            digits == s@.subrange(start as int, hi as int),
            digits == number_digits(trimmed(s@)),
            tr == trimmed(s@),
            is_usize_text(tr) ==> usize_text_value(tr) == digits_value(digits),
            digits.len() == hi - start,
            forall|q: int| 0 <= q < i - start ==> is_digit(#[trigger] digits[q]),
            acc == digits_value(digits.take(i - start)),
        decreases hi - i,
    {
        let c = s[i];
        let code = c as u32;
        if code < 48 || code > 57 {
            proof {
                assert(digits[i - start] == c);
                assert(!is_digit(digits[i - start]));
            }
            return None;
        }
        let d = (code - 48) as usize;
        proof {
            assert(digits.take(i + 1 - start).drop_last() =~= digits.take(i - start));
            assert(digits.take(i + 1 - start).last() == c);
        }
        if acc > usize::MAX / 10 {
            proof {
                assert(digits_value(digits.take(i + 1 - start)) == acc * 10 + ((c as u32) - 48));
                assert(digits_value(digits.take(i + 1 - start)) > usize::MAX);
                if forall|q: int| 0 <= q < digits.len() ==> is_digit(#[trigger] digits[q]) {
                    lemma_digits_value_mono(digits, i + 1 - start);
                    assert(digits_value(digits) > usize::MAX);
                }
            }
            return None;
        }
        acc = acc * 10;
        if d > usize::MAX - acc {
            proof {
                assert(digits_value(digits.take(i + 1 - start)) > usize::MAX);
                if forall|q: int| 0 <= q < digits.len() ==> is_digit(#[trigger] digits[q]) {
                    lemma_digits_value_mono(digits, i + 1 - start);
                    assert(digits_value(digits) > usize::MAX);
                }
            }
            return None;
        }
        acc = acc + d;
        i = i + 1;
    }
    proof {
        assert(digits.take(hi - start) =~= digits);
    }
    Some(acc)
}

/// Trimming leaves nothing exactly when the whitespace runs meet.
proof fn lemma_trim_empty(s: Seq<char>, lo: int, hi: int)
    requires
        0 <= lo <= s.len(),
        hi <= s.len(),
        lo >= hi,
        trim_front_idx(s, 0) == trim_front_idx(s, lo),
        trim_back_idx(s, s.len() as int) == trim_back_idx(s, hi),
        lo <= s.len() ==> (lo == s.len() || !is_space(s[lo])),
        hi >= 0,
    ensures
        !is_usize_text(trimmed(s)),
{
    lemma_trim_front_le(s, lo);
    lemma_trim_back_ge(s, hi);
    if trim_front_idx(s, 0) < trim_back_idx(s, s.len() as int) {
        assert(false);
    }
    assert(trimmed(s) =~= Seq::<char>::empty());
    assert(number_digits(Seq::<char>::empty()) =~= Seq::<char>::empty());
}

/// The front trim point never runs past where scanning stopped.
proof fn lemma_trim_front_le(s: Seq<char>, i: int)
    requires
        0 <= i <= s.len(),
    ensures
        i <= trim_front_idx(s, i) <= s.len(),
    decreases s.len() - i,
{
    if i < s.len() && is_space(s[i]) {
        lemma_trim_front_le(s, i + 1);
    }
}

/// The back trim point never runs past where scanning stopped.
proof fn lemma_trim_back_ge(s: Seq<char>, j: int)
    requires
        0 <= j <= s.len(),
    ensures
        0 <= trim_back_idx(s, j) <= j,
    decreases j,
{
    if j > 0 && is_space(s[j - 1]) {
        lemma_trim_back_ge(s, j - 1);
    }
}

/// Parses a move entered as `row, column`: exactly one comma, each side
/// a machine-word number with optional surrounding whitespace. Tells
/// apart a wrong shape (not exactly two comma-separated parts) from
/// parts that are not numbers.
pub fn parse_input(input: &String) -> (r: Result<(usize, usize), &'static str>)
    ensures
        ({
            let s = input@;
            let p = first_comma_from(s, 0);
            let left = trimmed(s.subrange(0, p));
            let right = trimmed(s.subrange(p + 1, s.len() as int));
            &&& comma_count_from(s, 0) != 1 ==> (r matches Err(m) && m@
                == "Number of comma separated non-negative numbers must be 2."@)
            &&& comma_count_from(s, 0) == 1 && is_usize_text(left) && is_usize_text(right) ==> r
                == Ok::<(usize, usize), &'static str>(
                (usize_text_value(left) as usize, usize_text_value(right) as usize),
            )
            &&& comma_count_from(s, 0) == 1 && !(is_usize_text(left) && is_usize_text(right))
                ==> (r matches Err(m) && m@
                == "Must enter valid non-negative numbers separated by a comma."@)
        }),
{
    let text = input.as_str();
    let n = text.unicode_len();
    let mut chars: Vec<char> = Vec::new();
    let mut i: usize = 0;
    while i < n
        invariant
            i <= n,
            n == text@.len(),
            chars@ == text@.take(i as int),
        decreases n - i,
    {
        chars.push(text.get_char(i));
        proof {
            assert(chars@ =~= text@.take(i + 1));
        }
        i = i + 1;
    }
    proof {
        assert(chars@ =~= text@);
        assert(text@ == input@);
    }
    let s = chars;
    let mut commas: usize = 0;
    let mut comma_pos: usize = n;
    let mut j: usize = 0;
    while j < n
        invariant
            j <= n,
            n == s@.len(),
            commas <= j,
            comma_count_from(s@, 0) == commas + comma_count_from(s@, j as int),
            commas == 0 ==> comma_pos == n && first_comma_from(s@, 0) == first_comma_from(
                s@,
                j as int,
            ),
            commas > 0 ==> comma_pos < j && first_comma_from(s@, 0) == comma_pos,
        decreases n - j,
    {
        if s[j] == ',' {
            if commas == 0 {
                comma_pos = j;
            }
            commas = commas + 1;
        }
        j = j + 1;
    }
    if commas != 1 {
        return Err("Number of comma separated non-negative numbers must be 2.");
    }
    let mut left_chars: Vec<char> = Vec::new();
    let mut k: usize = 0;
    while k < comma_pos
        invariant
            k <= comma_pos,
            comma_pos < n,
            n == s@.len(),
            left_chars@ == s@.subrange(0, k as int),
        decreases comma_pos - k,
    {
        left_chars.push(s[k]);
        proof {
            assert(left_chars@ =~= s@.subrange(0, k + 1));
        }
        k = k + 1;
    }
    let mut right_chars: Vec<char> = Vec::new();
    let mut q: usize = comma_pos + 1;
    while q < n
        invariant
            comma_pos + 1 <= q <= n,
            n == s@.len(),
            right_chars@ == s@.subrange(comma_pos + 1, q as int),
        decreases n - q,
    {
        right_chars.push(s[q]);
        proof {
            assert(right_chars@ =~= s@.subrange(comma_pos + 1, q + 1));
        }
        q = q + 1;
    }
    proof {
        assert(left_chars@ =~= s@.subrange(0, comma_pos as int));
        assert(right_chars@ =~= s@.subrange(comma_pos + 1, n as int));
    }
    match (parse_usize_chars(&left_chars), parse_usize_chars(&right_chars)) {
        (Some(row_index), Some(col_index)) => Ok((row_index, col_index)),
        _ => Err("Must enter valid non-negative numbers separated by a comma."),
    }
}

} // verus!
