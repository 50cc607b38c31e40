//! A pair of numbers written as `WIDTH,HEIGHT`.

use vstd::prelude::*;
use vstd::string::StrSliceExecFns;

verus! {

/// Two numbers, as they are given for the size of a grid.
#[derive(Debug, Clone, Copy, PartialEq, Eq)]
pub struct TwoNumbers(pub u32, pub u32);

/// Why a text is not a pair of numbers.
#[derive(Debug, Clone, Copy, PartialEq, Eq)]
pub enum TwoNumbersError {
    /// The text does not hold exactly one comma.
    Separator,
    /// What stands before the comma is not a number.
    First,
    /// What stands after the comma is not a number.
    Second,
}

/// White space: the characters that Unicode lists as such.
pub open spec fn is_space(c: char) -> bool {
    ||| '\u{9}' <= c <= '\u{d}'
    ||| c == ' '
    ||| c == '\u{85}'
    ||| c == '\u{a0}'
    ||| c == '\u{1680}'
    ||| '\u{2000}' <= c <= '\u{200a}'
    ||| c == '\u{2028}'
    ||| c == '\u{2029}'
    ||| c == '\u{202f}'
    ||| c == '\u{205f}'
    ||| c == '\u{3000}'
}

/// `s` without the white space at its start.
pub open spec fn skip_front(s: Seq<char>) -> Seq<char>
    decreases s.len(),
{
    if s.len() > 0 && is_space(s[0]) {
        skip_front(s.drop_first())
    } else {
        s
    }
}

/// `s` without the white space at its end.
pub open spec fn skip_back(s: Seq<char>) -> Seq<char>
    decreases s.len(),
{
    if s.len() > 0 && is_space(s.last()) {
        skip_back(s.drop_last())
    } else {
        s
    }
}

/// `s` without the white space at its start and at its end.
pub open spec fn trimmed(s: Seq<char>) -> Seq<char> {
    skip_back(skip_front(s))
}

/// Every character is one of the digits `0` to `9`.
pub open spec fn all_digits(s: Seq<char>) -> bool {
    forall|i: int| 0 <= i < s.len() ==> '0' <= #[trigger] s[i] <= '9'
}

/// The number that the digits write in base ten.
pub open spec fn decimal(s: Seq<char>) -> int
    decreases s.len(),
{
    if s.len() == 0 {
        0
    } else {
        decimal(s.drop_last()) * 10 + (s.last() as int - '0' as int)
    }
}

/// The number that `s` writes: one or more digits, after a plus sign or
/// not, that stay within 32 bits. `None` for any other text.
pub open spec fn number(s: Seq<char>) -> Option<u32> {
    let digits = if s.len() > 0 && s[0] == '+' {
        s.drop_first()
    } else {
        s
    };
    if digits.len() > 0 && all_digits(digits) && decimal(digits) <= u32::MAX {
        Some(decimal(digits) as u32)
    } else {
        None
    }
}

/// The number of commas among the first `n` characters.
pub open spec fn commas(s: Seq<char>, n: nat) -> nat
    decreases n,
{
    if n == 0 {
        0
    } else {
        commas(s, (n - 1) as nat) + (if s[n - 1] == ',' {
            1nat
        } else {
            0nat
        })
    }
}

/// The place of the first comma among the first `n` characters; `n` where
/// there is none.
pub open spec fn first_comma(s: Seq<char>, n: nat) -> int
    decreases n,
{
    if n == 0 {
        0
    } else {
        let before = first_comma(s, (n - 1) as nat);
        if before < n - 1 {
            before
        } else if s[n - 1] == ',' {
            n - 1
        } else {
            n as int
        }
    }
}

/// What `s` means as a pair of numbers: the text must hold exactly one
/// comma, and a number, with or without white space around it, on either
/// side of it.
pub open spec fn parsed(s: Seq<char>) -> Result<TwoNumbers, TwoNumbersError> {
    if commas(s, s.len()) != 1 {
        Err(TwoNumbersError::Separator)
    } else {
        let at = first_comma(s, s.len());
        match number(trimmed(s.subrange(0, at))) {
            None => Err(TwoNumbersError::First),
            Some(first) => match number(trimmed(s.subrange(at + 1, s.len() as int))) {
                None => Err(TwoNumbersError::Second),
                Some(second) => Ok(TwoNumbers(first, second)),
            },
        }
    }
}

/// Where there is a comma, the first one stands before the end.
pub proof fn lemma_first_comma(s: Seq<char>, n: nat)
    requires
        n <= s.len(),
    ensures
        0 <= first_comma(s, n) <= n,
        commas(s, n) > 0 ==> first_comma(s, n) < n,
        first_comma(s, n) < n ==> s[first_comma(s, n)] == ',',
    decreases n,
{
    if n > 0 {
        lemma_first_comma(s, (n - 1) as nat);
    }
}

/// Tests whether `c` is white space.
fn is_whitespace(c: char) -> (b: bool)
    ensures
        b == is_space(c),
{
    ('\u{9}' <= c && c <= '\u{d}') || c == ' ' || c == '\u{85}' || c == '\u{a0}' || c
        == '\u{1680}' || ('\u{2000}' <= c && c <= '\u{200a}') || c == '\u{2028}' || c
        == '\u{2029}' || c == '\u{202f}' || c == '\u{205f}' || c == '\u{3000}'
}

/// Reads the number that stands between `from` and `to`, with or without
/// white space around it.
fn number_between(chars: &Vec<char>, from: usize, to: usize) -> (res: Option<u32>)
    requires
        from <= to <= chars.len(),
    ensures
        res == number(trimmed(chars@.subrange(from as int, to as int))),
{
    let ghost whole = chars@.subrange(from as int, to as int);
    let mut lo = from;
    while lo < to && is_whitespace(chars[lo])
        invariant
            from <= lo <= to <= chars.len(),
            skip_front(whole) == skip_front(chars@.subrange(lo as int, to as int)),
        decreases to - lo,
    {
        proof {
            let here = chars@.subrange(lo as int, to as int);
            assert(here[0] == chars@[lo as int]);
            assert(here.drop_first() =~= chars@.subrange(lo + 1, to as int));
        }
        lo += 1;
    }
    let ghost front = chars@.subrange(lo as int, to as int);
    proof {
        if lo < to {
            assert(front[0] == chars@[lo as int]);
        }
        assert(skip_front(whole) == front);
    }
    let mut hi = to;
    while hi > lo && is_whitespace(chars[hi - 1])
        invariant
            lo <= hi <= to <= chars.len(),
            skip_back(front) == skip_back(chars@.subrange(lo as int, hi as int)),
        decreases hi - lo,
    {
        proof {
            let here = chars@.subrange(lo as int, hi as int);
            assert(here.last() == chars@[hi - 1]);
            assert(here.drop_last() =~= chars@.subrange(lo as int, hi - 1));
        }
        hi -= 1;
    }
    let ghost text = chars@.subrange(lo as int, hi as int);
    proof {
        if lo < hi {
            assert(text.last() == chars@[hi - 1]);
        }
        assert(trimmed(whole) == text);
    }
    let mut start = lo;
    if lo < hi && chars[lo] == '+' {
        start = lo + 1;
    }
    let ghost digits = chars@.subrange(start as int, hi as int);
    proof {
        if lo < hi {
            assert(text[0] == chars@[lo as int]);
        }
        if start > lo {
            assert(text.drop_first() =~= digits);
        }
    }
    let ghost goal = number(trimmed(whole));
    proof {
        assert(goal == (if digits.len() > 0 && all_digits(digits) && decimal(digits)
            <= u32::MAX {
            Some(decimal(digits) as u32)
        } else {
            None
        }));
    }
    if start == hi {
        return None;
    }
    let mut value: u64 = 0;
    let mut too_big = false;
    let mut i = start;
    while i < hi
        invariant
            start <= i <= hi <= chars.len(),
            digits == chars@.subrange(start as int, hi as int),
            whole == chars@.subrange(from as int, to as int),
            goal == number(trimmed(whole)),
            goal == (if digits.len() > 0 && all_digits(digits) && decimal(digits) <= u32::MAX {
                Some(decimal(digits) as u32)
            } else {
                None
            }),
            all_digits(chars@.subrange(start as int, i as int)),
            !too_big ==> value == decimal(chars@.subrange(start as int, i as int)) && value
                <= u32::MAX,
            too_big ==> decimal(chars@.subrange(start as int, i as int)) > u32::MAX,
        decreases hi - i,
    {
        let c = chars[i];
        let ghost before = chars@.subrange(start as int, i as int);
        let ghost after = chars@.subrange(start as int, i + 1);
        proof {
            assert(after.drop_last() =~= before);
            assert(after.last() == c);
            assert(digits[i - start] == c);
        }
        if c < '0' || c > '9' {
            return None;
        }
        proof {
            assert forall|k: int| 0 <= k < after.len() implies '0' <= #[trigger] after[k]
                <= '9' by {
                if k < before.len() {
                    assert(before[k] == after[k]);
                }
            }
            assert(decimal(before) >= 0) by {
                lemma_decimal_nonnegative(before);
            }
        }
        if !too_big {
            value = value * 10 + (c as u64 - '0' as u64);
            if value > u32::MAX as u64 {
                too_big = true;
            }
        }
        i += 1;
    }
    proof {
        assert(chars@.subrange(start as int, hi as int) == digits);
    }
    if too_big {
        None
    } else {
        Some(value as u32)
    }
}

/// Digits write no negative number.
pub proof fn lemma_decimal_nonnegative(s: Seq<char>)
    requires
        all_digits(s),
    ensures
        decimal(s) >= 0,
    decreases s.len(),
{
    if s.len() > 0 {
        assert forall|k: int| 0 <= k < s.drop_last().len() implies '0' <= #[trigger] s.drop_last()[k]
            <= '9' by {
            assert(s.drop_last()[k] == s[k]);
        }
        lemma_decimal_nonnegative(s.drop_last());
        assert('0' <= s[s.len() - 1]);
    }
}

impl TwoNumbers {
    /// Reads a pair of numbers from a text such as `4,3`.
    pub fn parse(s: &str) -> (res: Result<TwoNumbers, TwoNumbersError>)
        ensures
            res == parsed(s@),
    {
        let n = s.unicode_len();
        let mut chars: Vec<char> = Vec::new();
        let mut found: usize = 0;
        let mut at: usize = 0;
        let mut i: usize = 0;
        while i < n
            invariant
                i <= n,
                n == s@.len(),
                chars@ == s@.subrange(0, i as int),
                found == commas(s@, i as nat),
                at == first_comma(s@, i as nat),
                found <= i,
                at <= i,
            decreases n - i,
        {
            let c = s.get_char(i);
            let ghost before = chars@;
            chars.push(c);
            proof {
                assert(chars@ =~= s@.subrange(0, i + 1));
            }
            if c == ',' {
                found += 1;
            }
            if at == i && c != ',' {
                at = i + 1;
            }
            i += 1;
        }
        proof {
            assert(chars@ =~= s@);
            lemma_first_comma(s@, n as nat);
        }
        if found != 1 {
            return Err(TwoNumbersError::Separator);
        }
        let first = match number_between(&chars, 0, at) {
            Some(first) => first,
            None => {
                return Err(TwoNumbersError::First);
            },
        };
        let second = match number_between(&chars, at + 1, n) {
            Some(second) => second,
            None => {
                return Err(TwoNumbersError::Second);
            },
        };
        Ok(TwoNumbers(first, second))
    }
}

impl TwoNumbersError {
    /// What went wrong, in words.
    pub fn message(&self) -> (text: String)
        ensures
            text@ == (match self {
                TwoNumbersError::Separator => "Expected two numbers separated by a comma"@,
                TwoNumbersError::First => "Invalid number for first value"@,
                TwoNumbersError::Second => "Invalid number for second value"@,
            }),
    {
        match self {
            TwoNumbersError::Separator => "Expected two numbers separated by a comma".to_owned(),
            TwoNumbersError::First => "Invalid number for first value".to_owned(),
            TwoNumbersError::Second => "Invalid number for second value".to_owned(),
        }
    }
}

} // verus!
