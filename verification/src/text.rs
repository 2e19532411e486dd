//! Decimal text: how an index is written into a name and read back from one.

use vstd::prelude::*;
use vstd::string::*;

verus! {

/// The texts of the strings in `strings`.
pub open spec fn texts(strings: Seq<String>) -> Seq<Seq<char>> {
    strings.map_values(|s: String| s@)
}

/// The character that stands for the digit `d`, for `0 <= d <= 9`.
pub open spec fn digit_char(d: int) -> char {
    (d + 48) as u8 as char
}

/// Whether `c` is one of the ten characters `'0'` to `'9'`.
pub open spec fn is_digit(c: char) -> bool {
    '0' <= c && c <= '9'
}

/// The number that the digit character `c` stands for.
pub open spec fn digit_value(c: char) -> int {
    (c as int) - 48
}

/// Whether `s` holds digit characters only.
pub open spec fn all_digits(s: Seq<char>) -> bool {
    forall|i: int| 0 <= i < s.len() ==> is_digit(#[trigger] s[i])
}

/// The decimal digits of `n`, the most significant first, without leading zeros.
pub open spec fn digits(n: nat) -> Seq<char>
    decreases n,
{
    if n < 10 {
        seq![digit_char(n as int)]
    } else {
        digits(n / 10).push(digit_char((n % 10) as int))
    }
}

/// The decimal text of `n`: a minus sign for a negative number, then its digits.
pub open spec fn decimal(n: int) -> Seq<char> {
    if n < 0 {
        seq!['-'] + digits((-n) as nat)
    } else {
        digits(n as nat)
    }
}

/// `count` times the character `'0'`.
pub open spec fn zeros(count: nat) -> Seq<char> {
    Seq::new(count, |i: int| '0')
}

/// `text`, filled on the left with `'0'` up to `width` characters. A text that
/// is already that long, and any text under a width of zero or less, stays as
/// it is.
pub open spec fn zero_padded(text: Seq<char>, width: int) -> Seq<char> {
    if text.len() >= width {
        text
    } else {
        zeros((width - text.len()) as nat) + text
    }
}

/// The number that a run of digit characters stands for, leading zeros
/// allowed. The empty run stands for zero.
pub open spec fn digits_value(s: Seq<char>) -> nat
    decreases s.len(),
{
    if s.len() == 0 {
        0
    } else {
        (digits_value(s.drop_last()) * 10 + digit_value(s.last())) as nat
    }
}

/// Whether a run of digits begins with a zero that only fills it up: a `'0'`
/// with a digit after it.
pub open spec fn has_leading_zero(run: Seq<char>) -> bool {
    run.len() > 1 && run[0] == '0'
}

/// The digits of a number are digits, begin with a zero only for zero itself,
/// and stand for the number.
pub proof fn lemma_digits(n: nat)
    ensures
        digits(n).len() > 0,
        all_digits(digits(n)),
        !has_leading_zero(digits(n)),
        digits(n)[0] == '0' <==> n == 0,
        digits_value(digits(n)) == n,
    decreases n,
{
    if n < 10 {
        assert(digits(n).drop_last() =~= Seq::<char>::empty());
        assert(digits_value(digits(n).drop_last()) == 0);
    } else {
        lemma_digits(n / 10);
        assert(digits(n).drop_last() =~= digits(n / 10));
    }
}

/// Zeros in front change neither what a run of digits stands for nor that it
/// is one.
pub proof fn lemma_zeros_in_front(count: nat, run: Seq<char>)
    requires
        all_digits(run),
    ensures
        all_digits(zeros(count) + run),
        digits_value(zeros(count) + run) == digits_value(run),
    decreases run.len(),
{
    let whole = zeros(count) + run;
    if run.len() == 0 {
        assert(whole =~= zeros(count));
        lemma_zeros_value(count);
    } else {
        assert(all_digits(run.drop_last())) by {
            assert forall|i: int| 0 <= i < run.drop_last().len() implies is_digit(
                #[trigger] run.drop_last()[i],
            ) by {
                assert(is_digit(run[i]));
            }
        }
        lemma_zeros_in_front(count, run.drop_last());
        assert(whole.drop_last() =~= zeros(count) + run.drop_last());
        assert forall|i: int| 0 <= i < whole.len() implies is_digit(#[trigger] whole[i]) by {
            if i >= count {
                assert(is_digit(run[i - count]));
            }
        }
    }
}

/// A run of zeros stands for zero.
proof fn lemma_zeros_value(count: nat)
    ensures
        digits_value(zeros(count)) == 0,
    decreases count,
{
    if count > 0 {
        lemma_zeros_value((count - 1) as nat);
        assert(zeros(count).drop_last() =~= zeros((count - 1) as nat));
    }
}

/// A run of digits is the digits of the number that it stands for, with
/// zeros in front of them.
pub proof fn lemma_run_is_padded_digits(run: Seq<char>)
    requires
        run.len() > 0,
        all_digits(run),
    ensures
        digits(digits_value(run)).len() <= run.len(),
        run == zeros((run.len() - digits(digits_value(run)).len()) as nat) + digits(
            digits_value(run),
        ),
        run == zero_padded(digits(digits_value(run)), run.len() as int),
    decreases run.len(),
{
    let front = run.drop_last();
    let last = run.last();
    let value = digits_value(run);
    assert(is_digit(last));
    assert(digit_char(digit_value(last)) == last);
    if front.len() == 0 {
        assert(digits_value(front) == 0);
        assert(run =~= zeros(0) + digits(value));
    } else {
        assert(all_digits(front)) by {
            assert forall|i: int| 0 <= i < front.len() implies is_digit(#[trigger] front[i]) by {
                assert(is_digit(run[i]));
            }
        }
        lemma_run_is_padded_digits(front);
        let before = digits_value(front);
        lemma_digits(before);
        if before == 0 {
            assert(front =~= zeros(front.len()));
            assert(run =~= zeros(front.len()) + digits(value));
        } else {
            assert(value / 10 == before && value % 10 == digit_value(last));
            assert(digits(value) == digits(before).push(last));
            assert(run =~= front.push(last));
            let filled = zeros((front.len() - digits(before).len()) as nat);
            assert(front == filled + digits(before));
            assert(run =~= filled + digits(value));
        }
    }
}

/// The text of one digit.
fn digit_text(d: u32) -> (t: &'static str)
    requires
        d < 10,
    ensures
        t@ == seq![digit_char(d as int)],
{
    proof {
        reveal_strlit("0");
        reveal_strlit("1");
        reveal_strlit("2");
        reveal_strlit("3");
        reveal_strlit("4");
        reveal_strlit("5");
        reveal_strlit("6");
        reveal_strlit("7");
        reveal_strlit("8");
        reveal_strlit("9");
    }
    let t = match d {
        0 => "0",
        1 => "1",
        2 => "2",
        3 => "3",
        4 => "4",
        5 => "5",
        6 => "6",
        7 => "7",
        8 => "8",
        _ => "9",
    };
    assert(t@ =~= seq![digit_char(d as int)]);
    t
}

/// Appends the digits of `n` to `out`.
fn push_digits(out: &mut String, n: u32)
    ensures
        final(out)@ == old(out)@ + digits(n as nat),
    decreases n,
{
    if n >= 10 {
        push_digits(out, n / 10);
    }
    out.append(digit_text(n % 10));
    assert(final(out)@ =~= old(out)@ + digits(n as nat));
}

/// The decimal text of `n`.
pub fn decimal_text(n: i32) -> (text: String)
    ensures
        text@ == decimal(n as int),
{
    let mut text = String::new();
    if n < 0 {
        proof {
            reveal_strlit("-");
        }
        text.append("-");
        let magnitude: u32 = if n == i32::MIN {
            2147483648u32
        } else {
            (-n) as u32
        };
        push_digits(&mut text, magnitude);
        assert(text@ =~= decimal(n as int));
    } else {
        push_digits(&mut text, n as u32);
        assert(text@ =~= decimal(n as int));
    }
    text
}

/// `text`, filled on the left with `'0'` up to `width` characters.
pub fn zero_padded_text(text: &str, width: i32) -> (padded: String)
    ensures
        padded@ == zero_padded(text@, width as int),
{
    let len = text.unicode_len();
    let mut padded = String::new();
    if width > 0 && len < width as usize {
        let missing: usize = width as usize - len;
        let mut k: usize = 0;
        while k < missing
            invariant
                k <= missing,
                padded@ == zeros(k as nat),
            decreases missing - k,
        {
            proof {
                reveal_strlit("0");
            }
            padded.append("0");
            k += 1;
            assert(padded@ =~= zeros(k as nat));
        }
    }
    padded.append(text);
    assert(padded@ =~= zero_padded(text@, width as int));
    padded
}

/// The characters of `text`, one by one.
pub fn to_chars(text: &str) -> (chars: Vec<char>)
    ensures
        chars@ == text@,
{
    let mut chars: Vec<char> = Vec::new();
    for c in it: text.chars()
        invariant
            chars@ == text@.take(it.index() as int),
            it.seq() == text@,
    {
        chars.push(c);
    }
    chars
}

/// The number that `text` stands for when it is an optional sign, `+` or `-`,
/// and then one digit or more; `None` for any other text.
pub open spec fn signed_value(text: Seq<char>) -> Option<int> {
    let signed = text.len() > 0 && (text[0] == '-' || text[0] == '+');
    let body = if signed {
        text.drop_first()
    } else {
        text
    };
    if body.len() == 0 || !all_digits(body) {
        None
    } else if text[0] == '-' {
        Some(-(digits_value(body) as int))
    } else {
        Some(digits_value(body) as int)
    }
}

/// The index that `text` stands for: its signed value where that is a 32-bit
/// number, `None` where the text is no number or the number is out of range.
pub open spec fn parsed_index(text: Seq<char>) -> Option<i32> {
    match signed_value(text) {
        Some(v) => if i32::MIN <= v <= i32::MAX {
            Some(v as i32)
        } else {
            None
        },
        None => None,
    }
}

/// A run of digits is worth at least as much as any of its beginnings.
proof fn lemma_digits_value_grows(s: Seq<char>, k: int)
    requires
        all_digits(s),
        0 <= k <= s.len(),
    ensures
        digits_value(s.take(k)) <= digits_value(s),
    decreases s.len() - k,
{
    if k < s.len() {
        assert(s.take(k + 1).drop_last() =~= s.take(k));
        assert(is_digit(s[k]));
        lemma_digits_value_grows(s, k + 1);
    } else {
        assert(s.take(k) =~= s);
    }
}

/// Reads `text` as a 32-bit index.
pub fn parse_index(text: &str) -> (index: Option<i32>)
    ensures
        index == parsed_index(text@),
{
    let chars = to_chars(text);
    let len = chars.len();
    if len == 0 {
        return None;
    }
    let negative = chars[0] == '-';
    let start: usize = if negative || chars[0] == '+' {
        1
    } else {
        0
    };
    let ghost body = chars@.subrange(start as int, len as int);
    assert(body =~= if start == 1 {
        text@.drop_first()
    } else {
        text@
    });
    if start == len {
        return None;
    }
    assert(signed_value(text@) == if !all_digits(body) {
        None
    } else if negative {
        Some(-(digits_value(body) as int))
    } else {
        Some(digits_value(body) as int)
    });
    let mut value: i64 = 0;
    let mut k: usize = start;
    while k < len
        invariant
            start <= k <= len,
            len == chars.len(),
            body == chars@.subrange(start as int, len as int),
            signed_value(text@) == if !all_digits(body) {
                None
            } else if negative {
                Some(-(digits_value(body) as int))
            } else {
                Some(digits_value(body) as int)
            },
            all_digits(body.take(k - start)),
            value == digits_value(body.take(k - start)),
            value <= 2147483648,
        decreases len - k,
    {
        let c = chars[k];
        if c < '0' || c > '9' {
            assert(!is_digit(body[k - start]));
            return None;
        }
        let d: i64 = (c as u32 - 48) as i64;
        assert(body.take(k - start + 1).drop_last() =~= body.take(k - start));
        value = value * 10 + d;
        k += 1;
        if value > 2147483648 {
            proof {
                if all_digits(body) {
                    lemma_digits_value_grows(body, k - start);
                }
            }
            return None;
        }
    }
    assert(body.take(k - start) =~= body);
    if negative {
        Some((-value) as i32)
    } else if value == 2147483648 {
        None
    } else {
        Some(value as i32)
    }
}

} // verus!
