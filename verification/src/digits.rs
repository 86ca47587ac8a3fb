//! Decimal text for unsigned numbers: the canonical digit string of a
//! number, the value of a digit string, and the executable conversions
//! that the save format relies on.

use vstd::prelude::*;

verus! {

/// The ten decimal digit characters.
pub open spec fn is_digit(c: char) -> bool {
    c == '0' || c == '1' || c == '2' || c == '3' || c == '4' || c == '5' || c == '6' || c == '7'
        || c == '8' || c == '9'
}

/// The digit character for a value below ten.
pub open spec fn digit_char(d: nat) -> char {
    if d == 0 {
        '0'
    } else if d == 1 {
        '1'
    } else if d == 2 {
        '2'
    } else if d == 3 {
        '3'
    } else if d == 4 {
        '4'
    } else if d == 5 {
        '5'
    } else if d == 6 {
        '6'
    } else if d == 7 {
        '7'
    } else if d == 8 {
        '8'
    } else {
        '9'
    }
}

/// The value of a digit character.
pub open spec fn char_digit(c: char) -> nat {
    if c == '0' {
        0
    } else if c == '1' {
        1
    } else if c == '2' {
        2
    } else if c == '3' {
        3
    } else if c == '4' {
        4
    } else if c == '5' {
        5
    } else if c == '6' {
        6
    } else if c == '7' {
        7
    } else if c == '8' {
        8
    } else {
        9
    }
}

/// The canonical decimal text of `n`: no sign, no leading zero (except
/// for the single digit of zero itself).
pub open spec fn nat_digits(n: nat) -> Seq<char>
    decreases n,
{
    if n < 10 {
        seq![digit_char(n)]
    } else {
        nat_digits(n / 10).push(digit_char(n % 10))
    }
}

/// Every character is a decimal digit.
pub open spec fn is_digit_seq(s: Seq<char>) -> bool {
    forall|i: int| 0 <= i < s.len() ==> is_digit(#[trigger] s[i])
}

/// The number a digit string denotes, most significant digit first.
pub open spec fn digit_seq_val(s: Seq<char>) -> nat
    decreases s.len(),
{
    if s.len() == 0 {
        0
    } else {
        digit_seq_val(s.drop_last()) * 10 + char_digit(s.last())
    }
}

/// What a line of the save format denotes as a number: a non-empty string
/// of decimal digits whose value fits a machine word, and nothing else.
pub open spec fn line_nat(s: Seq<char>) -> Option<nat> {
    if s.len() > 0 && is_digit_seq(s) && digit_seq_val(s) <= usize::MAX {
        Some(digit_seq_val(s))
    } else {
        None
    }
}

/// The canonical decimal text of `n` is a non-empty digit string that
/// denotes `n` — and so contains no line break.
pub proof fn lemma_nat_digits_wf(n: nat)
    ensures
        nat_digits(n).len() >= 1,
        is_digit_seq(nat_digits(n)),
        digit_seq_val(nat_digits(n)) == n,
    decreases n,
{
    if n < 10 {
        let d = nat_digits(n);
        assert(d.drop_last() =~= Seq::<char>::empty());
        assert(digit_seq_val(Seq::<char>::empty()) == 0);
        assert(d.last() == digit_char(n));
        assert(digit_seq_val(d) == char_digit(digit_char(n)));
    } else {
        lemma_nat_digits_wf(n / 10);
        let d = nat_digits(n);
        assert(d.drop_last() =~= nat_digits(n / 10));
        assert(d.last() == digit_char(n % 10));
        vstd::arithmetic::div_mod::lemma_fundamental_div_mod(n as int, 10);
        assert(digit_seq_val(d) == (n / 10) * 10 + n % 10);
    }
}

/// The value of a digit string never shrinks as digits are appended.
proof fn lemma_digit_seq_val_monotone(s: Seq<char>, i: int)
    requires
        0 <= i <= s.len(),
    ensures
        digit_seq_val(s.take(i)) <= digit_seq_val(s),
    decreases s.len(),
{
    if i == s.len() {
        assert(s.take(i) =~= s);
    } else {
        assert(s.drop_last().take(i) =~= s.take(i));
        lemma_digit_seq_val_monotone(s.drop_last(), i);
        assert(digit_seq_val(s.drop_last()) * 10 >= digit_seq_val(s.drop_last()));
    }
}

/// Writes a digit below ten at the end of `s`.
fn append_digit(s: &mut String, d: usize)
    requires
        d < 10,
    ensures
        final(s)@ == old(s)@.push(digit_char(d as nat)),
{
    proof {
        reveal_strlit("0");
        reveal_strlit("1");
        reveal_strlit("2");
        reveal_strlit("3");
        reveal_strlit("4");
        reveal_strlit("5");
        reveal_strlit("6");
        reveal_strlit("7");
        reveal_strlit("8");
        reveal_strlit("9");
    }
    match d {
        0 => s.append("0"),
        1 => s.append("1"),
        2 => s.append("2"),
        3 => s.append("3"),
        4 => s.append("4"),
        5 => s.append("5"),
        6 => s.append("6"),
        7 => s.append("7"),
        8 => s.append("8"),
        _ => s.append("9"),
    }
    proof {
        assert(s@ =~= old(s)@.push(digit_char(d as nat)));
    }
}

/// The canonical decimal text of a number, as a string.
pub fn usize_to_string(n: usize) -> (r: String)
    ensures
        r@ == nat_digits(n as nat),
    decreases n,
{
    if n < 10 {
        let mut s = String::new();
        append_digit(&mut s, n);
        proof {
            assert(s@ =~= nat_digits(n as nat));
        }
        s
    } else {
        let mut s = usize_to_string(n / 10);
        append_digit(&mut s, n % 10);
        s
    }
}

/// Reads a line of the save format as a number: accepts exactly the
/// non-empty digit strings whose value fits a machine word, and returns
/// that value.
pub fn parse_usize(s: &str) -> (r: Option<usize>)
    ensures
        r is Some <==> line_nat(s@) is Some,
        r matches Some(v) ==> line_nat(s@) == Some(v as nat),
{
    let len = s.unicode_len();
    if len == 0 {
        return None;
    }
    let mut acc: usize = 0;
    let mut i: usize = 0;
    proof {
        assert(s@.take(0) =~= Seq::<char>::empty());
    }
    while i < len
        invariant
            i <= len,
            len == s@.len(),
            len > 0,
            is_digit_seq(s@.take(i as int)),
            acc as nat == digit_seq_val(s@.take(i as int)),
        decreases len - i,
    {
        let c = s.get_char(i);
        let d: usize = match c {
            '0' => 0,
            '1' => 1,
            '2' => 2,
            '3' => 3,
            '4' => 4,
            '5' => 5,
            '6' => 6,
            '7' => 7,
            '8' => 8,
            '9' => 9,
            _ => {
                proof {
                    assert(!is_digit(s@[i as int]));
                }
                return None;
            },
        };
        proof {
            assert(s@.take(i + 1).drop_last() =~= s@.take(i as int));
            assert(s@.take(i + 1).last() == s@[i as int]);
            assert(char_digit(s@[i as int]) == d as nat);
            assert(digit_seq_val(s@.take(i + 1)) == (acc as nat) * 10 + d as nat);
        }
        if acc > (usize::MAX - d) / 10 {
            proof {
                vstd::arithmetic::div_mod::lemma_fundamental_div_mod(
                    (usize::MAX - d) as int,
                    10,
                );
                assert((acc as int) * 10 >= ((usize::MAX - d) as int / 10 + 1) * 10);
                assert(digit_seq_val(s@.take(i + 1)) > usize::MAX);
                lemma_digit_seq_val_monotone(s@, i + 1);
            }
            return None;
        }
        proof {
            vstd::arithmetic::div_mod::lemma_fundamental_div_mod((usize::MAX - d) as int, 10);
            assert((acc as int) * 10 <= ((usize::MAX - d) as int / 10) * 10);
        }
        acc = acc * 10 + d;
        i = i + 1;
    }
    proof {
        assert(s@.take(len as int) =~= s@);
    }
    Some(acc)
}

} // verus!
