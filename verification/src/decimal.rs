//! Decimal integers as text: what a run of characters denotes, and how a
//! number is written out.
use vstd::prelude::*;
use vstd::string::*;

verus! {

/// Whether `c` is one of the ten ASCII digits.
pub open spec fn is_digit(c: char) -> bool {
    0x30 <= c as u32 <= 0x39
}

/// The number that the digit `c` stands for; 0 for any other character.
pub open spec fn digit_value(c: char) -> nat {
    if is_digit(c) {
        (c as u32 - 0x30) as nat
    } else {
        0
    }
}

/// Whether `s` holds digits only.
pub open spec fn all_digits(s: Seq<char>) -> bool {
    forall|i: int| 0 <= i < s.len() ==> is_digit(#[trigger] s[i])
}

/// The number that the digits of `s` denote in base ten.
pub open spec fn digits_value(s: Seq<char>) -> nat
    decreases s.len(),
{
    if s.len() == 0 {
        0
    } else {
        digits_value(s.drop_last()) * 10 + digit_value(s.last())
    }
}

/// The number written in `s`: an optional plus sign, then one or more digits.
pub open spec fn unsigned_value(s: Seq<char>) -> Option<nat> {
    let digits = if s.len() > 0 && s.first() == '+' {
        s.drop_first()
    } else {
        s
    };
    if digits.len() > 0 && all_digits(digits) {
        Some(digits_value(digits))
    } else {
        None
    }
}

/// The number written in `s`: an optional plus or minus sign, then one or
/// more digits.
pub open spec fn signed_value(s: Seq<char>) -> Option<int> {
    if s.len() > 0 && s.first() == '-' {
        let digits = s.drop_first();
        if digits.len() > 0 && all_digits(digits) {
            Some(-(digits_value(digits) as int))
        } else {
            None
        }
    } else {
        match unsigned_value(s) {
            Some(n) => Some(n as int),
            None => None,
        }
    }
}

/// The `u32` written in `s`, if `s` is an unsigned decimal number that fits.
pub open spec fn parse_u32(s: Seq<char>) -> Option<u32> {
    match unsigned_value(s) {
        Some(n) => if n <= u32::MAX {
            Some(n as u32)
        } else {
            None
        },
        None => None,
    }
}

/// The `i32` written in `s`, if `s` is a signed decimal number that fits.
pub open spec fn parse_i32(s: Seq<char>) -> Option<i32> {
    match signed_value(s) {
        Some(n) => if i32::MIN <= n <= i32::MAX {
            Some(n as i32)
        } else {
            None
        },
        None => None,
    }
}

/// A number is at least what any prefix of its digits denotes.
pub proof fn lemma_digits_value_prefix(s: Seq<char>, k: int)
    requires
        0 <= k <= s.len(),
    ensures
        digits_value(s.subrange(0, k)) <= digits_value(s),
    decreases s.len(),
{
    if k == s.len() {
        assert(s.subrange(0, k) =~= s);
    } else {
        assert(s.drop_last().subrange(0, k) =~= s.subrange(0, k));
        lemma_digits_value_prefix(s.drop_last(), k);
    }
}

/// The value of the digits of `buf` from `lo` to `hi`, if there is at least
/// one character, all are digits, and the value is at most `limit`.
fn digits_range(buf: &Vec<char>, lo: usize, hi: usize, limit: u64) -> (r: Option<u64>)
    requires
        lo <= hi <= buf.len(),
        limit <= 0xFFFF_FFFF,
    ensures
        r == ({
            let s = buf@.subrange(lo as int, hi as int);
            if s.len() > 0 && all_digits(s) && digits_value(s) <= limit {
                Some(digits_value(s) as u64)
            } else {
                None
            }
        }),
{
    let ghost s = buf@.subrange(lo as int, hi as int);
    if lo == hi {
        return None;
    }
    let mut acc: u64 = 0;
    let mut i: usize = lo;
    while i < hi
        invariant
            lo <= i <= hi <= buf.len(),
            limit <= 0xFFFF_FFFF,
            s == buf@.subrange(lo as int, hi as int),
            all_digits(s.subrange(0, i - lo)),
            acc == digits_value(s.subrange(0, i - lo)),
            acc <= limit,
        decreases hi - i,
    {
        let c: char = buf[i];
        let code: u32 = c as u32;
        if code < 0x30 || code > 0x39 {
            assert(!is_digit(s[i - lo]));
            return None;
        }
        let ghost before = s.subrange(0, i - lo);
        let ghost upto = s.subrange(0, i - lo + 1);
        assert(upto.drop_last() =~= before);
        assert(upto.last() == c);
        acc = acc * 10 + (code - 0x30) as u64;
        i += 1;
        assert(acc == digits_value(upto));
        if acc > limit {
            proof {
                lemma_digits_value_prefix(s, i - lo);
            }
            return None;
        }
    }
    assert(s.subrange(0, i - lo) =~= s);
    Some(acc)
}

/// Reads the characters of `buf` from `lo` to `hi` as a `u32`.
pub fn parse_u32_range(buf: &Vec<char>, lo: usize, hi: usize) -> (r: Option<u32>)
    requires
        lo <= hi <= buf.len(),
    ensures
        r == parse_u32(buf@.subrange(lo as int, hi as int)),
{
    let ghost s = buf@.subrange(lo as int, hi as int);
    let start: usize = if lo < hi && buf[lo] == '+' {
        lo + 1
    } else {
        lo
    };
    assert(buf@.subrange(start as int, hi as int) =~= if s.len() > 0 && s.first() == '+' {
        s.drop_first()
    } else {
        s
    });
    match digits_range(buf, start, hi, 0xFFFF_FFFF) {
        Some(v) => Some(v as u32),
        None => None,
    }
}

/// Reads the characters of `buf` from `lo` to `hi` as an `i32`.
pub fn parse_i32_range(buf: &Vec<char>, lo: usize, hi: usize) -> (r: Option<i32>)
    requires
        lo <= hi <= buf.len(),
    ensures
        r == parse_i32(buf@.subrange(lo as int, hi as int)),
{
    let ghost s = buf@.subrange(lo as int, hi as int);
    if lo < hi && buf[lo] == '-' {
        assert(buf@.subrange(lo + 1, hi as int) =~= s.drop_first());
        match digits_range(buf, lo + 1, hi, 0x8000_0000) {
            Some(v) => if v == 0x8000_0000 {
                Some(i32::MIN)
            } else {
                Some(-(v as i32))
            },
            None => None,
        }
    } else {
        let start: usize = if lo < hi && buf[lo] == '+' {
            lo + 1
        } else {
            lo
        };
        assert(buf@.subrange(start as int, hi as int) =~= if s.len() > 0 && s.first() == '+' {
            s.drop_first()
        } else {
            s
        });
        match digits_range(buf, start, hi, 0x7FFF_FFFF) {
            Some(v) => Some(v as i32),
            None => None,
        }
    }
}

/// A text that denotes an unsigned number is not empty and holds digits and
/// the plus sign only.
pub proof fn lemma_unsigned_chars(s: Seq<char>)
    requires
        unsigned_value(s) is Some,
    ensures
        s.len() > 0,
        forall|i: int| 0 <= i < s.len() ==> is_digit(#[trigger] s[i]) || s[i] == '+',
{
    assert forall|i: int| 0 <= i < s.len() implies is_digit(#[trigger] s[i]) || s[i] == '+' by {
        if s.first() == '+' {
            if i > 0 {
                assert(s.drop_first()[i - 1] == s[i]);
            }
        }
    }
}

/// A text that denotes a signed number is not empty and holds digits and
/// the two signs only.
pub proof fn lemma_signed_chars(s: Seq<char>)
    requires
        signed_value(s) is Some,
    ensures
        s.len() > 0,
        forall|i: int|
            0 <= i < s.len() ==> is_digit(#[trigger] s[i]) || s[i] == '+' || s[i] == '-',
{
    if s.len() > 0 && s.first() == '-' {
        assert forall|i: int| 0 <= i < s.len() implies is_digit(#[trigger] s[i]) || s[i] == '+'
            || s[i] == '-' by {
            if i > 0 {
                assert(s.drop_first()[i - 1] == s[i]);
            }
        }
    } else {
        lemma_unsigned_chars(s);
    }
}

/// The ten digits, in order.
pub open spec fn digits() -> Seq<char> {
    seq!['0', '1', '2', '3', '4', '5', '6', '7', '8', '9']
}

/// `n` written in base ten, without sign or leading zeros.
pub open spec fn unsigned_text(n: nat) -> Seq<char>
    decreases n,
{
    if n < 10 {
        seq![digits()[n as int]]
    } else {
        unsigned_text(n / 10).push(digits()[(n % 10) as int])
    }
}

/// `n` written in base ten, with a minus sign where it is negative.
pub open spec fn signed_text(n: int) -> Seq<char> {
    if n < 0 {
        seq!['-'] + unsigned_text((-n) as nat)
    } else {
        unsigned_text(n as nat)
    }
}

/// `n` written in base ten in at least two places, with a zero in front
/// where it has one digit only.
pub open spec fn two_digit_text(n: nat) -> Seq<char> {
    if n < 10 {
        seq!['0'] + unsigned_text(n)
    } else {
        unsigned_text(n)
    }
}

/// What `unsigned_text` writes is digits, at least one, that denote the
/// number written.
pub proof fn lemma_unsigned_text(n: nat)
    ensures
        unsigned_text(n).len() > 0,
        all_digits(unsigned_text(n)),
        digits_value(unsigned_text(n)) == n,
        unsigned_value(unsigned_text(n)) == Some(n),
    decreases n,
{
    let t = unsigned_text(n);
    if n < 10 {
        assert(t.drop_last() =~= Seq::<char>::empty());
        assert(digits_value(t.drop_last()) == 0);
        assert(is_digit(t[0]));
    } else {
        lemma_unsigned_text(n / 10);
        let front = unsigned_text(n / 10);
        assert(t.drop_last() =~= front);
        assert(is_digit(t.last()));
        assert forall|i: int| 0 <= i < t.len() implies is_digit(#[trigger] t[i]) by {
            if i < front.len() {
                assert(t[i] == front[i]);
            }
        }
    }
    assert(is_digit(t.first()));
}

/// What `signed_text` writes denotes the number written.
pub proof fn lemma_signed_text(n: int)
    ensures
        signed_value(signed_text(n)) == Some(n),
{
    if n < 0 {
        lemma_unsigned_text((-n) as nat);
        assert(signed_text(n).drop_first() =~= unsigned_text((-n) as nat));
    } else {
        lemma_unsigned_text(n as nat);
        assert(is_digit(unsigned_text(n as nat).first()));
    }
}

/// Appends the digit for `d` to `out`.
fn write_digit(out: &mut String, d: u8)
    requires
        d < 10,
    ensures
        final(out)@ == old(out)@.push(digits()[d as int]),
{
    proof {
        reveal_strlit("0123456789");
    }
    let all: &str = "0123456789";
    assert(all@ =~= digits());
    let digit: &str = all.substring_char(d as usize, d as usize + 1);
    assert(digit@ =~= seq![digits()[d as int]]);
    out.append(digit);
    assert(out@ =~= old(out)@.push(digits()[d as int]));
}

/// Appends `n`, written in base ten, to `out`.
pub fn write_unsigned(out: &mut String, n: u64)
    ensures
        final(out)@ == old(out)@ + unsigned_text(n as nat),
    decreases n,
{
    if n < 10 {
        write_digit(out, n as u8);
        assert(out@ =~= old(out)@ + unsigned_text(n as nat));
    } else {
        write_unsigned(out, n / 10);
        write_digit(out, (n % 10) as u8);
        assert(out@ =~= old(out)@ + unsigned_text(n as nat));
    }
}

/// Appends `n`, written in base ten with its sign, to `out`.
pub fn write_signed(out: &mut String, n: i64)
    ensures
        final(out)@ == old(out)@ + signed_text(n as int),
{
    if n < 0 {
        proof {
            reveal_strlit("-");
        }
        out.append("-");
        assert("-"@ =~= seq!['-']);
        let magnitude: u64 = if n == i64::MIN {
            0x8000_0000_0000_0000
        } else {
            (-n) as u64
        };
        write_unsigned(out, magnitude);
        assert(out@ =~= old(out)@ + signed_text(n as int));
    } else {
        write_unsigned(out, n as u64);
    }
}

/// Appends `n` to `out`, written in base ten in at least two places.
pub fn write_two_digits(out: &mut String, n: u64)
    ensures
        final(out)@ == old(out)@ + two_digit_text(n as nat),
{
    if n < 10 {
        proof {
            reveal_strlit("0");
        }
        out.append("0");
        assert("0"@ =~= seq!['0']);
        write_unsigned(out, n);
        assert(out@ =~= old(out)@ + two_digit_text(n as nat));
    } else {
        write_unsigned(out, n);
    }
}

} // verus!
