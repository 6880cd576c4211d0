//! Base-10 text of integers, as the checksum string spells them.

use crate::decimal::{Decimal, MAX_SCALE};
use vstd::prelude::*;

verus! {

pub open spec fn digit_char(d: nat) -> char {
    if d == 0 {
        '0'
    } else if d == 1 {
        '1'
    } else if d == 2 {
        '2'
    } else if d == 3 {
        '3'
    } else if d == 4 {
        '4'
    } else if d == 5 {
        '5'
    } else if d == 6 {
        '6'
    } else if d == 7 {
        '7'
    } else if d == 8 {
        '8'
    } else {
        '9'
    }
}

/// The digits of `n` in base 10, without leading zeros (`0` is `"0"`).
pub open spec fn nat_text(n: nat) -> Seq<char>
    decreases n,
{
    if n < 10 {
        seq![digit_char(n)]
    } else {
        nat_text(n / 10) + seq![digit_char(n % 10)]
    }
}

/// `i` in base 10, with a leading `-` where it is negative.
pub open spec fn int_text(i: int) -> Seq<char> {
    if i < 0 {
        seq!['-'] + nat_text((-i) as nat)
    } else {
        nat_text(i as nat)
    }
}

fn digit_str(d: u64) -> (r: &'static str)
    requires
        d < 10,
    ensures
        r@ == seq![digit_char(d as nat)],
{
    let r = if d == 0 {
        proof {
            reveal_strlit("0");
        }
        "0"
    } else if d == 1 {
        proof {
            reveal_strlit("1");
        }
        "1"
    } else if d == 2 {
        proof {
            reveal_strlit("2");
        }
        "2"
    } else if d == 3 {
        proof {
            reveal_strlit("3");
        }
        "3"
    } else if d == 4 {
        proof {
            reveal_strlit("4");
        }
        "4"
    } else if d == 5 {
        proof {
            reveal_strlit("5");
        }
        "5"
    } else if d == 6 {
        proof {
            reveal_strlit("6");
        }
        "6"
    } else if d == 7 {
        proof {
            reveal_strlit("7");
        }
        "7"
    } else if d == 8 {
        proof {
            reveal_strlit("8");
        }
        "8"
    } else {
        proof {
            reveal_strlit("9");
        }
        "9"
    };
    assert(r@ =~= seq![digit_char(d as nat)]);
    r
}

/// Appends the digits of `n` to `s`.
pub fn push_nat(s: &mut String, n: u64)
    ensures
        final(s)@ == old(s)@ + nat_text(n as nat),
    decreases n,
{
    if n >= 10 {
        push_nat(s, n / 10);
    }
    s.append(digit_str(n % 10));
    proof {
        if n >= 10 {
            assert(final(s)@ =~= old(s)@ + nat_text(n as nat));
        } else {
            assert(final(s)@ =~= old(s)@ + nat_text(n as nat));
        }
    }
}

/// Appends `v` in base 10 to `s`, with a `-` in front where it is negative.
pub fn push_int(s: &mut String, v: i64)
    ensures
        final(s)@ == old(s)@ + int_text(v as int),
{
    if v < 0 {
        proof {
            reveal_strlit("-");
        }
        s.append("-");
        let mag: u64 = (-(v as i128)) as u64;
        push_nat(s, mag);
        assert(final(s)@ =~= old(s)@ + int_text(v as int));
    } else {
        push_nat(s, v as u64);
    }
}

/// `v` in base 10.
pub fn int_to_text(v: i64) -> (r: String)
    ensures
        r@ == int_text(v as int),
{
    let mut s = String::new();
    push_int(&mut s, v);
    assert(s@ =~= int_text(v as int));
    s
}

pub open spec fn is_digit(c: char) -> bool {
    '0' <= c && c <= '9'
}

pub open spec fn digit_value(c: char) -> nat {
    (c as u32 - '0' as u32) as nat
}

/// The number that a run of digits spells.
pub open spec fn digits_value(s: Seq<char>) -> nat
    decreases s.len(),
{
    if s.len() == 0 {
        0
    } else {
        digits_value(s.drop_last()) * 10 + digit_value(s.last())
    }
}

/// How many digits `s` starts with.
pub open spec fn leading_digits(s: Seq<char>) -> nat
    decreases s.len(),
{
    if s.len() > 0 && is_digit(s[0]) {
        1 + leading_digits(s.drop_first())
    } else {
        0
    }
}

/// The decimal that `t` spells as `[-]digits[.digits]`, where it has at most
/// `MAX_SCALE` fractional digits and fits in a `Decimal`.
pub open spec fn decimal_of_text(t: Seq<char>) -> Option<Decimal> {
    let neg = t.len() > 0 && t[0] == '-';
    let body = if neg {
        t.drop_first()
    } else {
        t
    };
    let k = leading_digits(body) as int;
    let rest = body.skip(k);
    let frac = if rest.len() == 0 {
        rest
    } else {
        rest.drop_first()
    };
    let magnitude = digits_value(body.take(k) + frac);
    let value = if neg {
        -magnitude
    } else {
        magnitude as int
    };
    if k > 0 && (rest.len() == 0 || (rest[0] == '.' && frac.len() > 0 && leading_digits(frac)
        == frac.len())) && frac.len() <= MAX_SCALE && i64::MIN <= value <= i64::MAX {
        Some(Decimal { mantissa: value as i64, scale: frac.len() as u32 })
    } else {
        None
    }
}

proof fn lemma_leading_digits(s: Seq<char>, k: int)
    requires
        0 <= k <= s.len(),
        forall|j: int| 0 <= j < k ==> is_digit(#[trigger] s[j]),
        k == s.len() || !is_digit(s[k]),
    ensures
        leading_digits(s) == k,
    decreases k,
{
    if k > 0 {
        lemma_leading_digits(s.drop_first(), k - 1);
    }
}

/// Cap on the digit value that parsing tracks: beyond it, no `i64` fits.
const DIGITS_CAP: u128 = 0x1_0000_0000_0000_0000;

spec fn capped(v: nat) -> nat {
    if v < DIGITS_CAP {
        v
    } else {
        DIGITS_CAP as nat
    }
}

/// Reads the digits of `t` from `i` on into `acc` (held `capped`), and
/// returns where they stop.
fn read_digits(t: &str, len: usize, i: usize, acc: &mut u128, before: Ghost<Seq<char>>) -> (end: usize)
    requires
        len == t@.len(),
        i <= len,
        *old(acc) == capped(digits_value(before@)),
    ensures
        i <= end <= len,
        forall|j: int| i <= j < end ==> is_digit(#[trigger] t@[j]),
        end == len || !is_digit(t@[end as int]),
        *final(acc) == capped(digits_value(before@ + t@.subrange(i as int, end as int))),
{
    let mut e = i;
    while e < len && is_digit_exec(t.get_char(e))
        invariant
            len == t@.len(),
            i <= e <= len,
            forall|j: int| i <= j < e ==> is_digit(#[trigger] t@[j]),
            *acc == capped(digits_value(before@ + t@.subrange(i as int, e as int))),
        decreases len - e,
    {
        let c = t.get_char(e);
        let d = (c as u32 - '0' as u32) as u128;
        let ghost prev = before@ + t@.subrange(i as int, e as int);
        let ghost next = before@ + t@.subrange(i as int, e + 1);
        assert(next.drop_last() =~= prev);
        let v = *acc * 10 + d;
        *acc = if v < DIGITS_CAP {
            v
        } else {
            DIGITS_CAP
        };
        e = e + 1;
    }
    e
}

fn is_digit_exec(c: char) -> (r: bool)
    ensures
        r == is_digit(c),
{
    '0' <= c && c <= '9'
}

impl Decimal {
    /// The decimal written `[-]digits[.digits]`, as in `"-100.25"`; `None`
    /// for any other text, for more than `MAX_SCALE` fractional digits, and
    /// for a mantissa beyond `i64`.
    pub fn parse(t: &str) -> (r: Option<Decimal>)
        ensures
            r == decimal_of_text(t@),
    {
        let len = t.unicode_len();
        let neg = len > 0 && t.get_char(0) == '-';
        let start: usize = if neg {
            1
        } else {
            0
        };
        let ghost body = if neg {
            t@.drop_first()
        } else {
            t@
        };
        let mut acc: u128 = 0;
        proof {
            assert(digits_value(Seq::<char>::empty()) == 0);
        }
        let int_end = read_digits(t, len, start, &mut acc, Ghost(Seq::empty()));
        let ghost int_part = t@.subrange(start as int, int_end as int);
        proof {
            assert(int_part =~= Seq::<char>::empty() + int_part);
            lemma_leading_digits(body, int_end - start);
            assert(body.take(int_end - start) =~= int_part);
        }
        if int_end == start {
            return None;
        }
        let mut scale: usize = 0;
        if int_end < len {
            if t.get_char(int_end) != '.' {
                return None;
            }
            let end = read_digits(t, len, int_end + 1, &mut acc, Ghost(int_part));
            let ghost frac = t@.subrange(int_end + 1, end as int);
            let ghost rest = body.skip(int_end - start);
            proof {
                assert(rest.drop_first() =~= t@.subrange(int_end + 1, len as int));
                if end == len {
                    lemma_leading_digits(frac, frac.len() as int);
                    assert(rest.drop_first() =~= frac);
                } else {
                    lemma_leading_digits(rest.drop_first(), end - int_end - 1);
                }
            }
            if end == int_end + 1 || end < len {
                return None;
            }
            scale = end - int_end - 1;
        } else {
            proof {
                assert(body.skip(int_end - start).len() == 0);
                assert(int_part + Seq::<char>::empty() =~= int_part);
            }
        }
        if scale > MAX_SCALE as usize {
            return None;
        }
        if neg {
            if acc > 0x8000_0000_0000_0000 {
                return None;
            }
            Some(Decimal { mantissa: (-(acc as i128)) as i64, scale: scale as u32 })
        } else {
            if acc > 0x7fff_ffff_ffff_ffff {
                return None;
            }
            Some(Decimal { mantissa: acc as i64, scale: scale as u32 })
        }
    }
}

} // verus!
