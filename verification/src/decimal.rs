//! Decimal text form of the offset cursor: spec-level definitions of the
//! digit string of an integer and of what a stored string decodes to, with
//! the round-trip lemmas that connect them.

use vstd::prelude::*;
use vstd::string::StrSliceExecFns;
use vstd::string::StringExecFns;

verus! {

/// The character for one decimal digit value.
pub open spec fn digit_char_of(d: int) -> char {
    if d == 0 {
        '0'
    } else if d == 1 {
        '1'
    } else if d == 2 {
        '2'
    } else if d == 3 {
        '3'
    } else if d == 4 {
        '4'
    } else if d == 5 {
        '5'
    } else if d == 6 {
        '6'
    } else if d == 7 {
        '7'
    } else if d == 8 {
        '8'
    } else {
        '9'
    }
}

/// The digit value of a character, or -1 where it is no decimal digit.
pub open spec fn char_digit(c: char) -> int {
    if c == '0' {
        0
    } else if c == '1' {
        1
    } else if c == '2' {
        2
    } else if c == '3' {
        3
    } else if c == '4' {
        4
    } else if c == '5' {
        5
    } else if c == '6' {
        6
    } else if c == '7' {
        7
    } else if c == '8' {
        8
    } else if c == '9' {
        9
    } else {
        -1
    }
}

pub open spec fn is_digit_char(c: char) -> bool {
    char_digit(c) >= 0
}

pub open spec fn all_digits(s: Seq<char>) -> bool {
    forall|i: int| 0 <= i < s.len() ==> is_digit_char(s[i])
}

/// The digit string of a non-negative integer: no sign, no leading zeros.
pub open spec fn dec_nat(n: int) -> Seq<char>
    recommends
        n >= 0,
    decreases n,
{
    if n < 10 {
        seq![digit_char_of(n)]
    } else {
        dec_nat(n / 10) + seq![digit_char_of(n % 10)]
    }
}

/// The decimal text of a signed integer, exactly as the offset key stores it.
pub open spec fn dec_int(v: int) -> Seq<char> {
    if v < 0 {
        seq!['-'] + dec_nat(-v)
    } else {
        dec_nat(v)
    }
}

/// The value of a digit string, most significant digit first.
pub open spec fn digits_val(s: Seq<char>) -> int
    recommends
        all_digits(s),
    decreases s.len(),
{
    if s.len() == 0 {
        0
    } else {
        digits_val(s.drop_last()) * 10 + char_digit(s.last())
    }
}

/// The integer a character string denotes: an optional sign, then at least
/// one decimal digit.  `None` is a malformed string.
pub open spec fn parse_int(s: Seq<char>) -> Option<int> {
    let digits = if s.len() > 0 && (s[0] == '-' || s[0] == '+') {
        s.subrange(1, s.len() as int)
    } else {
        s
    };
    if digits.len() > 0 && all_digits(digits) {
        if s[0] == '-' {
            Some(-digits_val(digits))
        } else {
            Some(digits_val(digits))
        }
    } else {
        None
    }
}

/// `parse_int`, held to the range of `i64`: out-of-range values are malformed.
pub open spec fn parse_i64_spec(s: Seq<char>) -> Option<i64> {
    match parse_int(s) {
        Some(v) => if i64::MIN <= v <= i64::MAX {
            Some(v as i64)
        } else {
            None
        },
        None => None,
    }
}

pub proof fn lemma_digits_val_nonneg(s: Seq<char>)
    requires
        all_digits(s),
    ensures
        digits_val(s) >= 0,
    decreases s.len(),
{
    if s.len() > 0 {
        assert(all_digits(s.drop_last()));
        lemma_digits_val_nonneg(s.drop_last());
    }
}

/// The digit string of `n` is made of digits and reads back as `n`.
pub proof fn lemma_dec_nat_digits(n: int)
    requires
        n >= 0,
    ensures
        dec_nat(n).len() >= 1,
        all_digits(dec_nat(n)),
        digits_val(dec_nat(n)) == n,
    decreases n,
{
    if n < 10 {
        let s = dec_nat(n);
        assert(s =~= seq![digit_char_of(n)]);
        assert(s.drop_last() =~= Seq::<char>::empty());
        assert(s.last() == digit_char_of(n));
        assert(digits_val(Seq::<char>::empty()) == 0);
        assert(digits_val(s) == char_digit(digit_char_of(n)));
    } else {
        lemma_dec_nat_digits(n / 10);
        let s = dec_nat(n);
        let prev = dec_nat(n / 10);
        assert(s =~= prev + seq![digit_char_of(n % 10)]);
        assert(s.drop_last() =~= prev);
        assert(s.last() == digit_char_of(n % 10));
        assert(char_digit(digit_char_of(n % 10)) == n % 10);
        assert(digits_val(s) == (n / 10) * 10 + n % 10);
        assert((n / 10) * 10 + n % 10 == n) by (nonlinear_arith);
        assert(forall|i: int| 0 <= i < s.len() ==> is_digit_char(s[i]));
    }
}

/// Round trip: the decimal text of any `i64` parses back to the same value.
pub proof fn lemma_dec_int_round_trip(v: int)
    requires
        i64::MIN <= v <= i64::MAX,
    ensures
        parse_i64_spec(dec_int(v)) == Some(v as i64),
{
    if v < 0 {
        lemma_dec_nat_digits(-v);
        let s = dec_int(v);
        let body = dec_nat(-v);
        assert(s =~= seq!['-'] + body);
        assert(s[0] == '-');
        assert(s.subrange(1, s.len() as int) =~= body);
        assert(parse_int(s) == Some(-digits_val(body)));
        assert(digits_val(body) == -v);
    } else {
        lemma_dec_nat_digits(v);
        let s = dec_int(v);
        assert(s =~= dec_nat(v));
        assert(is_digit_char(s[0]));
        assert(s[0] != '-' && s[0] != '+');
        assert(parse_int(s) == Some(digits_val(dec_nat(v))));
    }
}

/// A digit string is worth at least as much as any of its prefixes.
pub proof fn lemma_digits_val_prefix_le(s: Seq<char>, j: int)
    requires
        all_digits(s),
        0 <= j <= s.len(),
    ensures
        digits_val(s.subrange(0, j)) <= digits_val(s),
    decreases s.len() - j,
{
    if j == s.len() {
        assert(s.subrange(0, j) =~= s);
    } else {
        lemma_digits_val_prefix_le(s, j + 1);
        let a = s.subrange(0, j);
        let b = s.subrange(0, j + 1);
        assert(b.drop_last() =~= a);
        assert(b.last() == s[j]);
        assert(all_digits(a));
        lemma_digits_val_nonneg(a);
        assert(digits_val(b) == digits_val(a) * 10 + char_digit(s[j]));
        assert(char_digit(s[j]) >= 0);
    }
}

/// The digit characters of the byte digits `s`, least significant first,
/// read back in display order.
pub open spec fn rev_digit_chars(s: Seq<u8>) -> Seq<char> {
    Seq::new(s.len(), |k: int| digit_char_of(s[s.len() - 1 - k] as int))
}

fn digit_str(d: u8) -> (r: &'static str)
    requires
        d < 10,
    ensures
        r@ == seq![digit_char_of(d as int)],
{
    let r: &'static str = match d {
        0 => "0",
        1 => "1",
        2 => "2",
        3 => "3",
        4 => "4",
        5 => "5",
        6 => "6",
        7 => "7",
        8 => "8",
        _ => "9",
    };
    proof {
        reveal_strlit("0");
        reveal_strlit("1");
        reveal_strlit("2");
        reveal_strlit("3");
        reveal_strlit("4");
        reveal_strlit("5");
        reveal_strlit("6");
        reveal_strlit("7");
        reveal_strlit("8");
        reveal_strlit("9");
        assert(r@ =~= seq![digit_char_of(d as int)]);
    }
    r
}

/// Renders an `i64` as its decimal text, the form the offset key stores.
pub fn render_i64(v: i64) -> (r: String)
    ensures
        r@ == dec_int(v as int),
{
    let neg = v < 0;
    let mut m: u64 = if v < 0 {
        (-(v as i128)) as u64
    } else {
        v as u64
    };
    let ghost mag: int = m as int;
    assert(mag == if v < 0 { -(v as int) } else { v as int });
    let mut digs: Vec<u8> = Vec::new();
    proof {
        assert(rev_digit_chars(digs@) =~= Seq::<char>::empty());
        assert(dec_nat(mag) + rev_digit_chars(digs@) =~= dec_nat(mag));
    }
    while m > 0
        invariant
            mag >= 0,
            forall|i: int| 0 <= i < digs@.len() ==> digs@[i] < 10,
            m > 0 ==> dec_nat(mag) == dec_nat(m as int) + rev_digit_chars(digs@),
            m == 0 && mag > 0 ==> dec_nat(mag) == rev_digit_chars(digs@),
            digs@.len() == 0 ==> m as int == mag,
            mag == 0 ==> m == 0 && digs@.len() == 0,
        decreases m,
    {
        let d: u8 = (m % 10) as u8;
        let ghost digs_old: Seq<u8> = digs@;
        let ghost m_old: int = m as int;
        digs.push(d);
        m = m / 10;
        proof {
            assert(rev_digit_chars(digs@) =~= seq![digit_char_of(d as int)] + rev_digit_chars(
                digs_old,
            ));
            if m > 0 {
                assert(m_old >= 10);
                assert(dec_nat(m_old) == dec_nat(m_old / 10) + seq![digit_char_of(m_old % 10)]);
                assert(dec_nat(mag) =~= dec_nat(m as int) + rev_digit_chars(digs@));
            } else {
                assert(m_old < 10);
                assert(m_old % 10 == m_old);
                assert(dec_nat(m_old) =~= seq![digit_char_of(m_old)]);
                assert(dec_nat(mag) =~= rev_digit_chars(digs@));
            }
        }
    }
    let mut s = String::new();
    if neg {
        s.append("-");
        proof {
            reveal_strlit("-");
            assert(s@ =~= seq!['-']);
        }
    }
    let ghost head: Seq<char> = s@;
    if digs.len() == 0 {
        s.append("0");
        proof {
            reveal_strlit("0");
            assert(mag == 0 && !neg);
            assert(s@ =~= seq!['0']);
            assert(dec_int(v as int) =~= seq![digit_char_of(0)]);
        }
        return s;
    }
    let mut i: usize = digs.len();
    proof {
        assert(s@ =~= head + rev_digit_chars(digs@).subrange(0, 0));
    }
    while i > 0
        invariant
            i <= digs@.len(),
            forall|k: int| 0 <= k < digs@.len() ==> digs@[k] < 10,
            s@ == head + rev_digit_chars(digs@).subrange(0, digs@.len() - i),
        decreases i,
    {
        i = i - 1;
        s.append(digit_str(digs[i]));
        proof {
            let rev: Seq<char> = rev_digit_chars(digs@);
            let done: int = digs@.len() - i;
            assert(rev[done - 1] == digit_char_of(digs@[i as int] as int));
            assert(rev.subrange(0, done) =~= rev.subrange(0, done - 1) + seq![rev[done - 1]]);
            assert(s@ =~= head + rev.subrange(0, done));
        }
    }
    proof {
        let rev: Seq<char> = rev_digit_chars(digs@);
        assert(rev.subrange(0, rev.len() as int) =~= rev);
        assert(mag > 0);
        assert(s@ =~= head + dec_nat(mag));
        if neg {
            assert(s@ =~= seq!['-'] + dec_nat(-(v as int)));
        } else {
            assert(head =~= Seq::<char>::empty());
            assert(s@ =~= dec_nat(v as int));
        }
    }
    s
}

/// Parses decimal text as an `i64`: an optional sign, then at least one
/// digit.  `None` on anything else, including values out of range.
pub fn parse_i64(s: &str) -> (r: Option<i64>)
    ensures
        r == parse_i64_spec(s@),
{
    let n = s.unicode_len();
    if n == 0 {
        return None;
    }
    let c0 = s.get_char(0);
    let neg = c0 == '-';
    let start: usize = if c0 == '-' || c0 == '+' {
        1
    } else {
        0
    };
    let ghost digits: Seq<char> = s@.subrange(start as int, n as int);
    if start == n {
        proof {
            assert(digits.len() == 0);
        }
        return None;
    }
    proof {
        if start == 0 {
            assert(digits =~= s@);
        }
        assert(s@.subrange(0 as int, 0 as int) =~= Seq::<char>::empty());
    }
    let mut acc: u64 = 0;
    let mut i: usize = start;
    while i < n
        invariant
            start <= i <= n,
            start == 0 || start == 1,
            n == s@.len(),
            n > 0,
            start == 1 <==> (s@[0] == '-' || s@[0] == '+'),
            digits == s@.subrange(start as int, n as int),
            start == 0 ==> digits == s@,
            acc <= 9223372036854775808u64,
            all_digits(s@.subrange(start as int, i as int)),
            acc as int == digits_val(s@.subrange(start as int, i as int)),
        decreases n - i,
    {
        let c = s.get_char(i);
        let d: u64 = match c {
            '0' => 0,
            '1' => 1,
            '2' => 2,
            '3' => 3,
            '4' => 4,
            '5' => 5,
            '6' => 6,
            '7' => 7,
            '8' => 8,
            '9' => 9,
            _ => {
                proof {
                    assert(!is_digit_char(s@[i as int]));
                    assert(digits[i - start] == s@[i as int]);
                    assert(!all_digits(digits));
                }
                return None;
            },
        };
        proof {
            assert(d as int == char_digit(s@[i as int]));
        }
        let limit: u64 = (9223372036854775808u64 - d) / 10;
        let ghost pre: Seq<char> = s@.subrange(start as int, i as int);
        let ghost cur: Seq<char> = s@.subrange(start as int, i as int + 1);
        proof {
            assert(cur.drop_last() =~= pre);
            assert(cur.last() == s@[i as int]);
            assert(all_digits(cur));
            assert(digits_val(cur) == digits_val(pre) * 10 + d);
        }
        if acc > limit {
            proof {
                assert(10 * (limit as int) >= 9223372036854775808 - d - 9);
                assert(acc as int * 10 >= 10 * (limit as int) + 10);
                assert(digits_val(cur) > 9223372036854775808);
                if all_digits(digits) {
                    assert(cur =~= digits.subrange(0, i + 1 - start));
                    lemma_digits_val_prefix_le(digits, i + 1 - start);
                    assert(digits_val(digits) > 9223372036854775808);
                }
            }
            return None;
        }
        acc = acc * 10 + d;
        i = i + 1;
        proof {
            assert(s@.subrange(start as int, i as int) =~= cur);
        }
    }
    proof {
        assert(s@.subrange(start as int, n as int) == digits);
        assert(all_digits(digits) && acc as int == digits_val(digits));
        assert(digits.len() > 0);
    }
    if neg {
        if acc == 9223372036854775808u64 {
            Some(i64::MIN)
        } else {
            Some(-(acc as i64))
        }
    } else {
        if acc == 9223372036854775808u64 {
            None
        } else {
            Some(acc as i64)
        }
    }
}

} // verus!
