//! Base-10 text for numeric cells: a specification of decimal
//! notation, an executable printer and parser, and their round trip.

use vstd::prelude::*;

verus! {

/// The digit character for a value between 0 and 9.
pub open spec fn digit_char(d: int) -> char {
    if d == 0 {
        '0'
    } else if d == 1 {
        '1'
    } else if d == 2 {
        '2'
    } else if d == 3 {
        '3'
    } else if d == 4 {
        '4'
    } else if d == 5 {
        '5'
    } else if d == 6 {
        '6'
    } else if d == 7 {
        '7'
    } else if d == 8 {
        '8'
    } else {
        '9'
    }
}

pub open spec fn is_digit(c: char) -> bool {
    '0' as int <= c as int && c as int <= '9' as int
}

pub open spec fn digit_val(c: char) -> int {
    c as int - '0' as int
}

/// The digits of `n` in base 10, most significant first, without sign
/// or leading zeros (zero itself prints as a single `0`).
pub open spec fn dec_digits(n: nat) -> Seq<char>
    decreases n,
{
    if n < 10 {
        seq![digit_char(n as int)]
    } else {
        dec_digits(n / 10).push(digit_char((n % 10) as int))
    }
}

/// Decimal notation of an integer: the digits of its magnitude,
/// prefixed with `-` when it is negative.
pub open spec fn dec_int(n: int) -> Seq<char> {
    if n < 0 {
        seq!['-'] + dec_digits((-n) as nat)
    } else {
        dec_digits(n as nat)
    }
}

pub open spec fn all_digits(s: Seq<char>) -> bool {
    forall|i: int| 0 <= i < s.len() ==> is_digit(#[trigger] s[i])
}

/// The value of a digit string, most significant digit first.
pub open spec fn digits_val(s: Seq<char>) -> int
    decreases s.len(),
{
    if s.len() == 0 {
        0
    } else {
        digits_val(s.drop_last()) * 10 + digit_val(s.last())
    }
}

/// What base-10 integer parsing accepts: an optional single sign, then
/// one or more digits, denoting a value that the cell type can hold.
pub open spec fn parse_num(s: Seq<char>) -> Option<i64> {
    let signed = s.len() > 0 && (s[0] == '-' || s[0] == '+');
    let neg = s.len() > 0 && s[0] == '-';
    let ds = if signed {
        s.skip(1)
    } else {
        s
    };
    if ds.len() > 0 && all_digits(ds) {
        let v = if neg {
            -digits_val(ds)
        } else {
            digits_val(ds)
        };
        if i64::MIN <= v <= i64::MAX {
            Some(v as i64)
        } else {
            None
        }
    } else {
        None
    }
}

/// The one-character text of a digit.
fn digit_str(d: u64) -> (r: &'static str)
    requires
        d < 10,
    ensures
        r@ == seq![digit_char(d as int)],
{
    let r: &'static str = if d == 0 {
        "0"
    } else if d == 1 {
        "1"
    } else if d == 2 {
        "2"
    } else if d == 3 {
        "3"
    } else if d == 4 {
        "4"
    } else if d == 5 {
        "5"
    } else if d == 6 {
        "6"
    } else if d == 7 {
        "7"
    } else if d == 8 {
        "8"
    } else {
        "9"
    };
    proof {
        reveal_strlit("0");
        reveal_strlit("1");
        reveal_strlit("2");
        reveal_strlit("3");
        reveal_strlit("4");
        reveal_strlit("5");
        reveal_strlit("6");
        reveal_strlit("7");
        reveal_strlit("8");
        reveal_strlit("9");
        assert(r@ =~= seq![digit_char(d as int)]);
    }
    r
}

/// The decimal digits of an unsigned value.
fn u64_digits(n: u64) -> (s: String)
    ensures
        s@ == dec_digits(n as nat),
    decreases n,
{
    if n < 10 {
        digit_str(n).to_owned()
    } else {
        proof {
            assert(n / 10 < n && n % 10 < 10) by (nonlinear_arith)
                requires
                    n >= 10,
            ;
        }
        let mut s = u64_digits(n / 10);
        s.append(digit_str(n % 10));
        proof {
            assert(s@ =~= dec_digits(n as nat));
        }
        s
    }
}

/// Prints a numeric cell payload in base 10.
pub fn num_to_string(n: i64) -> (s: String)
    ensures
        s@ == dec_int(n as int),
{
    if n >= 0 {
        u64_digits(n as u64)
    } else {
        let mag: u64 = if n == i64::MIN {
            9223372036854775808u64
        } else {
            (-n) as u64
        };
        let mut s = String::from_str("-");
        let digits = u64_digits(mag);
        s.append(digits.as_str());
        proof {
            reveal_strlit("-");
            assert(s@ =~= dec_int(n as int));
        }
        s
    }
}

/// Parses base-10 integer text: an optional single sign, then one or
/// more digits; rejects anything else and values out of range.
pub fn parse_num_str(s: &str) -> (r: Option<i64>)
    ensures
        r == parse_num(s@),
{
    let len = s.unicode_len();
    if len == 0 {
        return None;
    }
    let c0 = s.get_char(0);
    let neg = c0 == '-';
    let signed = neg || c0 == '+';
    let start: usize = if signed {
        1
    } else {
        0
    };
    let ghost ds: Seq<char> = if signed {
        s@.skip(1)
    } else {
        s@
    };
    if start >= len {
        proof {
            assert(ds.len() == 0);
        }
        return None;
    }
    let max_mag: u64 = if neg {
        9223372036854775808u64
    } else {
        9223372036854775807u64
    };
    let mut acc: u64 = 0;
    let mut i: usize = start;
    proof {
        assert(ds.take(0) =~= Seq::<char>::empty());
    }
    while i < len
        invariant
            start <= i <= len,
            len == s@.len(),
            signed == (s@.len() > 0 && (s@[0] == '-' || s@[0] == '+')),
            neg == (s@.len() > 0 && s@[0] == '-'),
            start == if signed { 1int } else { 0int },
            ds == if signed { s@.skip(1) } else { s@ },
            ds.len() == len - start >= 1,
            max_mag as int == if neg { 0x8000000000000000int } else { 0x7fffffffffffffffint },
            all_digits(ds.take(i - start)),
            acc as int == digits_val(ds.take(i - start)),
            acc <= max_mag,
        decreases len - i,
    {
        let c = s.get_char(i);
        let u = c as u32;
        proof {
            assert(ds[i - start] == s@[i as int]);
        }
        if u < 48 || u > 57 {
            proof {
                assert(!is_digit(ds[i - start]));
                assert(!all_digits(ds));
            }
            return None;
        }
        let d = (u - 48) as u64;
        proof {
            assert(is_digit(ds[i - start]) && digit_val(ds[i - start]) == d as int);
        }
        let ghost pre = ds.take(i - start);
        let ghost next = ds.take(i + 1 - start);
        proof {
            assert(next =~= pre.push(ds[i - start]));
            assert(next.drop_last() =~= pre);
            assert(digits_val(next) == acc as int * 10 + d as int);
        }
        if acc > (max_mag - d) / 10 {
            proof {
                assert(acc as int * 10 + d as int > max_mag as int) by (nonlinear_arith)
                    requires
                        acc as int > (max_mag as int - d as int) / 10,
                        0 <= d as int <= 9,
                        max_mag as int >= 10,
                ;
                if all_digits(ds) {
                    lemma_digits_val_prefix(ds, i + 1 - start);
                    assert(digits_val(ds) > max_mag as int);
                }
            }
            return None;
        }
        proof {
            assert(acc as int * 10 + d as int <= max_mag as int) by (nonlinear_arith)
                requires
                    acc as int <= (max_mag as int - d as int) / 10,
                    0 <= d as int <= 9,
                    max_mag as int >= 10,
            ;
        }
        acc = acc * 10 + d;
        i = i + 1;
        proof {
            assert(all_digits(next));
        }
    }
    proof {
        assert(ds.take(len - start) =~= ds);
    }
    if neg {
        if acc == 9223372036854775808u64 {
            Some(i64::MIN)
        } else {
            Some(-(acc as i64))
        }
    } else {
        Some(acc as i64)
    }
}

proof fn lemma_digits_val_nonneg(s: Seq<char>)
    requires
        all_digits(s),
    ensures
        digits_val(s) >= 0,
    decreases s.len(),
{
    if s.len() > 0 {
        assert(all_digits(s.drop_last()));
        lemma_digits_val_nonneg(s.drop_last());
    }
}

/// Extending a digit string to the right never shrinks its value.
proof fn lemma_digits_val_prefix(s: Seq<char>, k: int)
    requires
        all_digits(s),
        0 <= k <= s.len(),
    ensures
        digits_val(s) >= digits_val(s.take(k)),
    decreases s.len() - k,
{
    if k == s.len() {
        assert(s.take(k) =~= s);
    } else {
        assert(all_digits(s.drop_last()));
        assert(s.drop_last().take(k) =~= s.take(k));
        lemma_digits_val_prefix(s.drop_last(), k);
        lemma_digits_val_nonneg(s.drop_last());
    }
}

/// Printing a value and parsing the text back returns the value.
pub proof fn lemma_dec_digits(n: nat)
    ensures
        dec_digits(n).len() >= 1,
        all_digits(dec_digits(n)),
        digits_val(dec_digits(n)) == n,
    decreases n,
{
    if n < 10 {
        assert(dec_digits(n) =~= seq![digit_char(n as int)]);
        assert(dec_digits(n).drop_last() =~= Seq::<char>::empty());
        assert(dec_digits(n).last() == digit_char(n as int));
        assert(digits_val(Seq::<char>::empty()) == 0);
        assert(digits_val(dec_digits(n)) == digit_val(digit_char(n as int)));
    } else {
        lemma_dec_digits(n / 10);
        let pre = dec_digits(n / 10);
        let d = digit_char((n % 10) as int);
        assert(dec_digits(n) == pre.push(d));
        assert(pre.push(d).drop_last() =~= pre);
        assert(pre.push(d).last() == d);
        assert(forall|i: int|
            0 <= i < pre.push(d).len() ==> is_digit(#[trigger] pre.push(d)[i]));
        assert(n / 10 * 10 + n % 10 == n) by (nonlinear_arith);
    }
}

/// Round trip: parsing the printed text of a value gives it back.
pub proof fn lemma_parse_dec(n: i64)
    ensures
        parse_num(dec_int(n as int)) == Some(n),
{
    if n >= 0 {
        lemma_dec_digits(n as nat);
        let s = dec_int(n as int);
        assert(is_digit(s[0]));
        assert(s[0] != '-' && s[0] != '+');
    } else {
        let m = (-(n as int)) as nat;
        lemma_dec_digits(m);
        let s = dec_int(n as int);
        assert(s[0] == '-');
        assert(s.skip(1) =~= dec_digits(m));
    }
}

} // verus!
