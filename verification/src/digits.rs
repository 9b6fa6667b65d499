//! Decimal numerals as character sequences: what a digit is, the value of a
//! digit string, the canonical decimal form of a number, and verified
//! conversions between `u64` / `i64` values and their decimal text.

use vstd::prelude::*;
use vstd::arithmetic::div_mod::{lemma_fundamental_div_mod, lemma_fundamental_div_mod_converse};

verus! {

/// The ten decimal digit characters.
pub open spec fn is_digit(c: char) -> bool {
    c == '0' || c == '1' || c == '2' || c == '3' || c == '4' || c == '5' || c == '6' || c == '7'
        || c == '8' || c == '9'
}

/// The numeric value of a digit character; ten for anything else.
pub open spec fn digit_val(c: char) -> nat {
    if c == '0' {
        0
    } else if c == '1' {
        1
    } else if c == '2' {
        2
    } else if c == '3' {
        3
    } else if c == '4' {
        4
    } else if c == '5' {
        5
    } else if c == '6' {
        6
    } else if c == '7' {
        7
    } else if c == '8' {
        8
    } else if c == '9' {
        9
    } else {
        10
    }
}

/// The digit character for a value below ten; `'9'` reused above that so the
/// function stays total.
pub open spec fn digit_char(d: nat) -> char {
    if d == 0 {
        '0'
    } else if d == 1 {
        '1'
    } else if d == 2 {
        '2'
    } else if d == 3 {
        '3'
    } else if d == 4 {
        '4'
    } else if d == 5 {
        '5'
    } else if d == 6 {
        '6'
    } else if d == 7 {
        '7'
    } else if d == 8 {
        '8'
    } else {
        '9'
    }
}

/// Every character of `s` is a decimal digit.
pub open spec fn all_digits(s: Seq<char>) -> bool {
    forall|i: int| 0 <= i < s.len() ==> is_digit(#[trigger] s[i])
}

/// The value of a digit string, most significant digit first.
pub open spec fn num_val(s: Seq<char>) -> nat
    decreases s.len(),
{
    if s.len() == 0 {
        0
    } else {
        num_val(s.drop_last()) * 10 + digit_val(s.last())
    }
}

/// The canonical decimal numeral of `n`: no leading zero except for `"0"`
/// itself.
pub open spec fn dec_str(n: nat) -> Seq<char>
    decreases n,
    when true
    via dec_str_decreases
{
    if n < 10 {
        seq![digit_char(n)]
    } else {
        dec_str(n / 10).push(digit_char(n % 10))
    }
}

#[via_fn]
proof fn dec_str_decreases(n: nat) {
    if n >= 10 {
        lemma_fundamental_div_mod(n as int, 10);
    }
}

/// A digit string in canonical form: nonempty, and without a leading zero
/// unless it is exactly `"0"`.
pub open spec fn canonical_num(s: Seq<char>) -> bool {
    &&& all_digits(s)
    &&& s.len() > 0
    &&& (s.len() == 1 || s[0] != '0')
}

/// A digit string that denotes a `u64`: canonical and within range.
pub open spec fn valid_u64_str(s: Seq<char>) -> bool {
    canonical_num(s) && num_val(s) <= u64::MAX
}

/// `digit_char` and `digit_val` invert each other on the digits.
pub proof fn lemma_digit_round_trip(c: char)
    requires
        is_digit(c),
    ensures
        digit_char(digit_val(c)) == c,
        digit_val(c) < 10,
{
}

/// `digit_val` and `digit_char` invert each other on values below ten.
pub proof fn lemma_digit_char_round_trip(d: nat)
    requires
        d < 10,
    ensures
        digit_val(digit_char(d)) == d,
        is_digit(digit_char(d)),
{
}

/// The canonical numeral of any number is itself a canonical digit string.
pub proof fn lemma_dec_str_canonical(n: nat)
    ensures
        canonical_num(dec_str(n)),
        n >= 10 ==> dec_str(n).len() >= 2,
    decreases n,
{
    if n < 10 {
        assert(dec_str(n) =~= seq![digit_char(n)]);
    } else {
        lemma_fundamental_div_mod(n as int, 10);
        lemma_dec_str_canonical(n / 10);
        let p = dec_str(n / 10);
        assert(dec_str(n) =~= p.push(digit_char(n % 10)));
        assert(n / 10 >= 1);
        assert(p[0] != '0') by {
            if p.len() == 1 {
                assert(p[0] == digit_char(n / 10));
            }
        }
    }
}

/// Reading the canonical numeral of `n` back gives `n`.
pub proof fn lemma_num_val_dec_str(n: nat)
    ensures
        num_val(dec_str(n)) == n,
    decreases n,
{
    if n < 10 {
        let s = dec_str(n);
        lemma_digit_char_round_trip(n);
        assert(s =~= seq![digit_char(n)]);
        assert(s.drop_last() =~= Seq::<char>::empty());
        assert(s.last() == digit_char(n));
        assert(num_val(s) == num_val(s.drop_last()) * 10 + digit_val(s.last()));
        assert(num_val(dec_str(n)) == n);
    } else {
        lemma_fundamental_div_mod(n as int, 10);
        lemma_num_val_dec_str(n / 10);
        lemma_digit_char_round_trip(n % 10);
        let p = dec_str(n / 10);
        let s = p.push(digit_char(n % 10));
        assert(s.drop_last() =~= p);
        assert(num_val(s) == num_val(p) * 10 + digit_val(digit_char(n % 10)));
    }
}

/// A canonical digit string with a nonzero first digit denotes at least one.
proof fn lemma_num_val_positive(s: Seq<char>)
    requires
        all_digits(s),
        s.len() > 0,
        s[0] != '0',
    ensures
        num_val(s) >= 1,
    decreases s.len(),
{
    if s.len() == 1 {
        assert(s.drop_last() =~= Seq::<char>::empty());
        assert(digit_val(s[0]) >= 1);
    } else {
        lemma_num_val_positive(s.drop_last());
    }
}

/// Each number has exactly one canonical numeral: reading a canonical digit
/// string and printing the value again gives the same string back.
pub proof fn lemma_dec_str_num_val(s: Seq<char>)
    requires
        canonical_num(s),
    ensures
        dec_str(num_val(s)) == s,
    decreases s.len(),
{
    if s.len() == 1 {
        assert(s.drop_last() =~= Seq::<char>::empty());
        assert(num_val(Seq::<char>::empty()) == 0);
        assert(num_val(s) == digit_val(s[0]));
        lemma_digit_round_trip(s[0]);
        assert(dec_str(num_val(s)) =~= s);
    } else {
        let p = s.drop_last();
        let d = s.last();
        assert(all_digits(p));
        lemma_num_val_positive(p);
        lemma_digit_round_trip(d);
        assert(num_val(s) == num_val(p) * 10 + digit_val(d));
        assert(num_val(s) >= 10);
        lemma_fundamental_div_mod_converse(
            num_val(s) as int,
            10,
            num_val(p) as int,
            digit_val(d) as int,
        );
        lemma_dec_str_num_val(p);
        assert(dec_str(num_val(s)) =~= dec_str(num_val(p)).push(digit_char(digit_val(d))));
        assert(dec_str(num_val(s)) =~= s);
    }
}

/// The value of a digit string is at least the value of any of its prefixes.
pub proof fn lemma_num_val_prefix_le(s: Seq<char>, k: int)
    requires
        0 <= k <= s.len(),
    ensures
        num_val(s.subrange(0, k)) <= num_val(s),
    decreases s.len(),
{
    if k == s.len() {
        assert(s.subrange(0, k) =~= s);
    } else {
        let p = s.drop_last();
        assert(s.subrange(0, k) =~= p.subrange(0, k));
        lemma_num_val_prefix_le(p, k);
        assert(num_val(s) == num_val(p) * 10 + digit_val(s.last()));
    }
}

/// Whether a character is a decimal digit.
pub fn is_digit_char(c: char) -> (r: bool)
    ensures
        r == is_digit(c),
{
    c == '0' || c == '1' || c == '2' || c == '3' || c == '4' || c == '5' || c == '6' || c == '7'
        || c == '8' || c == '9'
}

/// The numeric value of a digit character.
pub fn digit_value(c: char) -> (d: u64)
    requires
        is_digit(c),
    ensures
        d as nat == digit_val(c),
        d < 10,
{
    if c == '0' {
        0
    } else if c == '1' {
        1
    } else if c == '2' {
        2
    } else if c == '3' {
        3
    } else if c == '4' {
        4
    } else if c == '5' {
        5
    } else if c == '6' {
        6
    } else if c == '7' {
        7
    } else if c == '8' {
        8
    } else {
        9
    }
}

/// The one-character string for a digit value.
fn digit_str(d: u64) -> (r: &'static str)
    requires
        d < 10,
    ensures
        r@ == seq![digit_char(d as nat)],
{
    if d == 0 {
        proof {
            reveal_strlit("0");
            assert("0"@ =~= seq![digit_char(0nat)]);
        }
        "0"
    } else if d == 1 {
        proof {
            reveal_strlit("1");
            assert("1"@ =~= seq![digit_char(1nat)]);
        }
        "1"
    } else if d == 2 {
        proof {
            reveal_strlit("2");
            assert("2"@ =~= seq![digit_char(2nat)]);
        }
        "2"
    } else if d == 3 {
        proof {
            reveal_strlit("3");
            assert("3"@ =~= seq![digit_char(3nat)]);
        }
        "3"
    } else if d == 4 {
        proof {
            reveal_strlit("4");
            assert("4"@ =~= seq![digit_char(4nat)]);
        }
        "4"
    } else if d == 5 {
        proof {
            reveal_strlit("5");
            assert("5"@ =~= seq![digit_char(5nat)]);
        }
        "5"
    } else if d == 6 {
        proof {
            reveal_strlit("6");
            assert("6"@ =~= seq![digit_char(6nat)]);
        }
        "6"
    } else if d == 7 {
        proof {
            reveal_strlit("7");
            assert("7"@ =~= seq![digit_char(7nat)]);
        }
        "7"
    } else if d == 8 {
        proof {
            reveal_strlit("8");
            assert("8"@ =~= seq![digit_char(8nat)]);
        }
        "8"
    } else {
        proof {
            reveal_strlit("9");
            assert("9"@ =~= seq![digit_char(9nat)]);
        }
        "9"
    }
}

/// The canonical decimal text of a `u64`.
pub fn u64_to_string(n: u64) -> (r: String)
    ensures
        r@ == dec_str(n as nat),
    decreases n,
{
    if n < 10 {
        String::from_str(digit_str(n))
    } else {
        proof {
            lemma_fundamental_div_mod(n as int, 10);
        }
        let mut s = u64_to_string(n / 10);
        let d = digit_str(n % 10);
        s.append(d);
        proof {
            assert(dec_str((n / 10) as nat).push(digit_char((n % 10) as nat)) =~= dec_str(
                (n / 10) as nat,
            ) + seq![digit_char((n % 10) as nat)]);
        }
        s
    }
}

/// Reads the characters `start .. end` of `s` as an unsigned decimal number.
/// Succeeds exactly when the range is a nonempty run of digits whose value
/// fits in a `u64`; leading zeros are allowed here.
pub fn scan_u64(s: &str, start: usize, end: usize) -> (r: Option<u64>)
    requires
        start <= end <= s@.len(),
    ensures
        r is Some <==> (start < end && all_digits(s@.subrange(start as int, end as int)) && num_val(
            s@.subrange(start as int, end as int),
        ) <= u64::MAX),
        r matches Some(v) ==> v as nat == num_val(s@.subrange(start as int, end as int)),
{
    let ghost whole = s@.subrange(start as int, end as int);
    if start == end {
        return None;
    }
    let mut acc: u64 = 0;
    let mut i: usize = start;
    while i < end
        invariant
            start <= i <= end <= s@.len(),
            all_digits(s@.subrange(start as int, i as int)),
            acc as nat == num_val(s@.subrange(start as int, i as int)),
            whole == s@.subrange(start as int, end as int),
        decreases end - i,
    {
        let ghost seen = s@.subrange(start as int, i as int);
        let c = s.get_char(i);
        if !is_digit_char(c) {
            proof {
                assert(whole[i - start] == c);
            }
            return None;
        }
        let d = digit_value(c);
        if acc > (u64::MAX - d) / 10 {
            proof {
                lemma_fundamental_div_mod((u64::MAX - d) as int, 10);
                let ext = s@.subrange(start as int, i + 1);
                assert(ext.drop_last() =~= seen);
                assert(ext.last() == c);
                assert(num_val(ext) == num_val(seen) * 10 + digit_val(c));
                assert(num_val(ext) > u64::MAX);
                lemma_num_val_prefix_le(whole, i + 1 - start);
                assert(whole.subrange(0, i + 1 - start) =~= ext);
            }
            return None;
        }
        proof {
            lemma_fundamental_div_mod((u64::MAX - d) as int, 10);
        }
        acc = acc * 10 + d;
        proof {
            let ext = s@.subrange(start as int, i + 1);
            assert(ext.drop_last() =~= seen);
            assert(ext.last() == c);
        }
        i += 1;
    }
    proof {
        assert(s@.subrange(start as int, i as int) =~= whole);
    }
    Some(acc)
}

/// The `i64` a decimal string denotes, if any: an optional sign followed by
/// at least one digit (leading zeros allowed), with the value in range.
pub open spec fn i64_of(s: Seq<char>) -> Option<int> {
    let signed = s.len() > 0 && (s[0] == '+' || s[0] == '-');
    let ds = if signed {
        s.subrange(1, s.len() as int)
    } else {
        s
    };
    let neg = s.len() > 0 && s[0] == '-';
    if ds.len() > 0 && all_digits(ds) {
        let v = num_val(ds) as int;
        if neg && -v >= i64::MIN {
            Some(-v)
        } else if !neg && v <= i64::MAX {
            Some(v)
        } else {
            None
        }
    } else {
        None
    }
}

/// Reads the characters `start .. end` of `s` as a signed decimal `i64`,
/// exactly as `i64_of` describes.
pub fn scan_i64(s: &str, start: usize, end: usize) -> (r: Option<i64>)
    requires
        start <= end <= s@.len(),
    ensures
        match r {
            Some(t) => i64_of(s@.subrange(start as int, end as int)) == Some(t as int),
            None => i64_of(s@.subrange(start as int, end as int)) is None,
        },
{
    let ghost whole = s@.subrange(start as int, end as int);
    if start == end {
        return None;
    }
    let c0 = s.get_char(start);
    proof {
        assert(whole[0] == c0);
    }
    let neg = c0 == '-';
    let dstart = if c0 == '-' || c0 == '+' {
        start + 1
    } else {
        start
    };
    proof {
        if c0 == '-' || c0 == '+' {
            assert(whole.subrange(1, whole.len() as int) =~= s@.subrange(
                dstart as int,
                end as int,
            ));
        }
    }
    let ghost ds = s@.subrange(dstart as int, end as int);
    match scan_u64(s, dstart, end) {
        Some(v) => {
            if neg {
                if v <= 9223372036854775807u64 {
                    Some(-(v as i64))
                } else if v == 9223372036854775808u64 {
                    Some(i64::MIN)
                } else {
                    None
                }
            } else {
                if v <= 9223372036854775807u64 {
                    Some(v as i64)
                } else {
                    None
                }
            }
        },
        None => {
            proof {
                if ds.len() > 0 && all_digits(ds) {
                    assert(num_val(ds) > u64::MAX);
                }
            }
            None
        },
    }
}

} // verus!
