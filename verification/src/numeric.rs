use vstd::prelude::*;

verus! {

// ---------------------------------------------------------------------------
// Decimal numerals. The stake ledger stores amounts and timestamps as plain
// base-ten text, so the codec needs an exact account of what a numeral means:
// `dec_digits` is the canonical numeral of a number, `dec_val` the number a
// digit string denotes, and the two invert each other.
// ---------------------------------------------------------------------------

/// Is `c` one of the ten decimal digits?
pub open spec fn is_digit(c: char) -> bool {
    48 <= c as int <= 57
}

/// The numeric value of one digit.
pub open spec fn digit_val(c: char) -> int {
    c as int - 48
}

/// The digit character for a value below ten.
pub open spec fn digit_char(d: int) -> char {
    if d == 0 {
        '0'
    } else if d == 1 {
        '1'
    } else if d == 2 {
        '2'
    } else if d == 3 {
        '3'
    } else if d == 4 {
        '4'
    } else if d == 5 {
        '5'
    } else if d == 6 {
        '6'
    } else if d == 7 {
        '7'
    } else if d == 8 {
        '8'
    } else {
        '9'
    }
}

/// Every character is a digit.
pub open spec fn all_digits(s: Seq<char>) -> bool {
    forall|i: int| 0 <= i < s.len() ==> is_digit(#[trigger] s[i])
}

/// The canonical decimal numeral of `n`: no sign, no leading zero except for
/// zero itself.
pub open spec fn dec_digits(n: nat) -> Seq<char>
    decreases n,
{
    if n < 10 {
        seq![digit_char(n as int)]
    } else {
        dec_digits(n / 10).push(digit_char((n % 10) as int))
    }
}

/// The number a digit string denotes, read left to right.
pub open spec fn dec_val(s: Seq<char>) -> int
    decreases s.len(),
{
    if s.len() == 0 {
        0
    } else {
        dec_val(s.drop_last()) * 10 + digit_val(s.last())
    }
}

/// What parsing a string as an unsigned number of ceiling `max` yields:
/// the denoted value when the string is a non-empty digit string whose value
/// fits, nothing otherwise.
pub open spec fn spec_parse_dec(s: Seq<char>, max: int) -> Option<int> {
    if s.len() > 0 && all_digits(s) && dec_val(s) <= max {
        Some(dec_val(s))
    } else {
        None
    }
}

pub proof fn lemma_digit_char_val(d: int)
    requires
        0 <= d <= 9,
    ensures
        is_digit(digit_char(d)),
        digit_val(digit_char(d)) == d,
{
}

/// A canonical numeral consists of digits alone.
pub proof fn lemma_dec_digits_all_digits(n: nat)
    ensures
        all_digits(dec_digits(n)),
        dec_digits(n).len() > 0,
    decreases n,
{
    if n < 10 {
        lemma_digit_char_val(n as int);
    } else {
        lemma_dec_digits_all_digits(n / 10);
        lemma_digit_char_val((n % 10) as int);
        let s = dec_digits(n / 10);
        assert forall|i: int| 0 <= i < s.push(digit_char((n % 10) as int)).len() implies is_digit(
            #[trigger] s.push(digit_char((n % 10) as int))[i],
        ) by {
            if i < s.len() {
                assert(s.push(digit_char((n % 10) as int))[i] == s[i]);
            }
        }
    }
}

/// Reading back the canonical numeral of `n` gives `n`.
pub proof fn lemma_dec_digits_val(n: nat)
    ensures
        dec_val(dec_digits(n)) == n,
    decreases n,
{
    if n < 10 {
        lemma_digit_char_val(n as int);
        let s = dec_digits(n);
        assert(s.drop_last() =~= Seq::<char>::empty());
        assert(s.last() == digit_char(n as int));
        assert(dec_val(Seq::<char>::empty()) == 0);
        assert(dec_val(s) == dec_val(s.drop_last()) * 10 + digit_val(s.last()));
    } else {
        lemma_dec_digits_val(n / 10);
        lemma_digit_char_val((n % 10) as int);
        let s = dec_digits(n / 10).push(digit_char((n % 10) as int));
        assert(s.drop_last() =~= dec_digits(n / 10));
        assert(dec_val(s) == dec_val(dec_digits(n / 10)) * 10 + (n % 10));
        assert(n / 10 * 10 + n % 10 == n) by (nonlinear_arith);
    }
}

/// A digit string denotes a non-negative number.
pub proof fn lemma_dec_val_nonneg(s: Seq<char>)
    requires
        all_digits(s),
    ensures
        dec_val(s) >= 0,
    decreases s.len(),
{
    if s.len() > 0 {
        assert(all_digits(s.drop_last())) by {
            assert forall|i: int| 0 <= i < s.drop_last().len() implies is_digit(
                #[trigger] s.drop_last()[i],
            ) by {
                assert(s.drop_last()[i] == s[i]);
            }
        }
        lemma_dec_val_nonneg(s.drop_last());
        assert(dec_val(s.drop_last()) * 10 >= 0) by (nonlinear_arith)
            requires
                dec_val(s.drop_last()) >= 0,
        ;
    }
}

/// Extending a digit string never shrinks its value: the whole string
/// denotes at least what any prefix denotes.
pub proof fn lemma_dec_val_prefix_le(s: Seq<char>, j: int)
    requires
        all_digits(s),
        0 <= j <= s.len(),
    ensures
        dec_val(s.take(j)) <= dec_val(s),
    decreases s.len() - j,
{
    if j < s.len() {
        let t = s.take(j + 1);
        assert(t.drop_last() =~= s.take(j));
        assert(all_digits(s.take(j))) by {
            assert forall|i: int| 0 <= i < s.take(j).len() implies is_digit(
                #[trigger] s.take(j)[i],
            ) by {
                assert(s.take(j)[i] == s[i]);
            }
        }
        lemma_dec_val_nonneg(s.take(j));
        assert(is_digit(s[j]));
        assert(dec_val(t) == dec_val(s.take(j)) * 10 + digit_val(s[j]));
        assert(dec_val(s.take(j)) * 10 >= dec_val(s.take(j))) by (nonlinear_arith)
            requires
                dec_val(s.take(j)) >= 0,
        ;
        lemma_dec_val_prefix_le(s, j + 1);
        assert(s.take(s.len() as int) =~= s);
    } else {
        assert(s.take(j) =~= s);
    }
}

// ---------------------------------------------------------------------------
// Executable conversions
// ---------------------------------------------------------------------------

fn digit_str(d: u128) -> (s: &'static str)
    requires
        d < 10,
    ensures
        s@ == seq![digit_char(d as int)],
{
    proof {
        reveal_strlit("0");
        reveal_strlit("1");
        reveal_strlit("2");
        reveal_strlit("3");
        reveal_strlit("4");
        reveal_strlit("5");
        reveal_strlit("6");
        reveal_strlit("7");
        reveal_strlit("8");
        reveal_strlit("9");
    }
    let s: &'static str = if d == 0 {
        "0"
    } else if d == 1 {
        "1"
    } else if d == 2 {
        "2"
    } else if d == 3 {
        "3"
    } else if d == 4 {
        "4"
    } else if d == 5 {
        "5"
    } else if d == 6 {
        "6"
    } else if d == 7 {
        "7"
    } else if d == 8 {
        "8"
    } else {
        "9"
    };
    proof {
        assert(s@ =~= seq![digit_char(d as int)]);
    }
    s
}

/// The canonical decimal numeral of `n`.
pub fn u128_to_dec(n: u128) -> (s: String)
    ensures
        s@ == dec_digits(n as nat),
    decreases n,
{
    if n < 10 {
        let s = digit_str(n);
        s.to_owned()
    } else {
        let mut s = u128_to_dec(n / 10);
        s.append(digit_str(n % 10));
        proof {
            assert(s@ =~= dec_digits(n as nat)) by {
                assert(s@ == dec_digits((n / 10) as nat) + seq![
                    digit_char((n % 10) as int),
                ]);
                assert(dec_digits(n as nat) == dec_digits((n / 10) as nat).push(
                    digit_char((n % 10) as int),
                ));
            }
        }
        s
    }
}

/// The canonical decimal numeral of `n`.
pub fn u64_to_dec(n: u64) -> (s: String)
    ensures
        s@ == dec_digits(n as nat),
{
    u128_to_dec(n as u128)
}

/// Parse a decimal numeral that must fit in `u128`.
pub fn parse_u128_str(s: &str) -> (r: Option<u128>)
    ensures
        r matches Some(v) ==> spec_parse_dec(s@, u128::MAX as int) == Some(v as int),
        r is None ==> spec_parse_dec(s@, u128::MAX as int) is None,
{
    let len = s.unicode_len();
    if len == 0 {
        return None;
    }
    let mut acc: u128 = 0;
    let mut i: usize = 0;
    while i < len
        invariant
            0 < len == s@.len(),
            0 <= i <= len,
            all_digits(s@.take(i as int)),
            acc == dec_val(s@.take(i as int)),
        decreases len - i,
    {
        let c = s.get_char(i);
        let u = c as u32;
        if u < 48 || u > 57 {
            proof {
                assert(!is_digit(s@[i as int]));
                assert(!all_digits(s@));
            }
            return None;
        }
        let d: u128 = (u - 48) as u128;
        proof {
            assert(s@.take(i as int + 1).drop_last() =~= s@.take(i as int));
            assert(s@.take(i as int + 1).last() == s@[i as int]);
            assert(all_digits(s@.take(i as int + 1))) by {
                assert forall|j: int| 0 <= j < i + 1 implies is_digit(
                    #[trigger] s@.take(i as int + 1)[j],
                ) by {
                    if j < i {
                        assert(s@.take(i as int + 1)[j] == s@.take(i as int)[j]);
                    }
                }
            }
            assert(dec_val(s@.take(i as int + 1)) == acc * 10 + d);
        }
        if acc > (u128::MAX - d) / 10 {
            proof {
                assert(acc * 10 + d > u128::MAX) by (nonlinear_arith)
                    requires
                        acc > (u128::MAX - d) / 10,
                        0 <= d <= 9,
                        acc >= 0,
                ;
                if all_digits(s@) {
                    lemma_dec_val_prefix_le(s@, i as int + 1);
                    assert(dec_val(s@) > u128::MAX);
                }
            }
            return None;
        }
        proof {
            assert(acc * 10 + d <= u128::MAX) by (nonlinear_arith)
                requires
                    acc <= (u128::MAX - d) / 10,
                    0 <= d <= 9,
                    acc >= 0,
            ;
        }
        acc = acc * 10 + d;
        i += 1;
    }
    proof {
        assert(s@.take(len as int) =~= s@);
    }
    Some(acc)
}

/// Parse a decimal numeral that must fit in `u64`.
pub fn parse_u64_str(s: &str) -> (r: Option<u64>)
    ensures
        r matches Some(v) ==> spec_parse_dec(s@, u64::MAX as int) == Some(v as int),
        r is None ==> spec_parse_dec(s@, u64::MAX as int) is None,
{
    match parse_u128_str(s) {
        Some(v) => {
            if v <= u64::MAX as u128 {
                Some(v as u64)
            } else {
                None
            }
        },
        None => None,
    }
}

} // verus!
