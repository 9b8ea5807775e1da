//! Characters, digits and decimal numerals: the spec-level vocabulary
//! for everything in the wire format that is made of text, and the
//! executable helpers that move between `str`, character vectors and
//! numbers.

use vstd::prelude::*;

verus! {

/// Relies on `String::push`: appends the given character to the end of
/// the string.
#[verifier::external_body]
fn push_char(s: &mut String, c: char)
    ensures
        final(s)@ == old(s)@.push(c),
{
    s.push(c);
}

/// The characters of `s`, as a vector with constant-time access.
pub fn str_to_chars(s: &str) -> (r: Vec<char>)
    ensures
        r@ == s@,
{
    let n = s.unicode_len();
    let mut r: Vec<char> = Vec::new();
    for i in 0..n
        invariant
            n == s@.len(),
            r@ == s@.subrange(0, i as int),
    {
        r.push(s.get_char(i));
        proof {
            assert(r@ =~= s@.subrange(0, i + 1));
        }
    }
    proof {
        assert(r@ =~= s@);
    }
    r
}

/// The string holding exactly the characters of `v`.
pub fn chars_to_string(v: &Vec<char>) -> (r: String)
    ensures
        r@ == v@,
{
    let mut r = String::new();
    let n = v.len();
    for i in 0..n
        invariant
            n == v@.len(),
            r@ == v@.subrange(0, i as int),
    {
        push_char(&mut r, v[i]);
        proof {
            assert(r@ =~= v@.subrange(0, i + 1));
        }
    }
    proof {
        assert(r@ =~= v@);
    }
    r
}

/// A decimal digit.
pub open spec fn is_digit(c: char) -> bool {
    48 <= c as int <= 57
}

/// The value of a decimal digit.
pub open spec fn digit_val(c: char) -> int {
    c as int - 48
}

/// The digit character for a value in `0..10`.
pub open spec fn digit_char(d: int) -> char {
    (d + 48) as char
}

/// A digit character is a digit and reads back to its value.
pub proof fn lemma_digit_char(d: int)
    requires
        0 <= d <= 9,
    ensures
        is_digit(digit_char(d)),
        digit_val(digit_char(d)) == d,
{
    assert((d + 48) as char as int == d + 48);
}

/// Every character of `s` is a decimal digit.
pub open spec fn all_digits(s: Seq<char>) -> bool {
    forall|i: int| 0 <= i < s.len() ==> is_digit(#[trigger] s[i])
}

/// The value of a string of decimal digits, most significant first.
pub open spec fn digits_val(s: Seq<char>) -> int
    decreases s.len(),
{
    if s.len() == 0 {
        0
    } else {
        digits_val(s.drop_last()) * 10 + digit_val(s.last())
    }
}

/// The decimal numeral of `n`: no sign, no leading zero except for the
/// numeral `0` itself.
pub open spec fn dec_digits(n: int) -> Seq<char>
    decreases n,
{
    if n < 10 {
        seq![digit_char(if n >= 0 {
            n
        } else {
            0
        })]
    } else {
        dec_digits(n / 10).push(digit_char(n % 10))
    }
}

/// Law of the numeral: the decimal numeral of `n` is all digits, reads
/// back to `n`, and never starts with a superfluous zero.
pub proof fn lemma_dec_digits_val(n: int)
    requires
        n >= 0,
    ensures
        all_digits(dec_digits(n)),
        digits_val(dec_digits(n)) == n,
        dec_digits(n).len() >= 1,
        dec_digits(n)[0] == '0' ==> n == 0,
        n > 0 ==> dec_digits(n)[0] != '0',
    decreases n,
{
    if n < 10 {
        assert(dec_digits(n) =~= seq![digit_char(n)]);
        assert(digits_val(seq![digit_char(n)]) == digit_val(digit_char(n))) by {
            let one = seq![digit_char(n)];
            assert(one.drop_last() =~= Seq::<char>::empty());
            assert(digits_val(one.drop_last()) == 0);
            assert(one.last() == digit_char(n));
        }
        assert(digit_val(digit_char(n)) == n) by {
            assert(48 <= n + 48 <= 57);
            assert((n + 48) as char as int == n + 48);
        }
    } else {
        lemma_dec_digits_val(n / 10);
        let s = dec_digits(n);
        let p = dec_digits(n / 10);
        assert(s == p.push(digit_char(n % 10)));
        assert(s.drop_last() =~= p);
        assert(digit_val(digit_char(n % 10)) == n % 10) by {
            assert(0 <= n % 10 < 10);
            assert((n % 10 + 48) as char as int == n % 10 + 48);
        }
        assert(digits_val(s) == digits_val(p) * 10 + n % 10);
        assert(n / 10 * 10 + n % 10 == n);
        assert(all_digits(s)) by {
            assert forall|i: int| 0 <= i < s.len() implies is_digit(#[trigger] s[i]) by {
                if i < p.len() {
                    assert(s[i] == p[i]);
                }
            }
        }
        assert(s[0] == p[0]);
        assert(n / 10 > 0);
    }
}

/// Appends the decimal numeral of `n` to `out`.
pub fn push_u64_chars(out: &mut Vec<char>, n: u64)
    ensures
        final(out)@ == old(out)@ + dec_digits(n as int),
    decreases n,
{
    if n < 10 {
        let c = (48 + (n as u8)) as char;
        proof {
            assert(c == digit_char(n as int)) by {
                assert((48 + n) as u8 as char as int == 48 + n);
            }
        }
        out.push(c);
        proof {
            assert(out@ =~= old(out)@ + dec_digits(n as int));
        }
    } else {
        push_u64_chars(out, n / 10);
        let c = (48 + ((n % 10) as u8)) as char;
        proof {
            assert(c == digit_char(n as int % 10)) by {
                assert(n % 10 == n as int % 10);
                assert((48 + (n % 10)) as u8 as char as int == 48 + (n % 10));
            }
        }
        out.push(c);
        proof {
            assert(out@ =~= old(out)@ + dec_digits(n as int));
        }
    }
}

/// What a string of text denotes as an unsigned number: its digits'
/// value, provided it is nonempty and all digits.
pub open spec fn spec_parse_uint(s: Seq<char>) -> Option<int> {
    if s.len() > 0 && all_digits(s) {
        Some(digits_val(s))
    } else {
        None
    }
}

/// What a string of text denotes as a signed number: an optional
/// leading minus sign, then digits.
pub open spec fn spec_parse_int(s: Seq<char>) -> Option<int> {
    if s.len() > 0 && s[0] == '-' {
        match spec_parse_uint(s.subrange(1, s.len() as int)) {
            Some(v) => Some(-v),
            None => None,
        }
    } else {
        spec_parse_uint(s)
    }
}

/// A digit numeral's value grows by a factor ten per digit appended.
proof fn lemma_digits_val_bounds(s: Seq<char>)
    requires
        all_digits(s),
    ensures
        digits_val(s) >= 0,
        s.len() > 0 ==> digits_val(s) >= digit_val(s[0]),
    decreases s.len(),
{
    if s.len() > 0 {
        assert(is_digit(s.last()));
        lemma_digits_val_bounds(s.drop_last());
        if s.len() == 1 {
            assert(s.drop_last().len() == 0);
            assert(digits_val(s) == digit_val(s[0]));
        } else {
            assert(s.drop_last()[0] == s[0]);
            assert(digits_val(s.drop_last()) >= digit_val(s[0]));
            assert(digits_val(s.drop_last()) * 10 >= digits_val(s.drop_last())) by (nonlinear_arith)
                requires
                    digits_val(s.drop_last()) >= 0,
            ;
        }
    }
}

/// The value of one decimal digit character, or `None` for any other
/// character.
pub fn digit_of(c: char) -> (r: Option<u64>)
    ensures
        (match r {
            Some(d) => is_digit(c) && d == digit_val(c),
            None => !is_digit(c),
        }),
{
    match c {
        '0' => Some(0),
        '1' => Some(1),
        '2' => Some(2),
        '3' => Some(3),
        '4' => Some(4),
        '5' => Some(5),
        '6' => Some(6),
        '7' => Some(7),
        '8' => Some(8),
        '9' => Some(9),
        _ => None,
    }
}

/// Parses `s` as an unsigned 64-bit number: `None` on an empty string,
/// a non-digit, or a value that does not fit.
pub fn parse_u64(s: &Vec<char>) -> (r: Option<u64>)
    ensures
        (match spec_parse_uint(s@) {
            Some(v) => if v <= u64::MAX as int {
                r == Some(v as u64)
            } else {
                r is None
            },
            None => r is None,
        }),
        (r matches Some(v) ==> spec_parse_uint(s@) == Some(v as int)),
{
    if s.len() == 0 {
        return None;
    }
    let mut value: u64 = 0;
    let n = s.len();
    for i in 0..n
        invariant
            n == s@.len(),
            all_digits(s@.subrange(0, i as int)),
            value == digits_val(s@.subrange(0, i as int)),
    {
        let c = s[i];
        let d = match digit_of(c) {
            Some(d) => d,
            None => {
                proof {
                    assert(!is_digit(s@[i as int]));
                    assert(spec_parse_uint(s@) is None);
                }
                return None;
            },
        };
        proof {
            assert(s@.subrange(0, i + 1).drop_last() =~= s@.subrange(0, i as int));
            assert(s@.subrange(0, i + 1).last() == s@[i as int]);
            assert(is_digit(s@[i as int]));
            let q = s@.subrange(0, i + 1);
            assert forall|k: int| 0 <= k < q.len() implies is_digit(#[trigger] q[k]) by {
                if k < i as int {
                    assert(q[k] == s@.subrange(0, i as int)[k]);
                } else {
                    assert(q[k] == s@[i as int]);
                }
            }
        }
        if value > (u64::MAX - d) / 10 {
            proof {
                let p = s@.subrange(0, i + 1);
                assert(digits_val(p) == value * 10 + d);
                assert(digits_val(p) > u64::MAX as int) by (nonlinear_arith)
                    requires
                        digits_val(p) == value * 10 + d,
                        value > (u64::MAX - d) / 10,
                        0 <= d <= 9,
                        value <= u64::MAX,
                ;
                lemma_prefix_val_bound(s@, i + 1);
            }
            return None;
        }
        value = value * 10 + d;
        proof {
            assert(value == digits_val(s@.subrange(0, i + 1)));
        }
    }
    proof {
        assert(s@.subrange(0, n as int) =~= s@);
    }
    Some(value)
}

/// A longer digit string never denotes a smaller value.
proof fn lemma_prefix_val_bound(s: Seq<char>, i: int)
    requires
        0 < i <= s.len(),
        all_digits(s.subrange(0, i)),
    ensures
        all_digits(s) ==> digits_val(s) >= digits_val(s.subrange(0, i)),
    decreases s.len() - i,
{
    if all_digits(s) {
        if i == s.len() {
            assert(s.subrange(0, i) =~= s);
        } else {
            lemma_prefix_val_bound(s, i + 1);
            let p = s.subrange(0, i);
            let q = s.subrange(0, i + 1);
            assert(q.drop_last() =~= p);
            assert(is_digit(q.last()));
            lemma_digits_val_bounds(p);
            assert(digits_val(q) == digits_val(p) * 10 + digit_val(q.last()));
            assert(digits_val(p) * 10 >= digits_val(p)) by (nonlinear_arith)
                requires
                    digits_val(p) >= 0,
            ;
            assert(all_digits(q)) by {
                assert(forall|k: int| 0 <= k < q.len() ==> q[k] == #[trigger] s[k]);
            }
        }
    }
}

/// Parses `s` as a signed 64-bit number with an optional leading
/// minus sign; `None` when malformed or out of range.
pub fn parse_i64(s: &Vec<char>) -> (r: Option<i64>)
    ensures
        (match spec_parse_int(s@) {
            Some(v) => if i64::MIN as int <= v <= i64::MAX as int {
                r == Some(v as i64)
            } else {
                r is None
            },
            None => r is None,
        }),
{
    if s.len() == 0 {
        return None;
    }
    if s[0] == '-' {
        let mut rest: Vec<char> = Vec::new();
        let n = s.len();
        proof {
            assert(rest@ =~= s@.subrange(1, 1));
        }
        for i in 1..n
            invariant
                n == s@.len(),
                rest@ == s@.subrange(1, i as int),
        {
            rest.push(s[i]);
            proof {
                assert(rest@ =~= s@.subrange(1, i + 1));
            }
        }
        proof {
            assert(rest@ =~= s@.subrange(1, n as int));
        }
        match parse_u64(&rest) {
            Some(v) => {
                proof {
                    assert(spec_parse_uint(rest@) == Some(v as int));
                    assert(spec_parse_int(s@) == Some(-(v as int)));
                }
                if v <= 9223372036854775808u64 {
                    if v == 9223372036854775808u64 {
                        proof {
                            assert(-(v as int) == i64::MIN as int);
                        }
                        Some(i64::MIN)
                    } else {
                        let w = -(v as i64);
                        proof {
                            assert(w as int == -(v as int));
                        }
                        Some(w)
                    }
                } else {
                    proof {
                        assert(-(v as int) < i64::MIN as int);
                    }
                    None
                }
            },
            None => {
                proof {
                    assert(match spec_parse_uint(rest@) {
                        Some(v) => v > u64::MAX as int,
                        None => true,
                    });
                }
                None
            },
        }
    } else {
        match parse_u64(s) {
            Some(v) => {
                if v <= i64::MAX as u64 {
                    Some(v as i64)
                } else {
                    None
                }
            },
            None => None,
        }
    }
}

} // verus!
