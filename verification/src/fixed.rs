//! Fixed-point metric values and the numeric-field parsing policy.
//!
//! A metric is stored in thousandths of a unit. A field parses when it is a
//! plain decimal numeral: an optional sign, then digits with at most one
//! decimal point and at least one digit. Fractional digits beyond the third
//! are truncated. Any other field, and any numeral whose magnitude exceeds
//! [`crate::model::MAX_RAW_METRIC`] thousandths, takes the default value
//! instead; the substitution is a value, never an error.

use vstd::prelude::*;

use crate::model::MAX_RAW_METRIC;

verus! {

/// Whether a character is a decimal digit.
pub open spec fn is_digit(c: char) -> bool {
    48 <= c as u32 <= 57
}

/// The numeric value of a decimal digit.
pub open spec fn digit_val(c: char) -> int {
    c as u32 - 48
}

/// Whether every character of `s` is a decimal digit.
pub open spec fn all_digits(s: Seq<char>) -> bool {
    forall|i: int| 0 <= i < s.len() ==> is_digit(#[trigger] s[i])
}

/// The value of a digit string read in base ten; zero when empty.
pub open spec fn digits_val(s: Seq<char>) -> int
    decreases s.len(),
{
    if s.len() == 0 {
        0
    } else {
        digits_val(s.drop_last()) * 10 + digit_val(s.last())
    }
}

/// The value of a fractional digit string in thousandths: the first three
/// digits, right-padded with zeros.
pub open spec fn frac_val(s: Seq<char>) -> int {
    if s.len() >= 3 {
        digits_val(s.take(3))
    } else if s.len() == 2 {
        digits_val(s) * 10
    } else if s.len() == 1 {
        digits_val(s) * 100
    } else {
        0
    }
}

/// The index of the first occurrence of `c` in `s`, if any.
pub open spec fn find_char(s: Seq<char>, c: char) -> Option<int>
    decreases s.len(),
{
    if s.len() == 0 {
        None
    } else if s[0] == c {
        Some(0int)
    } else {
        match find_char(s.drop_first(), c) {
            Some(i) => Some(i + 1),
            None => None,
        }
    }
}

/// The sign of a numeral and the part after the sign character, if any.
pub open spec fn split_sign(s: Seq<char>) -> (int, Seq<char>) {
    if s.len() > 0 && s[0] == '-' {
        (-1int, s.drop_first())
    } else if s.len() > 0 && s[0] == '+' {
        (1int, s.drop_first())
    } else {
        (1int, s)
    }
}

/// The integer and fractional digit strings of an unsigned numeral, split
/// at the first decimal point.
pub open spec fn numeral_parts(s: Seq<char>) -> (Seq<char>, Seq<char>) {
    match find_char(s, '.') {
        Some(i) => (s.take(i), s.skip(i + 1)),
        None => (s, Seq::<char>::empty()),
    }
}

/// Whether `s` is a plain decimal numeral: an optional sign, then digits
/// with at most one decimal point and at least one digit.
pub open spec fn is_plain_numeral(s: Seq<char>) -> bool {
    let (_, m) = split_sign(s);
    let (ip, fp) = numeral_parts(m);
    all_digits(ip) && all_digits(fp) && ip.len() + fp.len() > 0
}

/// The value of a plain decimal numeral in thousandths, the fraction
/// truncated after its third digit.
pub open spec fn numeral_val(s: Seq<char>) -> int {
    let (sign, m) = split_sign(s);
    let (ip, fp) = numeral_parts(m);
    sign * (digits_val(ip) * 1000 + frac_val(fp))
}

/// What a metric field yields: the numeral's value in thousandths when the
/// field is a plain decimal numeral of magnitude at most
/// [`MAX_RAW_METRIC`], and the default value otherwise.
pub open spec fn parse_or_default_spec(s: Seq<char>) -> int {
    if is_plain_numeral(s) && -MAX_RAW_METRIC <= numeral_val(s) <= MAX_RAW_METRIC {
        numeral_val(s)
    } else {
        default_metric_spec()
    }
}

/// The default metric value, in thousandths.
pub open spec fn default_metric_spec() -> int {
    0
}

/// The value substituted for a metric field that does not parse.
pub fn default_metric() -> (r: i64)
    ensures
        r == default_metric_spec(),
{
    0
}

/// The value of every digit string is nonnegative.
pub proof fn lemma_digits_val_nonneg(s: Seq<char>)
    requires
        all_digits(s),
    ensures
        digits_val(s) >= 0,
    decreases s.len(),
{
    if s.len() > 0 {
        assert(all_digits(s.drop_last()));
        lemma_digits_val_nonneg(s.drop_last());
    }
}

/// Extending a digit string on the right never lowers its value.
pub proof fn lemma_digits_val_prefix(s: Seq<char>, k: int)
    requires
        all_digits(s),
        0 <= k <= s.len(),
    ensures
        digits_val(s.take(k)) <= digits_val(s),
    decreases s.len() - k,
{
    if k < s.len() {
        assert(all_digits(s.take(k + 1)));
        assert(s.take(k + 1).drop_last() =~= s.take(k));
        assert(s.take(k + 1).last() == s[k]);
        lemma_digits_val_nonneg(s.take(k));
        lemma_digits_val_prefix(s, k + 1);
    } else {
        assert(s.take(k) =~= s);
    }
}

/// The value of a fractional digit string is nonnegative.
pub proof fn lemma_frac_val_nonneg(s: Seq<char>)
    requires
        all_digits(s),
    ensures
        frac_val(s) >= 0,
{
    if s.len() >= 3 {
        assert(all_digits(s.take(3)));
        lemma_digits_val_nonneg(s.take(3));
    } else {
        lemma_digits_val_nonneg(s);
    }
}

/// Where the first occurrence of `c` in `s` lies: at the returned index,
/// with none before it; or nowhere at all.
pub proof fn lemma_find_char(s: Seq<char>, c: char)
    ensures
        match find_char(s, c) {
            Some(i) => 0 <= i < s.len() && s[i] == c && forall|j: int| 0 <= j < i ==> s[j] != c,
            None => forall|j: int| 0 <= j < s.len() ==> s[j] != c,
        },
    decreases s.len(),
{
    if s.len() > 0 && s[0] != c {
        lemma_find_char(s.drop_first(), c);
        assert forall|j: int| 1 <= j < s.len() implies s[j] == s.drop_first()[j - 1] by {}
    }
}

/// Reads a metric field. Returns the numeral's value in thousandths when
/// the field is a plain decimal numeral of magnitude at most
/// [`MAX_RAW_METRIC`] thousandths, and the default value otherwise.
#[verifier::loop_isolation(false)]
#[verifier::rlimit(40)]
pub fn parse_or_default(s: &Vec<char>) -> (r: i64)
    ensures
        r == parse_or_default_spec(s@),
        -MAX_RAW_METRIC <= r <= MAX_RAW_METRIC,
{
    let ghost m = split_sign(s@).1;
    let ghost ip = numeral_parts(m).0;
    let ghost fp = numeral_parts(m).1;
    proof {
        lemma_find_char(m, '.');
    }
    let n = s.len();
    let mut idx: usize = 0;
    let mut neg = false;
    if n > 0 {
        let c0 = s[0];
        if c0 == '-' {
            neg = true;
            idx = 1;
        } else if c0 == '+' {
            idx = 1;
        }
    }
    assert(m =~= s@.skip(idx as int));
    assert(split_sign(s@).0 == if neg { -1int } else { 1int });

    let mut i = idx;
    let mut ip_val: i64 = 0;
    assert(s@.subrange(idx as int, idx as int) =~= Seq::<char>::empty());
    while i < n && s[i] != '.'
        invariant
            idx <= i <= n,
            n == s@.len(),
            idx <= 1,
            m == s@.skip(idx as int),
            forall|j: int| idx <= j < i ==> is_digit(#[trigger] s@[j]) && s@[j] != '.',
            ip_val == digits_val(s@.subrange(idx as int, i as int)),
            0 <= ip_val <= 9_999_999_999,
        decreases n - i,
    {
        let c = s[i];
        let u = c as u32;
        if !(48 <= u && u <= 57) {
            // A character of the integer part is no digit: the field is no
            // plain numeral, so it takes the default.
            proof {
                if is_plain_numeral(s@) {
                    assert(ip.len() > i - idx && ip[i - idx] == s@[i as int]) by {
                        match find_char(m, '.') {
                            Some(k) => {
                                assert(m[i - idx] == s@[i as int]);
                                assert(m[i - idx] != '.');
                                assert(k > i - idx) by {
                                    if k <= i - idx {
                                        assert(s@[k + idx] == m[k]);
                                    }
                                }
                            },
                            None => {
                                assert(m[i - idx] == s@[i as int]);
                            },
                        }
                    }
                    assert(is_digit(ip[i - idx]));
                    assert(false);
                }
            }
            return 0;
        }
        let d = (u - 48) as i64;
        assert(is_digit(s@[i as int]) && digit_val(s@[i as int]) == d);
        if ip_val > 999_999_999 {
            // The integer part alone already exceeds the cap, digit by
            // digit: the value is out of range, so the field takes the
            // default.
            proof {
                assert(s@.subrange(idx as int, i + 1).drop_last() =~= s@.subrange(
                    idx as int,
                    i as int,
                ));
                assert(digits_val(s@.subrange(idx as int, i + 1)) == ip_val * 10 + d);
                if is_plain_numeral(s@) {
                    assert(ip.len() >= i + 1 - idx) by {
                        match find_char(m, '.') {
                            Some(k) => {
                                assert(k >= i + 1 - idx) by {
                                    if k < i + 1 - idx {
                                        assert(s@[k + idx] == m[k]);
                                    }
                                }
                            },
                            None => {},
                        }
                    }
                    assert(ip.take(i + 1 - idx) =~= s@.subrange(idx as int, i + 1));
                    lemma_digits_val_prefix(ip, i + 1 - idx);
                    lemma_frac_val_nonneg(fp);
                    assert(digits_val(ip) * 1000 + frac_val(fp) > MAX_RAW_METRIC);
                }
            }
            return 0;
        }
        ip_val = ip_val * 10 + d;
        proof {
            assert(s@.subrange(idx as int, i + 1).drop_last() =~= s@.subrange(
                idx as int,
                i as int,
            ));
        }
        i += 1;
    }

    if i == idx && i == n {
        // No digits at all: the empty field, or a bare sign.
        assert(!is_plain_numeral(s@)) by {
            assert(m.len() == 0);
            assert(ip.len() == 0 && fp.len() == 0);
        }
        return 0;
    }

    if i == n {
        // A numeral without a decimal point.
        proof {
            assert(find_char(m, '.') is None) by {
                if let Some(k) = find_char(m, '.') {
                    assert(s@[k + idx] == m[k]);
                }
            }
            assert(ip =~= s@.subrange(idx as int, n as int));
            assert(all_digits(ip));
            assert(is_plain_numeral(s@));
            assert(numeral_val(s@) == split_sign(s@).0 * (ip_val * 1000 + frac_val(fp)));
            assert(frac_val(fp) == 0);
        }
        let magnitude = ip_val * 1000;
        if magnitude > MAX_RAW_METRIC {
            return 0;
        }
        if neg {
            return -magnitude;
        }
        return magnitude;
    }

    // A decimal point at position `i`: the fraction follows.
    proof {
        assert(m[i - idx] == s@[i as int]);
        assert(find_char(m, '.') == Some(i - idx)) by {
            match find_char(m, '.') {
                Some(k) => {
                    if k < i - idx {
                        assert(s@[k + idx] == m[k]);
                    }
                },
                None => {},
            }
        }
        assert(ip =~= s@.subrange(idx as int, i as int));
        assert(fp =~= s@.subrange(i + 1, n as int));
        assert(all_digits(ip));
    }

    let mut j = i + 1;
    let mut f: i64 = 0;
    assert(fp.take(0) =~= Seq::<char>::empty());
    while j < n
        invariant
            i + 1 <= j <= n,
            n == s@.len(),
            i < n,
            fp =~= s@.subrange(i + 1, n as int),
            forall|j2: int| i + 1 <= j2 < j ==> is_digit(#[trigger] s@[j2]),
            f == digits_val(fp.take(if j - i - 1 <= 3 { j - i - 1 } else { 3 })),
            j - i - 1 == 0 ==> f == 0,
            j - i - 1 == 1 ==> f <= 9,
            j - i - 1 == 2 ==> f <= 99,
            0 <= f <= 999,
        decreases n - j,
    {
        let c = s[j];
        let u = c as u32;
        if !(48 <= u && u <= 57) {
            // A character of the fraction is no digit: no plain numeral.
            proof {
                if is_plain_numeral(s@) {
                    assert(fp[j - i - 1] == s@[j as int]);
                    assert(is_digit(fp[j - i - 1]));
                    assert(false);
                }
            }
            return 0;
        }
        assert(is_digit(s@[j as int]) && digit_val(s@[j as int]) == u - 48);
        if j - i - 1 < 3 {
            let d = (u - 48) as i64;
            proof {
                let k = j - i - 1;
                assert(fp.take(k + 1).drop_last() =~= fp.take(k));
                assert(fp.take(k + 1).last() == fp[k] == s@[j as int]);
            }
            f = f * 10 + d;
        }
        j += 1;
    }

    // Pad the fraction to three digits.
    let flen = n - i - 1;
    if flen == 0 && i == idx {
        // A bare decimal point with no digits on either side.
        assert(!is_plain_numeral(s@));
        return 0;
    }
    let frac = if flen >= 3 {
        f
    } else if flen == 2 {
        f * 10
    } else if flen == 1 {
        f * 100
    } else {
        0
    };
    proof {
        if flen >= 3 {
            assert(fp.take(3) =~= fp.take(if flen <= 3 { flen as int } else { 3 }));
        } else {
            assert(fp.take(flen as int) =~= fp);
        }
        assert(frac == frac_val(fp));
        assert(all_digits(fp));
        assert(is_plain_numeral(s@));
        assert(numeral_val(s@) == split_sign(s@).0 * (ip_val * 1000 + frac));
    }
    let magnitude = ip_val * 1000 + frac;
    if magnitude > MAX_RAW_METRIC {
        // In range for the integer part, but the fraction tips it over.
        return 0;
    }
    if neg {
        return -magnitude;
    }
    magnitude
}

} // verus!
