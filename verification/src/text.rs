//! Text utilities: splitting a line on a delimiter, trimming fields, and
//! case-insensitive name comparison.
//!
//! Fields are trimmed of ASCII whitespace and then stripped of any leading
//! and trailing double quotes; names are compared with ASCII letters folded
//! to lower case.

use vstd::prelude::*;

use crate::fixed::find_char;
use crate::fixed::lemma_find_char;

verus! {

/// Whether a character is ASCII whitespace.
pub open spec fn is_space(c: char) -> bool {
    c as u32 == 32 || 9 <= c as u32 <= 13
}

/// Whether a character is a double quote.
pub open spec fn is_quote(c: char) -> bool {
    c == '"'
}

/// The sequence without its longest prefix of characters satisfying `p`.
pub open spec fn drop_front_while(s: Seq<char>, p: spec_fn(char) -> bool) -> Seq<char>
    decreases s.len(),
{
    if s.len() > 0 && p(s[0]) {
        drop_front_while(s.drop_first(), p)
    } else {
        s
    }
}

/// The sequence without its longest suffix of characters satisfying `p`.
pub open spec fn drop_back_while(s: Seq<char>, p: spec_fn(char) -> bool) -> Seq<char>
    decreases s.len(),
{
    if s.len() > 0 && p(s.last()) {
        drop_back_while(s.drop_last(), p)
    } else {
        s
    }
}

/// A field as the row parser cleans it: ASCII whitespace trimmed from both
/// ends, then any leading and trailing double quotes stripped.
pub open spec fn clean_field_spec(s: Seq<char>) -> Seq<char> {
    let t = drop_back_while(drop_front_while(s, |c: char| is_space(c)), |c: char| is_space(c));
    drop_back_while(drop_front_while(t, |c: char| is_quote(c)), |c: char| is_quote(c))
}

/// The chunks of `s` between occurrences of the separator; one more chunk
/// than there are separators, in order.
pub open spec fn split_on(s: Seq<char>, sep: char) -> Seq<Seq<char>>
    decreases s.len(),
{
    if find_char(s, sep) is Some {
        let i = find_char(s, sep).unwrap();
        if 0 <= i < s.len() {
            seq![s.take(i)] + split_on(s.skip(i + 1), sep)
        } else {
            seq![s]
        }
    } else {
        seq![s]
    }
}

/// The cleaned fields of a raw row: the row split on commas, each chunk
/// trimmed and unquoted.
pub open spec fn fields_of(s: Seq<char>) -> Seq<Seq<char>> {
    split_on(s, ',').map(|k: int, f: Seq<char>| clean_field_spec(f))
}

/// An ASCII letter folded to lower case, as a code point.
pub open spec fn fold_char(u: u32) -> u32 {
    if 65 <= u <= 90 {
        (u + 32) as u32
    } else {
        u
    }
}

/// The code points of a string with ASCII letters folded to lower case:
/// the key under which names are matched.
pub open spec fn folded(s: Seq<char>) -> Seq<u32> {
    s.map(|k: int, c: char| fold_char(c as u32))
}

/// Whether a character is ASCII whitespace.
pub fn is_space_char(c: char) -> (r: bool)
    ensures
        r == is_space(c),
{
    let u = c as u32;
    u == 32 || (9 <= u && u <= 13)
}

/// The characters of a string, in order.
pub fn chars_of(s: &str) -> (r: Vec<char>)
    ensures
        r@ == s@,
{
    let n = s.unicode_len();
    let mut r: Vec<char> = Vec::new();
    let mut i: usize = 0;
    while i < n
        invariant
            i <= n,
            n == s@.len(),
            r@ =~= s@.take(i as int),
        decreases n - i,
    {
        let c = s.get_char(i);
        r.push(c);
        proof {
            assert(r@ =~= s@.take(i + 1));
        }
        i += 1;
    }
    proof {
        assert(s@.take(n as int) =~= s@);
    }
    r
}

/// Relies on `String` collecting an iterator of `char`s: the result is
/// exactly the string of those characters, in order.
#[verifier::external_body]
pub(crate) fn chars_to_string(v: &Vec<char>) -> (s: String)
    ensures
        s@ == v@,
{
    v.iter().collect()
}

/// The subrange `[a, b)` of a character vector, trimmed of ASCII
/// whitespace and stripped of leading and trailing double quotes.
#[verifier::loop_isolation(false)]
pub fn clean_range(chars: &Vec<char>, a: usize, b: usize) -> (r: Vec<char>)
    requires
        a <= b <= chars@.len(),
    ensures
        r@ == clean_field_spec(chars@.subrange(a as int, b as int)),
{
    let ghost sp = |c: char| is_space(c);
    let ghost qt = |c: char| is_quote(c);
    let mut lo = a;
    let mut hi = b;
    while lo < hi && is_space_char(chars[lo])
        invariant
            a <= lo <= hi == b,
            drop_front_while(chars@.subrange(a as int, b as int), sp) == drop_front_while(
                chars@.subrange(lo as int, b as int),
                sp,
            ),
        decreases hi - lo,
    {
        proof {
            assert(chars@.subrange(lo as int, b as int).drop_first() =~= chars@.subrange(
                lo + 1,
                b as int,
            ));
        }
        lo += 1;
    }
    assert(drop_front_while(chars@.subrange(a as int, b as int), sp) == chars@.subrange(
        lo as int,
        b as int,
    ));
    while hi > lo && is_space_char(chars[hi - 1])
        invariant
            a <= lo <= hi <= b,
            drop_back_while(chars@.subrange(lo as int, b as int), sp) == drop_back_while(
                chars@.subrange(lo as int, hi as int),
                sp,
            ),
        decreases hi - lo,
    {
        proof {
            assert(chars@.subrange(lo as int, hi as int).drop_last() =~= chars@.subrange(
                lo as int,
                hi - 1,
            ));
        }
        hi -= 1;
    }
    let ghost t = drop_back_while(drop_front_while(chars@.subrange(a as int, b as int), sp), sp);
    assert(t == chars@.subrange(lo as int, hi as int));
    let b2 = hi;
    while lo < hi && chars[lo] == '"'
        invariant
            a <= lo <= hi <= b2 <= b,
            drop_front_while(chars@.subrange(lo as int, b2 as int), qt) == drop_front_while(t, qt),
            hi == b2,
        decreases hi - lo,
    {
        proof {
            assert(chars@.subrange(lo as int, b2 as int).drop_first() =~= chars@.subrange(
                lo + 1,
                b2 as int,
            ));
        }
        lo += 1;
    }
    assert(drop_front_while(t, qt) == chars@.subrange(lo as int, hi as int));
    let ghost t2 = drop_front_while(t, qt);
    while hi > lo && chars[hi - 1] == '"'
        invariant
            a <= lo <= hi <= b,
            drop_back_while(t2, qt) == drop_back_while(chars@.subrange(lo as int, hi as int), qt),
        decreases hi - lo,
    {
        proof {
            assert(chars@.subrange(lo as int, hi as int).drop_last() =~= chars@.subrange(
                lo as int,
                hi - 1,
            ));
        }
        hi -= 1;
    }
    assert(clean_field_spec(chars@.subrange(a as int, b as int)) == chars@.subrange(
        lo as int,
        hi as int,
    ));
    let mut r: Vec<char> = Vec::new();
    let mut k = lo;
    while k < hi
        invariant
            lo <= k <= hi <= chars@.len(),
            r@ =~= chars@.subrange(lo as int, k as int),
        decreases hi - k,
    {
        r.push(chars[k]);
        proof {
            assert(r@ =~= chars@.subrange(lo as int, k + 1));
        }
        k += 1;
    }
    r
}

/// The subrange `[a, b)` of a character vector, copied.
pub fn copy_range(chars: &Vec<char>, a: usize, b: usize) -> (r: Vec<char>)
    requires
        a <= b <= chars@.len(),
    ensures
        r@ == chars@.subrange(a as int, b as int),
{
    let mut r: Vec<char> = Vec::new();
    let mut k = a;
    while k < b
        invariant
            a <= k <= b <= chars@.len(),
            r@ =~= chars@.subrange(a as int, k as int),
        decreases b - k,
    {
        r.push(chars[k]);
        proof {
            assert(r@ =~= chars@.subrange(a as int, k + 1));
        }
        k += 1;
    }
    proof {
        assert(r@ =~= chars@.subrange(a as int, b as int));
    }
    r
}

/// The raw chunks of a character vector between occurrences of the
/// separator, in order.
#[verifier::loop_isolation(false)]
pub fn split_raw(chars: &Vec<char>, sep: char) -> (fs: Vec<Vec<char>>)
    ensures
        fs@.len() == split_on(chars@, sep).len(),
        forall|k: int| 0 <= k < fs@.len() ==> #[trigger] fs@[k]@ == split_on(chars@, sep)[k],
{
    let ghost s = chars@;
    let n = chars.len();
    let mut out: Vec<Vec<char>> = Vec::new();
    let mut start: usize = 0;
    let mut i: usize = 0;
    proof {
        assert(s.skip(0) =~= s);
    }
    while i < n
        invariant
            start <= i <= n,
            forall|j: int| start <= j < i ==> s[j] != sep,
            out@.len() <= split_on(s, sep).len(),
            split_on(s, sep).len() == out@.len() + split_on(s.skip(start as int), sep).len(),
            forall|k: int|
                0 <= k < split_on(s.skip(start as int), sep).len() ==> #[trigger] split_on(
                    s.skip(start as int),
                    sep,
                )[k] == split_on(s, sep)[out@.len() + k],
            forall|k: int|
                0 <= k < out@.len() ==> #[trigger] out@[k]@ == split_on(s, sep)[k],
        decreases n - i,
    {
        if chars[i] == sep {
            proof {
                lemma_find_char(s.skip(start as int), sep);
                assert(s.skip(start as int)[i - start] == s[i as int]);
                match find_char(s.skip(start as int), sep) {
                    Some(p) => {
                        if p < i - start {
                            assert(s[p + start] == s.skip(start as int)[p]);
                        }
                        assert(p == i - start);
                    },
                    None => {
                        assert(false);
                    },
                }
                assert(s.skip(start as int).take(i - start) =~= s.subrange(start as int, i as int));
                assert(s.skip(start as int).skip(i - start + 1) =~= s.skip(i + 1));
                assert(split_on(s.skip(start as int), sep) == seq![
                    s.subrange(start as int, i as int),
                ] + split_on(s.skip(i + 1), sep));
            }
            let chunk = copy_range(chars, start, i);
            proof {
                assert(split_on(s.skip(start as int), sep)[0] == s.subrange(
                    start as int,
                    i as int,
                ));
                assert(split_on(s, sep)[out@.len() as int] == s.subrange(start as int, i as int));
            }
            out.push(chunk);
            let ghost old_start = start as int;
            start = i + 1;
            proof {
                assert forall|k: int|
                    0 <= k < split_on(s.skip(start as int), sep).len() implies #[trigger] split_on(
                    s.skip(start as int),
                    sep,
                )[k] == split_on(s, sep)[out@.len() + k] by {
                    assert(split_on(s.skip(old_start), sep)[k + 1] == split_on(s, sep)[out@.len()
                        + k]);
                }
            }
        }
        i += 1;
    }
    proof {
        lemma_find_char(s.skip(start as int), sep);
        match find_char(s.skip(start as int), sep) {
            Some(p) => {
                assert(s[p + start] == s.skip(start as int)[p]);
                assert(false);
            },
            None => {},
        }
        assert(split_on(s.skip(start as int), sep) == seq![s.skip(start as int)]);
        assert(s.skip(start as int) =~= s.subrange(start as int, n as int));
        assert(split_on(s.skip(start as int), sep)[0] == s.subrange(start as int, n as int));
        assert(split_on(s, sep)[out@.len() as int] == s.subrange(start as int, n as int));
    }
    let chunk = copy_range(chars, start, n);
    out.push(chunk);
    out
}

/// The cleaned fields of a raw row: split on commas, each chunk trimmed
/// and unquoted.
pub fn split_fields(chars: &Vec<char>) -> (fs: Vec<Vec<char>>)
    ensures
        fs@.len() == fields_of(chars@).len(),
        forall|k: int| 0 <= k < fs@.len() ==> #[trigger] fs@[k]@ == fields_of(chars@)[k],
{
    let raw = split_raw(chars, ',');
    let mut out: Vec<Vec<char>> = Vec::new();
    let mut k: usize = 0;
    while k < raw.len()
        invariant
            k <= raw@.len(),
            raw@.len() == split_on(chars@, ',').len(),
            forall|j: int| 0 <= j < raw@.len() ==> #[trigger] raw@[j]@ == split_on(chars@, ',')[j],
            out@.len() == k,
            forall|j: int|
                0 <= j < k ==> #[trigger] out@[j]@ == clean_field_spec(split_on(chars@, ',')[j]),
        decreases raw@.len() - k,
    {
        let chunk = &raw[k];
        let cleaned = clean_range(chunk, 0, chunk.len());
        proof {
            assert(chunk@.subrange(0, chunk@.len() as int) =~= chunk@);
        }
        out.push(cleaned);
        k += 1;
    }
    proof {
        assert(fields_of(chars@).len() == split_on(chars@, ',').len());
    }
    out
}

/// Whether two strings have the same characters once ASCII letters are
/// folded to lower case.
#[verifier::loop_isolation(false)]
pub fn eq_ignore_case(a: &str, b: &str) -> (r: bool)
    ensures
        r == (folded(a@) == folded(b@)),
{
    let la = a.unicode_len();
    let lb = b.unicode_len();
    if la != lb {
        proof {
            assert(folded(a@).len() != folded(b@).len());
        }
        return false;
    }
    let mut k: usize = 0;
    while k < la
        invariant
            k <= la,
            la == a@.len() == b@.len(),
            forall|j: int| 0 <= j < k ==> folded(a@)[j] == folded(b@)[j],
        decreases la - k,
    {
        let ca = a.get_char(k) as u32;
        let cb = b.get_char(k) as u32;
        let fa = if 65 <= ca && ca <= 90 {
            ca + 32
        } else {
            ca
        };
        let fb = if 65 <= cb && cb <= 90 {
            cb + 32
        } else {
            cb
        };
        if fa != fb {
            proof {
                assert(folded(a@)[k as int] != folded(b@)[k as int]);
            }
            return false;
        }
        k += 1;
    }
    proof {
        assert(folded(a@) =~= folded(b@));
    }
    true
}

} // verus!
