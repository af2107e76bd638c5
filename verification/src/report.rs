//! Helpers over snapshot keys for the reporting collaborator: splitting a
//! key into device and metric at the first `:`, and the sort key that puts
//! `disp`-numbered devices first, in numeric order.

use vstd::prelude::*;
use vstd::string::*;

verus! {

/// `c` is a decimal digit.
pub open spec fn is_dec_digit(c: char) -> bool {
    48 <= c as int <= 57
}

/// Every character of `s` is a decimal digit.
pub open spec fn all_digits(s: Seq<char>) -> bool {
    forall|i: int| 0 <= i < s.len() ==> is_dec_digit(#[trigger] s[i])
}

/// The number that a run of decimal digits denotes.
pub open spec fn digits_val(s: Seq<char>) -> int
    decreases s.len(),
{
    if s.len() == 0 {
        0
    } else {
        digits_val(s.drop_last()) * 10 + (s.last() as int - 48)
    }
}

/// `s` is a decimal `i64` literal: an optional sign, then at least one
/// digit, denoting a value within the type's range.
pub open spec fn int_literal_ok(s: Seq<char>) -> bool {
    if s.len() == 0 {
        false
    } else if s[0] == '+' {
        s.len() > 1 && all_digits(s.skip(1)) && digits_val(s.skip(1)) <= i64::MAX as int
    } else if s[0] == '-' {
        s.len() > 1 && all_digits(s.skip(1)) && digits_val(s.skip(1)) <= i64::MAX as int + 1
    } else {
        all_digits(s) && digits_val(s) <= i64::MAX as int
    }
}

/// The value a decimal `i64` literal denotes (meaningful when
/// `int_literal_ok(s)` holds).
pub open spec fn int_literal_val(s: Seq<char>) -> int {
    if s.len() > 0 && s[0] == '-' {
        -digits_val(s.skip(1))
    } else if s.len() > 0 && s[0] == '+' {
        digits_val(s.skip(1))
    } else {
        digits_val(s)
    }
}

/// A device name of the regular shape: the prefix `disp` followed by a
/// number that fits an `i64`.
pub open spec fn disp_numbered(s: Seq<char>) -> bool {
    s.len() >= 4 && s.subrange(0, 4) == "disp"@ && int_literal_ok(s.skip(4))
}

/// A run of digits denotes a non-negative number.
proof fn lemma_digits_val_nonneg(t: Seq<char>)
    requires
        all_digits(t),
    ensures
        digits_val(t) >= 0,
    decreases t.len(),
{
    if t.len() > 0 {
        assert(forall|i: int| 0 <= i < t.len() - 1 ==> t.drop_last()[i] == t[i]);
        lemma_digits_val_nonneg(t.drop_last());
    }
}

/// Extending a run of digits on the right never shrinks its value.
proof fn lemma_digits_val_grows(s: Seq<char>, a: int, i: int, j: int)
    requires
        0 <= a <= i <= j <= s.len(),
        all_digits(s.subrange(a, j)),
    ensures
        0 <= digits_val(s.subrange(a, i)) <= digits_val(s.subrange(a, j)),
    decreases j - i,
{
    assert(forall|p: int| 0 <= p < i - a ==> s.subrange(a, i)[p] == s.subrange(a, j)[p]);
    lemma_digits_val_nonneg(s.subrange(a, i));
    if i < j {
        lemma_digits_val_grows(s, a, i + 1, j);
        assert(s.subrange(a, i + 1).drop_last() =~= s.subrange(a, i));
        assert(s.subrange(a, i + 1).last() == s[i]);
        assert(is_dec_digit(s[i])) by {
            assert(s.subrange(a, j)[i - a] == s[i]);
        }
    }
}

/// Parses a whole string as a decimal `i64`, exactly as the shape
/// `int_literal_ok` describes: `None` on an empty string, a stray
/// character, a bare sign, or a value outside the type's range.
pub fn parse_i64(s: &str) -> (r: Option<i64>)
    ensures
        r is Some <==> int_literal_ok(s@),
        r is Some ==> r.unwrap() as int == int_literal_val(s@),
{
    let n = s.unicode_len();
    if n == 0 {
        return None;
    }
    let c0 = s.get_char(0);
    let neg = c0 == '-';
    let start: usize = if c0 == '-' || c0 == '+' {
        1
    } else {
        0
    };
    if n == start {
        return None;
    }
    let mut i: usize = start;
    let mut acc: i64 = 0;
    while i < n
        invariant
            start <= i <= n,
            n == s@.len(),
            n > start,
            neg == (s@[0] == '-'),
            (s@[0] == '-' || s@[0] == '+') ==> start == 1,
            !(s@[0] == '-' || s@[0] == '+') ==> start == 0,
            all_digits(s@.subrange(start as int, i as int)),
            acc as int == -digits_val(s@.subrange(start as int, i as int)),
            acc <= 0,
        decreases n - i,
    {
        let c = s.get_char(i);
        let u = c as u32;
        if u < 48 || u > 57 {
            proof {
                assert(s@.skip(start as int)[i - start] == s@[i as int]);
                assert(!all_digits(s@.skip(start as int)));
            }
            return None;
        }
        let d = (u - 48) as i64;
        proof {
            assert(s@.subrange(start as int, i + 1).drop_last() =~= s@.subrange(
                start as int,
                i as int,
            ));
            assert(s@.subrange(start as int, i + 1).last() == s@[i as int]);
            assert(forall|p: int|
                0 <= p < i + 1 - start ==> #[trigger] s@.subrange(start as int, i + 1)[p] == s@[
                    start + p
                ]);
        }
        let acc10 = match acc.checked_mul(10) {
            Some(v) => v,
            None => {
                proof {
                    lemma_overflow_means_malformed(s@, start as int, i as int);
                }
                return None;
            },
        };
        let newacc = match acc10.checked_sub(d) {
            Some(v) => v,
            None => {
                proof {
                    lemma_overflow_means_malformed(s@, start as int, i as int);
                }
                return None;
            },
        };
        acc = newacc;
        i += 1;
    }
    proof {
        assert(s@.subrange(start as int, n as int) =~= s@.skip(start as int));
        if start == 0 {
            assert(s@.skip(0) =~= s@);
        }
    }
    if neg {
        Some(acc)
    } else {
        if acc == i64::MIN {
            proof {
                assert(digits_val(s@.skip(start as int)) > i64::MAX as int);
            }
            None
        } else {
            Some(-acc)
        }
    }
}

/// A digit run whose value already exceeds `i64` range at some prefix
/// cannot be a well-formed `i64` literal, whatever follows.
proof fn lemma_overflow_means_malformed(s: Seq<char>, start: int, i: int)
    requires
        0 <= start <= i < s.len(),
        start <= 1,
        s.len() > start,
        (s[0] == '-' || s[0] == '+') ==> start == 1,
        !(s[0] == '-' || s[0] == '+') ==> start == 0,
        all_digits(s.subrange(start, i)),
        is_dec_digit(s[i]),
        digits_val(s.subrange(start, i + 1)) > i64::MAX as int + 1,
    ensures
        !int_literal_ok(s),
{
    if int_literal_ok(s) {
        if start == 0 {
            assert(s.skip(0) =~= s);
        }
        assert(all_digits(s.skip(start)));
        assert(s.skip(start) =~= s.subrange(start, s.len() as int));
        lemma_digits_val_grows(s, start, i + 1, s.len() as int);
        assert(digits_val(s.skip(start)) >= digits_val(s.subrange(start, i + 1)));
        assert(digits_val(s.skip(start)) <= i64::MAX as int + 1);
        assert(false);
    }
}

/// The sort key the reporting view uses for a device name: `disp`-numbered
/// devices come first (class 0), ordered by their number; every other name
/// falls in class 1 behind them.  The name itself rides along as the final
/// tie-breaker.
pub fn disp_ord_key(d: &str) -> (r: (u8, i64, String))
    ensures
        r.2@ == d@,
        disp_numbered(d@) ==> r.0 == 0 && r.1 as int == int_literal_val(d@.skip(4)),
        !disp_numbered(d@) ==> r.0 == 1 && r.1 == i64::MAX,
{
    let n = d.unicode_len();
    if n >= 4 && d.get_char(0) == 'd' && d.get_char(1) == 'i' && d.get_char(2) == 's'
        && d.get_char(3) == 'p' {
        proof {
            reveal_strlit("disp");
            assert(d@.subrange(0, 4) =~= "disp"@);
        }
        let rest = d.substring_char(4, n);
        proof {
            assert(rest@ =~= d@.skip(4));
        }
        match parse_i64(rest) {
            Some(v) => (0u8, v, d.to_owned()),
            None => (1u8, i64::MAX, d.to_owned()),
        }
    } else {
        proof {
            reveal_strlit("disp");
            if disp_numbered(d@) {
                assert(d@.subrange(0, 4)[0] == d@[0]);
                assert(d@.subrange(0, 4)[1] == d@[1]);
                assert(d@.subrange(0, 4)[2] == d@[2]);
                assert(d@.subrange(0, 4)[3] == d@[3]);
                assert(false);
            }
        }
        (1u8, i64::MAX, d.to_owned())
    }
}

/// Splits a snapshot key at its first `:` into a device part and a metric
/// part; a key without `:` is a device of its own, under the metric name
/// `valor`.
pub fn split_key(k: &str) -> (r: (String, String))
    ensures
        (forall|i: int| 0 <= i < k@.len() ==> k@[i] != ':') ==> r.0@ == k@ && r.1@ == "valor"@,
        forall|i: int|
            0 <= i < k@.len() && #[trigger] k@[i] == ':' && (forall|j: int|
                0 <= j < i ==> k@[j] != ':') ==> r.0@ == k@.subrange(0, i) && r.1@ == k@.subrange(
                i + 1,
                k@.len() as int,
            ),
{
    let n = k.unicode_len();
    let mut i: usize = 0;
    while i < n
        invariant
            i <= n,
            n == k@.len(),
            forall|j: int| 0 <= j < i ==> k@[j] != ':',
        decreases n - i,
    {
        if k.get_char(i) == ':' {
            let a = k.substring_char(0, i);
            let b = k.substring_char(i + 1, n);
            let r = (a.to_owned(), b.to_owned());
            proof {
                assert forall|p: int|
                    0 <= p < k@.len() && #[trigger] k@[p] == ':' && (forall|j: int|
                        0 <= j < p ==> k@[j] != ':') implies r.0@ == k@.subrange(0, p) && r.1@
                    == k@.subrange(p + 1, k@.len() as int) by {
                    if p < i as int {
                        assert(k@[p] != ':');
                    } else if p > i as int {
                        assert(k@[i as int] != ':');
                    }
                }
            }
            return r;
        }
        i += 1;
    }
    (k.to_owned(), String::from_str("valor"))
}

} // verus!
