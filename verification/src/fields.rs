//! Extraction of the leading `(X)` priority and `YYYY-MM-DD` date fields
//! from the remainder of a task line.
use vstd::prelude::*;

use crate::date::{digit_char_p, is_date10};
use crate::tasks::has_priority;
use crate::text::{
    is_ws, lemma_ws_prefix, lemma_ws_prefix_is, subvec, trim_start, trim_start_index, ws_char,
};

verus! {

/// The remainder and the priority letter, after trimming leading
/// whitespace: a leading `(X)` with `X` an uppercase letter is removed
/// and handed back separately.
pub open spec fn spec_get_priority(s: Seq<char>) -> (Seq<char>, Option<char>) {
    let t = trim_start(s);
    if has_priority(t) {
        (t.skip(3), Some(t[1]))
    } else {
        (t, None)
    }
}

/// The remainder and the date: a leading ten-character `YYYY-MM-DD`
/// shape (not trimmed, not range-checked) is split off when present;
/// otherwise the date part is empty.
pub open spec fn spec_get_date(s: Seq<char>) -> (Seq<char>, Seq<char>) {
    if s.len() >= 10 && is_date10(s.take(10)) {
        (s.skip(10), s.take(10))
    } else {
        (s, Seq::<char>::empty())
    }
}

/// Executable priority extraction over a character vector.
pub fn extract_priority(s: &Vec<char>) -> (r: (Vec<char>, Option<char>))
    ensures
        r.0@ == spec_get_priority(s@).0,
        r.1 == spec_get_priority(s@).1,
{
    let a = trim_start_index(s);
    proof {
        lemma_ws_prefix(s@);
    }
    let ghost t = trim_start(s@);
    let n = s.len();
    if n - a >= 3 && s[a] == '(' && 'A' <= s[a + 1] && s[a + 1] <= 'Z' && s[a + 2] == ')' {
        proof {
            assert(t[0] == s@[a as int]);
            assert(t[1] == s@[a + 1]);
            assert(t[2] == s@[a + 2]);
        }
        let rest = subvec(s, a + 3, n);
        proof {
            assert(rest@ =~= t.skip(3));
        }
        (rest, Some(s[a + 1]))
    } else {
        proof {
            if has_priority(t) {
                assert(s@[a as int] == t[0]);
                assert(s@[a + 1] == t[1]);
                assert(s@[a + 2] == t[2]);
            }
        }
        let rest = subvec(s, a, n);
        proof {
            assert(rest@ =~= t);
        }
        (rest, None)
    }
}

/// Executable date extraction over a character vector.
pub fn extract_date(s: &Vec<char>) -> (r: (Vec<char>, Vec<char>))
    ensures
        r.0@ == spec_get_date(s@).0,
        r.1@ == spec_get_date(s@).1,
{
    if s.len() >= 10 {
        let m = crate::date::date10_at(s, 0);
        proof {
            assert(s@.subrange(0, 10) =~= s@.take(10));
        }
        if m {
            let rest = subvec(s, 10, s.len());
            let date = subvec(s, 0, 10);
            proof {
                assert(rest@ =~= s@.skip(10));
            }
            (rest, date)
        } else {
            let rest = subvec(s, 0, s.len());
            let date: Vec<char> = Vec::new();
            proof {
                assert(rest@ =~= s@);
            }
            (rest, date)
        }
    } else {
        let rest = subvec(s, 0, s.len());
        let date: Vec<char> = Vec::new();
        proof {
            assert(rest@ =~= s@);
        }
        (rest, date)
    }
}

/// Splits an optional leading `(X)` priority off `input`, after leading
/// whitespace. Returns the remainder and the priority letter (one
/// character, or empty).
pub fn get_priority<'a>(input: &'a str) -> (r: (&'a str, &'a str))
    ensures
        r.0@ == spec_get_priority(input@).0,
        r.1@ == match spec_get_priority(input@).1 {
            Some(c) => seq![c],
            None => Seq::<char>::empty(),
        },
{
    let n = input.unicode_len();
    let mut a: usize = 0;
    while a < n && ws_char(input.get_char(a))
        invariant
            a <= n,
            n == input@.len(),
            forall|j: int| 0 <= j < a ==> is_ws(input@[j]),
        decreases n - a,
    {
        a += 1;
    }
    proof {
        lemma_ws_prefix_is(input@, a as int);
    }
    let ghost t = trim_start(input@);
    if n - a >= 3 && input.get_char(a) == '(' && {
        let c = input.get_char(a + 1);
        'A' <= c && c <= 'Z'
    } && input.get_char(a + 2) == ')' {
        proof {
            assert(t[0] == input@[a as int]);
            assert(t[1] == input@[a + 1]);
            assert(t[2] == input@[a + 2]);
        }
        let rest = input.substring_char(a + 3, n);
        let pri = input.substring_char(a + 1, a + 2);
        proof {
            assert(rest@ =~= t.skip(3));
            assert(pri@ =~= seq![t[1]]);
        }
        (rest, pri)
    } else {
        proof {
            if has_priority(t) {
                assert(input@[a as int] == t[0]);
                assert(input@[a + 1] == t[1]);
                assert(input@[a + 2] == t[2]);
            }
        }
        let rest = input.substring_char(a, n);
        let none = input.substring_char(n, n);
        proof {
            assert(rest@ =~= t);
            assert(none@ =~= Seq::<char>::empty());
        }
        (rest, none)
    }
}

/// Splits an optional leading ten-character `YYYY-MM-DD` shape off
/// `input`. Returns the remainder and the date text (or empty).
pub fn get_date<'a>(input: &'a str) -> (r: (&'a str, &'a str))
    ensures
        r.0@ == spec_get_date(input@).0,
        r.1@ == spec_get_date(input@).1,
{
    let n = input.unicode_len();
    let empty_at_end = n;
    if n >= 10 {
        let ok = digit_char_p(input.get_char(0)) && digit_char_p(input.get_char(1))
            && digit_char_p(input.get_char(2)) && digit_char_p(input.get_char(3))
            && input.get_char(4) == '-' && digit_char_p(input.get_char(5)) && digit_char_p(
            input.get_char(6),
        ) && input.get_char(7) == '-' && digit_char_p(input.get_char(8)) && digit_char_p(
            input.get_char(9),
        );
        proof {
            assert(forall|j: int| 0 <= j < 10 ==> input@.take(10)[j] == input@[j]);
        }
        if ok {
            let rest = input.substring_char(10, n);
            let date = input.substring_char(0, 10);
            proof {
                assert(rest@ =~= input@.skip(10));
                assert(date@ =~= input@.take(10));
            }
            (rest, date)
        } else {
            let none = input.substring_char(empty_at_end, n);
            proof {
                assert(none@ =~= Seq::<char>::empty());
            }
            (input, none)
        }
    } else {
        let none = input.substring_char(empty_at_end, n);
        proof {
            assert(none@ =~= Seq::<char>::empty());
        }
        (input, none)
    }
}

} // verus!
