//! Recurrence handling: the `rec:[+]N[dwmy]` specification, locating the
//! last `rec:`/`due:` words of a line, computing the next due date, and
//! building the spawned task's text by replacing the due value in place.
use vstd::prelude::*;

use crate::date::{
    add_days, add_months, digit_char_p, digit_val, digit_val_x, fmt_date, fmt_date_vec, is_digit,
    parse_date10, parse_date_vec, plus_days, plus_months, Date,
};
use crate::text::{
    chunk_split, chunk_word, chunk_ws, chunks, concat_seqs, lemma_concat_seqs_take_step, push_all,
    starts_with, starts_with_at, subvec, word_of, ws_of,
};

verus! {

pub open spec fn rec_key() -> Seq<char> {
    seq!['r', 'e', 'c', ':']
}

pub open spec fn due_key() -> Seq<char> {
    seq!['d', 'u', 'e', ':']
}

pub open spec fn pri_key() -> Seq<char> {
    seq!['P', 'r', 'i', ':']
}

fn rec_key_vec() -> (v: Vec<char>)
    ensures
        v@ == rec_key(),
{
    let mut v: Vec<char> = Vec::new();
    v.push('r');
    v.push('e');
    v.push('c');
    v.push(':');
    assert(v@ =~= rec_key());
    v
}

fn due_key_vec() -> (v: Vec<char>)
    ensures
        v@ == due_key(),
{
    let mut v: Vec<char> = Vec::new();
    v.push('d');
    v.push('u');
    v.push('e');
    v.push(':');
    assert(v@ =~= due_key());
    v
}

/// Every character is a decimal digit.
pub open spec fn all_digits(s: Seq<char>) -> bool {
    forall|j: int| 0 <= j < s.len() ==> is_digit(s[j])
}

/// The number written by a digit sequence.
pub open spec fn dec_val(s: Seq<char>) -> int
    decreases s.len(),
{
    if s.len() == 0 {
        0
    } else {
        dec_val(s.drop_last()) * 10 + digit_val(s.last())
    }
}

pub proof fn lemma_dec_val_nonneg(s: Seq<char>)
    requires
        all_digits(s),
    ensures
        dec_val(s) >= 0,
    decreases s.len(),
{
    if s.len() > 0 {
        assert(forall|j: int| 0 <= j < s.drop_last().len() ==> s.drop_last()[j] == s[j]);
        lemma_dec_val_nonneg(s.drop_last());
    }
}

pub proof fn lemma_dec_val_prefix(s: Seq<char>, i: int)
    requires
        all_digits(s),
        0 <= i <= s.len(),
    ensures
        dec_val(s) >= dec_val(s.take(i)),
    decreases s.len() - i,
{
    if i < s.len() {
        assert(s.take(i + 1).drop_last() =~= s.take(i));
        assert(s.take(i + 1).last() == s[i]);
        assert(forall|j: int| 0 <= j < i ==> s.take(i)[j] == s[j]);
        lemma_dec_val_nonneg(s.take(i));
        assert(dec_val(s.take(i + 1)) == dec_val(s.take(i)) * 10 + digit_val(s[i]));
        assert(dec_val(s.take(i)) * 10 >= dec_val(s.take(i))) by (nonlinear_arith)
            requires
                dec_val(s.take(i)) >= 0,
        ;
        lemma_dec_val_prefix(s, i + 1);
    } else {
        assert(s.take(i) =~= s);
    }
}

/// The parse of a recurrence specification: an optional leading `+`
/// (strict), a non-empty digit string, and an optional unit letter among
/// `d`, `w`, `m`, `y` (`d` when absent). Anything else, or a count past
/// `u64::MAX`, parses to `None`.
pub open spec fn spec_parse_rec(s: Seq<char>) -> Option<(bool, u64, char)> {
    let strict = s.len() > 0 && s[0] == '+';
    let body = if strict {
        s.skip(1)
    } else {
        s
    };
    let unit_given = body.len() > 0 && !is_digit(body.last());
    let digits = if unit_given {
        body.drop_last()
    } else {
        body
    };
    let unit = if unit_given {
        body.last()
    } else {
        'd'
    };
    if digits.len() == 0 || !all_digits(digits) {
        None
    } else if !(unit == 'd' || unit == 'w' || unit == 'm' || unit == 'y') {
        None
    } else if dec_val(digits) > u64::MAX {
        None
    } else {
        Some((strict, dec_val(digits) as u64, unit))
    }
}

/// Parses a non-empty digit string as a number, detecting overflow.
fn parse_decimal(dv: &Vec<char>) -> (r: Option<u64>)
    requires
        all_digits(dv@),
    ensures
        match r {
            Some(x) => x == dec_val(dv@),
            None => dec_val(dv@) > u64::MAX,
        },
{
    let mut acc: u64 = 0;
    let mut i: usize = 0;
    proof {
        assert(dv@.take(0) =~= Seq::<char>::empty());
    }
    while i < dv.len()
        invariant
            i <= dv@.len(),
            all_digits(dv@),
            acc == dec_val(dv@.take(i as int)),
        decreases dv@.len() - i,
    {
        let c = dv[i];
        let d = digit_val_x(c);
        proof {
            assert(dv@.take(i + 1).drop_last() =~= dv@.take(i as int));
            assert(dv@.take(i + 1).last() == dv@[i as int]);
        }
        let wide: u128 = acc as u128 * 10 + d as u128;
        if wide > u64::MAX as u128 {
            proof {
                lemma_dec_val_prefix(dv@, i + 1);
            }
            return None;
        }
        acc = wide as u64;
        i += 1;
    }
    proof {
        assert(dv@.take(dv@.len() as int) =~= dv@);
    }
    Some(acc)
}

/// Executable recurrence-specification parse over a character vector.
pub fn parse_rec_vec(v: &Vec<char>) -> (r: Option<(bool, u64, char)>)
    ensures
        r == spec_parse_rec(v@),
{
    let strict = v.len() > 0 && v[0] == '+';
    let start: usize = if strict {
        1
    } else {
        0
    };
    let ghost body = if strict {
        v@.skip(1)
    } else {
        v@
    };
    proof {
        assert(body =~= v@.subrange(start as int, v@.len() as int));
    }
    let n = v.len();
    let unit_given = n > start && !digit_char_p(v[n - 1]);
    let endd: usize = if unit_given {
        n - 1
    } else {
        n
    };
    let unit: char = if unit_given {
        v[n - 1]
    } else {
        'd'
    };
    proof {
        if n > start {
            assert(body.len() > 0);
            assert(body.last() == v@[n - 1]);
        }
    }
    let ghost digits = if unit_given {
        body.drop_last()
    } else {
        body
    };
    proof {
        assert(digits =~= v@.subrange(start as int, endd as int));
    }
    if endd == start {
        assert(digits.len() == 0);
        return None;
    }
    // check that all characters are digits
    let mut i: usize = start;
    while i < endd
        invariant
            start <= i <= endd <= v@.len(),
            strict == (v@.len() > 0 && v@[0] == '+'),
            body == (if strict { v@.skip(1) } else { v@ }),
            unit_given == (body.len() > 0 && !is_digit(body.last())),
            unit == (if unit_given { body.last() } else { 'd' }),
            digits == (if unit_given { body.drop_last() } else { body }),
            digits == v@.subrange(start as int, endd as int),
            start == (if strict { 1int } else { 0int }),
            forall|j: int| start <= j < i ==> is_digit(v@[j]),
        decreases endd - i,
    {
        if !digit_char_p(v[i]) {
            assert(digits[i - start] == v@[i as int]);
            assert(!all_digits(digits));
            return None;
        }
        i += 1;
    }
    proof {
        assert forall|j: int| 0 <= j < digits.len() implies is_digit(digits[j]) by {
            assert(digits[j] == v@[start + j]);
        }
    }
    if !(unit == 'd' || unit == 'w' || unit == 'm' || unit == 'y') {
        return None;
    }
    let dvec = subvec(v, start, endd);
    assert(dvec@ == digits);
    match parse_decimal(&dvec) {
        Some(acc) => Some((strict, acc, unit)),
        None => None,
    }
}

/// Parses a recurrence specification such as `10`, `+3w`, `2m`.
pub fn parse_rec(input: &str) -> (r: Option<(bool, u64, char)>)
    ensures
        r == spec_parse_rec(input@),
{
    let v = crate::text::str_to_chars(input);
    parse_rec_vec(&v)
}

/// The index of the last chunk whose word begins with `key`.
pub open spec fn last_key_idx(cs: Seq<Seq<char>>, key: Seq<char>) -> Option<int>
    decreases cs.len(),
{
    if cs.len() == 0 {
        None
    } else if starts_with(word_of(cs.last()), key) {
        Some(cs.len() - 1)
    } else {
        last_key_idx(cs.drop_last(), key)
    }
}

pub proof fn lemma_last_key_idx(cs: Seq<Seq<char>>, key: Seq<char>)
    ensures
        match last_key_idx(cs, key) {
            Some(k) => 0 <= k < cs.len() && starts_with(word_of(cs[k]), key),
            None => forall|j: int| 0 <= j < cs.len() ==> !starts_with(word_of(cs[j]), key),
        },
    decreases cs.len(),
{
    if cs.len() == 0 {
    } else if starts_with(word_of(cs.last()), key) {
    } else {
        lemma_last_key_idx(cs.drop_last(), key);
        assert(forall|j: int| 0 <= j < cs.len() - 1 ==> cs.drop_last()[j] == cs[j]);
    }
}

/// Finds the last chunk whose word begins with `key`.
pub fn find_last_key(cs: &Vec<Vec<char>>, key: &Vec<char>) -> (r: Option<usize>)
    ensures
        match r {
            Some(k) => last_key_idx(cs.deep_view(), key@) == Some(k as int),
            None => last_key_idx(cs.deep_view(), key@) is None,
        },
{
    let ghost csv = cs.deep_view();
    let mut best: Option<usize> = None;
    let mut i: usize = 0;
    proof {
        assert(csv.take(0) =~= Seq::<Seq<char>>::empty());
    }
    while i < cs.len()
        invariant
            i <= csv.len(),
            cs.deep_view() == csv,
            cs@.len() == csv.len(),
            forall|j: int| 0 <= j < cs@.len() ==> #[trigger] cs@[j]@ == csv[j],
            match best {
                Some(k) => last_key_idx(csv.take(i as int), key@) == Some(k as int),
                None => last_key_idx(csv.take(i as int), key@) is None,
            },
        decreases csv.len() - i,
    {
        assert(cs@[i as int]@ == csv[i as int]);
        let w = chunk_word(&cs[i]);
        assert(w@ == word_of(csv[i as int]));
        let m = starts_with_at(&w, 0, key);
        proof {
            if m {
                assert(w@.subrange(0, key@.len() as int) =~= w@.take(key@.len() as int));
            } else if starts_with(w@, key@) {
                assert(w@.subrange(0, key@.len() as int) =~= w@.take(key@.len() as int));
            }
            assert(csv.take(i + 1).last() == csv[i as int]);
            assert(csv.take(i + 1).drop_last() =~= csv.take(i as int));
        }
        if m {
            best = Some(i);
        }
        i += 1;
    }
    proof {
        assert(csv.take(i as int) =~= csv);
    }
    best
}

/// The line with chunk `k`'s word replaced by `due:` followed by
/// `newval`; the chunk keeps its leading whitespace.
pub open spec fn spec_replace_due(text: Seq<char>, k: int, newval: Seq<char>) -> Seq<char> {
    let cs = chunks(text);
    concat_seqs(cs.update(k, ws_of(cs[k]) + due_key() + newval))
}

/// Builds the replacement line for `spec_replace_due`.
fn replace_due_at(chars: &Vec<char>, k: usize, newval: &Vec<char>) -> (r: Vec<char>)
    requires
        k < chunks(chars@).len(),
    ensures
        r@ == spec_replace_due(chars@, k as int, newval@),
{
    let cs = chunk_split(chars);
    let ghost csv = chunks(chars@);
    let ghost target = ws_of(csv[k as int]) + due_key() + newval@;
    let ghost updated = csv.update(k as int, target);
    let mut out: Vec<char> = Vec::new();
    let mut i: usize = 0;
    proof {
        assert(updated.take(0) =~= Seq::<Seq<char>>::empty());
    }
    while i < cs.len()
        invariant
            i <= csv.len(),
            cs.deep_view() == csv,
            cs@.len() == csv.len(),
            forall|j: int| 0 <= j < cs@.len() ==> #[trigger] cs@[j]@ == csv[j],
            updated == csv.update(k as int, target),
            target == ws_of(csv[k as int]) + due_key() + newval@,
            k < csv.len(),
            out@ == concat_seqs(updated.take(i as int)),
        decreases csv.len() - i,
    {
        assert(cs@[i as int]@ == csv[i as int]);
        if i == k {
            let ghost o0 = out@;
            let ws = chunk_ws(&cs[i]);
            push_all(&mut out, &ws);
            let ghost o1 = out@;
            let dk = due_key_vec();
            push_all(&mut out, &dk);
            let ghost o2 = out@;
            push_all(&mut out, newval);
            proof {
                assert(o1 == o0 + ws@);
                assert(o2 == o1 + dk@);
                assert(out@ == o2 + newval@);
                assert(o0 == concat_seqs(updated.take(i as int)));
                assert(ws@ == ws_of(csv[k as int]));
                assert(dk@ == due_key());
                assert(updated[i as int] == target);
                assert(out@ =~= concat_seqs(updated.take(i as int)) + target);
            }
        } else {
            push_all(&mut out, &cs[i]);
            proof {
                assert(updated[i as int] == csv[i as int]);
                assert(out@ =~= concat_seqs(updated.take(i as int)) + updated[i as int]);
            }
        }
        proof {
            lemma_concat_seqs_take_step(updated, i as int);
            assert(out@ =~= concat_seqs(updated.take(i as int)) + updated[i as int]);
        }
        i += 1;
    }
    proof {
        assert(updated.take(i as int) =~= updated);
    }
    out
}

/// The spawned pending line for a completed recurring task: present when
/// the line holds `rec:` and `due:` words, the recurrence specification
/// parses, the anchor date resolves (the due value itself in strict mode,
/// today otherwise), and the date arithmetic stays in range. The result
/// is the whole line with the last due value replaced by the new date.
pub open spec fn spec_spawn_result(text: Seq<char>, today: Date) -> Option<Seq<char>> {
    let cs = chunks(text);
    let ri = last_key_idx(cs, rec_key());
    let di = last_key_idx(cs, due_key());
    if ri is None || di is None {
        None
    } else {
        let recv = word_of(cs[ri->Some_0]).skip(4);
        let duev = word_of(cs[di->Some_0]).skip(4);
        match spec_parse_rec(recv) {
            None => None,
            Some((strict, n, unit)) => {
                let anchor = if strict {
                    parse_date10(duev)
                } else {
                    Some(today)
                };
                match anchor {
                    None => None,
                    Some(a) => {
                        let nd = if unit == 'w' {
                            plus_days(a, (n as nat) * 7)
                        } else if unit == 'm' {
                            if n <= u32::MAX as u64 {
                                plus_months(a, n as nat)
                            } else {
                                None
                            }
                        } else if unit == 'y' {
                            if n <= u32::MAX as u64 {
                                plus_months(a, (n as nat) * 12)
                            } else {
                                None
                            }
                        } else {
                            plus_days(a, n as nat)
                        };
                        match nd {
                            None => None,
                            Some(d) => Some(
                                spec_replace_due(text, di->Some_0, fmt_date(d)),
                            ),
                        }
                    },
                }
            },
        }
    }
}

/// Computes the spawned recurring line, when one is owed.
pub fn compute_spawn(chars: &Vec<char>, today: &Date) -> (r: Option<Vec<char>>)
    requires
        today.wf(),
    ensures
        match r {
            Some(v) => spec_spawn_result(chars@, *today) == Some(v@),
            None => spec_spawn_result(chars@, *today) is None,
        },
{
    let cs = chunk_split(chars);
    let ghost csv = chunks(chars@);
    let rk = rec_key_vec();
    let dk = due_key_vec();
    let ri = match find_last_key(&cs, &rk) {
        Some(k) => k,
        None => {
            return None;
        },
    };
    let di = match find_last_key(&cs, &dk) {
        Some(k) => k,
        None => {
            return None;
        },
    };
    proof {
        lemma_last_key_idx(csv, rec_key());
        lemma_last_key_idx(csv, due_key());
        assert(cs@.len() == csv.len());
        assert(cs@[ri as int]@ == csv[ri as int]);
        assert(cs@[di as int]@ == csv[di as int]);
        assert(rec_key().len() == 4);
        assert(due_key().len() == 4);
    }
    let rw = chunk_word(&cs[ri]);
    let dw = chunk_word(&cs[di]);
    proof {
        assert(rw@ == word_of(csv[ri as int]));
        assert(dw@ == word_of(csv[di as int]));
        assert(rw@.len() >= 4);
        assert(dw@.len() >= 4);
    }
    let recv = subvec(&rw, 4, rw.len());
    let duev = subvec(&dw, 4, dw.len());
    proof {
        assert(recv@ =~= word_of(csv[ri as int]).skip(4));
        assert(duev@ =~= word_of(csv[di as int]).skip(4));
    }
    let (strict, n, unit) = match parse_rec_vec(&recv) {
        Some(t) => t,
        None => {
            return None;
        },
    };
    let anchor: Date = if strict {
        match parse_date_vec(&duev) {
            Some(a) => a,
            None => {
                return None;
            },
        }
    } else {
        *today
    };
    let nd: Option<Date> = if unit == 'w' {
        if n >= 3720000 {
            proof {
                crate::date::lemma_date_rank_bound(anchor);
                crate::date::lemma_plus_days_overrun(anchor, (n as nat) * 7);
            }
            None
        } else {
            add_days(anchor, n * 7)
        }
    } else if unit == 'm' {
        if n <= u32::MAX as u64 {
            add_months(anchor, n)
        } else {
            None
        }
    } else if unit == 'y' {
        if n <= u32::MAX as u64 {
            add_months(anchor, n * 12)
        } else {
            None
        }
    } else {
        add_days(anchor, n)
    };
    match nd {
        Some(d) => {
            let f = fmt_date_vec(&d);
            Some(replace_due_at(chars, di, &f))
        },
        None => None,
    }
}

} // verus!
