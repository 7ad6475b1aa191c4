//! Tag autocompletion: the partial `+project` or `@context` token ending
//! at the cursor, the matching registry entries, wrap-around selection,
//! and splicing a chosen suggestion into the text.
use vstd::prelude::*;

use crate::text::{
    contains_sub, is_ws, push_all, str_to_chars, subvec, ws_char,
};

verus! {

/// Which registry a suggestion list draws from.
#[derive(Debug, Clone, Copy, PartialEq, Eq, Structural)]
pub enum AutoCompleteKind {
    Project,
    Context,
}

/// Length of the run of non-whitespace characters at the end of `s`.
pub open spec fn word_suffix_len(s: Seq<char>) -> nat
    decreases s.len(),
{
    if s.len() == 0 || is_ws(s[s.len() - 1]) {
        0
    } else {
        (1 + word_suffix_len(s.take(s.len() - 1))) as nat
    }
}

pub proof fn lemma_word_suffix_is(s: Seq<char>, i: int)
    requires
        0 <= i <= s.len(),
        forall|j: int| s.len() - i <= j < s.len() ==> !is_ws(s[j]),
        i < s.len() ==> is_ws(s[s.len() - i - 1]),
    ensures
        word_suffix_len(s) == i,
    decreases s.len(),
{
    if i == 0 {
    } else {
        assert(!is_ws(s[s.len() - 1]));
        let t = s.take(s.len() - 1);
        assert forall|j: int| t.len() - (i - 1) <= j < t.len() implies !is_ws(t[j]) by {
            assert(t[j] == s[j]);
        }
        if i - 1 < t.len() {
            assert(t[t.len() - (i - 1) - 1] == s[s.len() - i - 1]);
        }
        lemma_word_suffix_is(t, i - 1);
    }
}

/// The partial tag ending at the cursor: the run of non-whitespace
/// characters just before it, when it begins with `+` or `@`. The part
/// after the prefix character (possibly empty) is the typed filter.
pub open spec fn spec_active_token(text: Seq<char>, cursor: int) -> Option<
    (AutoCompleteKind, Seq<char>),
> {
    if cursor <= 0 || cursor > text.len() {
        None
    } else {
        let before = text.take(cursor);
        if is_ws(before.last()) {
            None
        } else {
            let w = before.skip(before.len() - word_suffix_len(before));
            if w[0] == '+' {
                Some((AutoCompleteKind::Project, w.skip(1)))
            } else if w[0] == '@' {
                Some((AutoCompleteKind::Context, w.skip(1)))
            } else {
                None
            }
        }
    }
}

/// Finds the partial tag ending at the cursor (a character index).
pub fn active_token(text: &Vec<char>, cursor: usize) -> (r: Option<(AutoCompleteKind, Vec<char>)>)
    ensures
        match r {
            Some(t) => spec_active_token(text@, cursor as int) == Some((t.0, t.1@)),
            None => spec_active_token(text@, cursor as int) is None,
        },
{
    if cursor == 0 || cursor > text.len() {
        return None;
    }
    if ws_char(text[cursor - 1]) {
        assert(text@.take(cursor as int).last() == text@[cursor - 1]);
        return None;
    }
    let ghost before = text@.take(cursor as int);
    let mut st = cursor;
    while st > 0 && !ws_char(text[st - 1])
        invariant
            st <= cursor <= text@.len(),
            forall|j: int| st <= j < cursor ==> !is_ws(text@[j]),
        decreases st,
    {
        st -= 1;
    }
    proof {
        assert(before.last() == text@[cursor - 1]);
        assert forall|j: int| before.len() - (cursor - st) <= j < before.len() implies !is_ws(
            before[j],
        ) by {
            assert(before[j] == text@[j]);
        }
        if cursor - st < before.len() {
            assert(before[before.len() - (cursor - st) - 1] == text@[st - 1]);
        }
        lemma_word_suffix_is(before, cursor - st);
        assert(before.skip(before.len() - (cursor - st)) =~= text@.subrange(
            st as int,
            cursor as int,
        ));
    }
    let c0 = text[st];
    assert(c0 == text@.subrange(st as int, cursor as int)[0]);
    if c0 == '+' {
        let typed = subvec(text, st + 1, cursor);
        proof {
            assert(typed@ =~= text@.subrange(st as int, cursor as int).skip(1));
        }
        Some((AutoCompleteKind::Project, typed))
    } else if c0 == '@' {
        let typed = subvec(text, st + 1, cursor);
        proof {
            assert(typed@ =~= text@.subrange(st as int, cursor as int).skip(1));
        }
        Some((AutoCompleteKind::Context, typed))
    } else {
        None
    }
}

/// The registry entries that contain the typed filter, in registry order.
pub open spec fn spec_suggestions(entries: Seq<Seq<char>>, typed: Seq<char>) -> Seq<Seq<char>>
    decreases entries.len(),
{
    if entries.len() == 0 {
        Seq::empty()
    } else {
        let m = spec_suggestions(entries.drop_last(), typed);
        if crate::text::has_substring(entries.last(), typed) {
            m.push(entries.last())
        } else {
            m
        }
    }
}

/// Filters registry entries by case-sensitive substring containment.
pub fn suggestions(entries: &Vec<String>, typed: &Vec<char>) -> (r: Vec<String>)
    ensures
        r.deep_view() == spec_suggestions(entries.deep_view(), typed@),
{
    let ghost ev = entries.deep_view();
    let mut r: Vec<String> = Vec::new();
    let mut i: usize = 0;
    proof {
        assert(ev.take(0) =~= Seq::<Seq<char>>::empty());
        assert(r.deep_view() =~~= spec_suggestions(ev.take(0), typed@));
    }
    while i < entries.len()
        invariant
            i <= ev.len(),
            entries.deep_view() == ev,
            entries@.len() == ev.len(),
            r.deep_view() == spec_suggestions(ev.take(i as int), typed@),
        decreases ev.len() - i,
    {
        proof {
            assert(ev.take(i + 1).drop_last() =~= ev.take(i as int));
            assert(ev.take(i + 1).last() == ev[i as int]);
            assert(entries@[i as int]@ == ev[i as int]);
        }
        let es = str_to_chars(entries[i].as_str());
        let ghost rdv = r.deep_view();
        if contains_sub(&es, typed) {
            r.push(entries[i].clone());
            proof {
                assert(r.deep_view() =~~= rdv.push(ev[i as int]));
            }
        }
        i += 1;
    }
    proof {
        assert(ev.take(i as int) =~= ev);
    }
    r
}

/// The next selection, wrapping from the end back to the start.
pub fn wrap_next(selected: usize, n: usize) -> (r: usize)
    requires
        n > 0,
        selected < n,
    ensures
        r < n,
        selected + 1 < n ==> r == selected + 1,
        selected + 1 == n ==> r == 0,
{
    if selected + 1 < n {
        selected + 1
    } else {
        0
    }
}

/// The previous selection, wrapping from the start to the end.
pub fn wrap_prev(selected: usize, n: usize) -> (r: usize)
    requires
        n > 0,
        selected < n,
    ensures
        r < n,
        selected > 0 ==> r == selected - 1,
        selected == 0 ==> r == n - 1,
{
    if selected > 0 {
        selected - 1
    } else {
        n - 1
    }
}

/// The position of the last `c` in `s`.
pub open spec fn last_idx_of(s: Seq<char>, c: char) -> Option<int>
    decreases s.len(),
{
    if s.len() == 0 {
        None
    } else if s.last() == c {
        Some(s.len() - 1)
    } else {
        last_idx_of(s.drop_last(), c)
    }
}

/// The text and cursor after a suggestion is accepted: the partial token
/// (from its last prefix character up to the cursor) is replaced by the
/// prefix and the chosen entry, and the cursor lands right after it.
/// Without a prefix character before the cursor nothing changes.
pub open spec fn spec_apply_suggestion(
    text: Seq<char>,
    cursor: int,
    pre: char,
    selected: Seq<char>,
) -> Option<(Seq<char>, int)> {
    let before = text.take(cursor);
    match last_idx_of(before, pre) {
        None => None,
        Some(k) => Some(
            (
                before.take(k) + seq![pre] + selected + text.skip(cursor),
                k + 1 + selected.len(),
            ),
        ),
    }
}

/// The prefix character of a suggestion kind.
pub fn kind_prefix(kind: AutoCompleteKind) -> (c: char)
    ensures
        kind == AutoCompleteKind::Project ==> c == '+',
        kind == AutoCompleteKind::Context ==> c == '@',
{
    match kind {
        AutoCompleteKind::Project => '+',
        AutoCompleteKind::Context => '@',
    }
}

/// Splices the chosen suggestion into the text at the partial token.
pub fn apply_suggestion(text: &Vec<char>, cursor: usize, pre: char, selected: &Vec<char>) -> (r:
    Option<(Vec<char>, usize)>)
    requires
        cursor <= text@.len(),
    ensures
        match r {
            Some(t) => spec_apply_suggestion(text@, cursor as int, pre, selected@) == Some(
                (t.0@, t.1 as int),
            ) && t.1 <= t.0@.len(),
            None => spec_apply_suggestion(text@, cursor as int, pre, selected@) is None,
        },
{
    let ghost before = text@.take(cursor as int);
    // find the last prefix character before the cursor
    let mut k: usize = 0;
    let mut found = false;
    let mut i: usize = 0;
    proof {
        assert(before.take(0) =~= Seq::<char>::empty());
    }
    while i < cursor
        invariant
            i <= cursor <= text@.len(),
            before == text@.take(cursor as int),
            found ==> k < i && last_idx_of(before.take(i as int), pre) == Some(k as int),
            !found ==> last_idx_of(before.take(i as int), pre) is None,
        decreases cursor - i,
    {
        proof {
            assert(before.take(i + 1).drop_last() =~= before.take(i as int));
            assert(before.take(i + 1).last() == before[i as int]);
            assert(before[i as int] == text@[i as int]);
        }
        if text[i] == pre {
            k = i;
            found = true;
        }
        i += 1;
    }
    proof {
        assert(before.take(cursor as int) =~= before);
    }
    if !found {
        return None;
    }
    let stem = subvec(text, 0, k);
    proof {
        assert(before.take(k as int) =~= stem@);
    }
    let mut out = stem;
    out.push(pre);
    push_all(&mut out, selected);
    let new_cursor = out.len();
    let tail = subvec(text, cursor, text.len());
    push_all(&mut out, &tail);
    proof {
        assert(out@ =~= before.take(k as int) + seq![pre] + selected@ + text@.skip(
            cursor as int,
        ));
    }
    Some((out, new_cursor))
}

} // verus!
