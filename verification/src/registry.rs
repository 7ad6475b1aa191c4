//! The registry of `+project` and `@context` tags seen so far. It only
//! grows: removing a task does not prune it.
use vstd::prelude::*;

use crate::text::{chunk_split, chunk_word, chunks, subvec, word_of};

verus! {

/// Membership of a tag among the collected entries.
pub open spec fn has_tag(entries: Seq<Seq<char>>, s: Seq<char>) -> bool {
    exists|i: int| 0 <= i < entries.len() && entries[i] == s
}

/// The line contains `s` as a tag: one of its words is the prefix
/// character followed by `s`, and `s` is not empty.
pub open spec fn tag_in_chunks(cs: Seq<Seq<char>>, pre: char, s: Seq<char>) -> bool {
    s.len() > 0 && exists|k: int| 0 <= k < cs.len() && word_of(#[trigger] cs[k]) == seq![pre] + s
}

pub open spec fn line_has_tag(t: Seq<char>, pre: char, s: Seq<char>) -> bool {
    tag_in_chunks(chunks(t), pre, s)
}

pub struct TagRegistry {
    pub projects: Vec<String>,
    pub contexts: Vec<String>,
}

impl TagRegistry {
    /// Each list holds no duplicates.
    pub open spec fn wf(self) -> bool {
        &&& (forall|i: int, j: int|
            0 <= i < j < self.projects@.len() ==> self.projects@[i]@ != self.projects@[j]@)
        &&& (forall|i: int, j: int|
            0 <= i < j < self.contexts@.len() ==> self.contexts@[i]@ != self.contexts@[j]@)
    }

    /// An empty registry.
    pub fn new() -> (r: TagRegistry)
        ensures
            r.wf(),
            r.projects@.len() == 0,
            r.contexts@.len() == 0,
    {
        TagRegistry { projects: Vec::new(), contexts: Vec::new() }
    }

    /// Collects every `+project` and `@context` tag of the line into the
    /// registry. Existing entries stay, in their order; each new tag is
    /// added once.
    pub fn add_from_text(&mut self, text: &str)
        requires
            old(self).wf(),
        ensures
            final(self).wf(),
            forall|s: Seq<char>|
                #[trigger] has_tag(final(self).projects.deep_view(), s) <==> (has_tag(
                    old(self).projects.deep_view(),
                    s,
                ) || line_has_tag(text@, '+', s)),
            forall|s: Seq<char>|
                #[trigger] has_tag(final(self).contexts.deep_view(), s) <==> (has_tag(
                    old(self).contexts.deep_view(),
                    s,
                ) || line_has_tag(text@, '@', s)),
            old(self).projects@.len() <= final(self).projects@.len(),
            old(self).contexts@.len() <= final(self).contexts@.len(),
            forall|i: int|
                0 <= i < old(self).projects@.len() ==> final(self).projects@[i]@ == old(
                    self,
                ).projects@[i]@,
            forall|i: int|
                0 <= i < old(self).contexts@.len() ==> final(self).contexts@[i]@ == old(
                    self,
                ).contexts@[i]@,
    {
        let chars = crate::text::str_to_chars(text);
        let cs = chunk_split(&chars);
        let ghost csv = chunks(chars@);
        let mut i: usize = 0;
        proof {
            assert(csv.take(0) =~= Seq::<Seq<char>>::empty());
            assert forall|s: Seq<char>|
                #[trigger] has_tag(self.projects.deep_view(), s) <==> (has_tag(
                    old(self).projects.deep_view(),
                    s,
                ) || tag_in_chunks(csv.take(0), '+', s)) by {}
        }
        while i < cs.len()
            invariant
                i <= csv.len(),
                cs.deep_view() == csv,
                cs@.len() == csv.len(),
                forall|j: int| 0 <= j < cs@.len() ==> #[trigger] cs@[j]@ == csv[j],
                self.wf(),
                forall|s: Seq<char>|
                    #[trigger] has_tag(self.projects.deep_view(), s) <==> (has_tag(
                        old(self).projects.deep_view(),
                        s,
                    ) || tag_in_chunks(csv.take(i as int), '+', s)),
                forall|s: Seq<char>|
                    #[trigger] has_tag(self.contexts.deep_view(), s) <==> (has_tag(
                        old(self).contexts.deep_view(),
                        s,
                    ) || tag_in_chunks(csv.take(i as int), '@', s)),
                old(self).projects@.len() <= self.projects@.len(),
                old(self).contexts@.len() <= self.contexts@.len(),
                forall|k: int|
                    0 <= k < old(self).projects@.len() ==> self.projects@[k]@ == old(
                        self,
                    ).projects@[k]@,
                forall|k: int|
                    0 <= k < old(self).contexts@.len() ==> self.contexts@[k]@ == old(
                        self,
                    ).contexts@[k]@,
            decreases csv.len() - i,
        {
            assert(cs@[i as int]@ == csv[i as int]);
            let w = chunk_word(&cs[i]);
            let ghost wv = word_of(csv[i as int]);
            assert(w@ == wv);
            if w.len() >= 2 && w[0] == '+' {
                let tag = subvec(&w, 1, w.len());
                proof {
                    assert(seq!['+'] + tag@ =~= wv);
                }
                add_unique(&mut self.projects, &tag);
            } else if w.len() >= 2 && w[0] == '@' {
                let tag = subvec(&w, 1, w.len());
                proof {
                    assert(seq!['@'] + tag@ =~= wv);
                }
                add_unique(&mut self.contexts, &tag);
            }
            proof {
                assert(csv.take(i + 1).drop_last() =~= csv.take(i as int));
                assert(csv.take(i + 1).last() == csv[i as int]);
                assert forall|s: Seq<char>|
                    #[trigger] tag_in_chunks(csv.take(i + 1), '+', s) <==> (tag_in_chunks(
                        csv.take(i as int),
                        '+',
                        s,
                    ) || (s.len() > 0 && wv == seq!['+'] + s)) by {
                    lemma_tag_step(csv, i as int, '+', s);
                }
                assert forall|s: Seq<char>|
                    #[trigger] tag_in_chunks(csv.take(i + 1), '@', s) <==> (tag_in_chunks(
                        csv.take(i as int),
                        '@',
                        s,
                    ) || (s.len() > 0 && wv == seq!['@'] + s)) by {
                    lemma_tag_step(csv, i as int, '@', s);
                }
                if wv.len() >= 2 && wv[0] == '+' {
                    assert(forall|s: Seq<char>|
                        (s.len() > 0 && wv == seq!['+'] + s) ==> s =~= wv.skip(1));
                }
                if wv.len() >= 2 && wv[0] == '@' {
                    assert(forall|s: Seq<char>|
                        (s.len() > 0 && wv == seq!['@'] + s) ==> s =~= wv.skip(1));
                }
                if !(wv.len() >= 2 && (wv[0] == '+' || wv[0] == '@')) {
                    assert forall|s: Seq<char>, pre: char|
                        (pre == '+' || pre == '@') && s.len() > 0 implies wv != seq![pre] + s by {
                        if wv == seq![pre] + s {
                            assert(wv.len() == 1 + s.len());
                            assert(wv[0] == pre);
                        }
                    }
                }
            }
            i += 1;
        }
        proof {
            assert(csv.take(i as int) =~= csv);
        }
    }
}

/// One step of the tag search: the tags of the first `i + 1` chunks are
/// those of the first `i` plus whatever chunk `i`'s word contributes.
proof fn lemma_tag_step(csv: Seq<Seq<char>>, i: int, pre: char, s: Seq<char>)
    requires
        0 <= i < csv.len(),
    ensures
        tag_in_chunks(csv.take(i + 1), pre, s) <==> (tag_in_chunks(csv.take(i), pre, s) || (
        s.len() > 0 && word_of(csv[i]) == seq![pre] + s)),
{
    let a = csv.take(i + 1);
    let b = csv.take(i);
    assert(forall|k: int| 0 <= k < i ==> a[k] == csv[k] && b[k] == csv[k]);
    assert(a[i] == csv[i]);
    if tag_in_chunks(a, pre, s) {
        let k = choose|k: int| 0 <= k < a.len() && word_of(#[trigger] a[k]) == seq![pre] + s;
        if k < i {
            assert(word_of(b[k]) == seq![pre] + s);
        }
    }
    if tag_in_chunks(b, pre, s) {
        let k = choose|k: int| 0 <= k < b.len() && word_of(#[trigger] b[k]) == seq![pre] + s;
        assert(word_of(a[k]) == seq![pre] + s);
    }
    if s.len() > 0 && word_of(csv[i]) == seq![pre] + s {
        assert(word_of(a[i]) == seq![pre] + s);
    }
}

/// Adds the tag to the entries unless an equal one is already there.
fn add_unique(entries: &mut Vec<String>, tag: &Vec<char>)
    requires
        forall|i: int, j: int|
            0 <= i < j < old(entries)@.len() ==> old(entries)@[i]@ != old(entries)@[j]@,
        tag@.len() > 0,
    ensures
        forall|i: int, j: int|
            0 <= i < j < final(entries)@.len() ==> final(entries)@[i]@ != final(entries)@[j]@,
        forall|s: Seq<char>|
            #[trigger] has_tag(final(entries).deep_view(), s) <==> (has_tag(
                old(entries).deep_view(),
                s,
            ) || s == tag@),
        old(entries)@.len() <= final(entries)@.len(),
        forall|i: int|
            0 <= i < old(entries)@.len() ==> final(entries)@[i]@ == old(entries)@[i]@,
{
    let s = crate::text::chars_to_string(tag);
    let mut i: usize = 0;
    while i < entries.len()
        invariant
            i <= entries@.len(),
            s@ == tag@,
            *entries == *old(entries),
            forall|a: int, b: int|
                0 <= a < b < old(entries)@.len() ==> old(entries)@[a]@ != old(entries)@[b]@,
            forall|j: int| 0 <= j < i ==> entries@[j]@ != tag@,
        decreases entries@.len() - i,
    {
        if entries[i].eq(&s) {
            proof {
                assert(has_tag(entries.deep_view(), tag@)) by {
                    assert(entries.deep_view()[i as int] == tag@);
                }
                assert forall|t: Seq<char>|
                    #[trigger] has_tag(entries.deep_view(), t) <==> (has_tag(
                        old(entries).deep_view(),
                        t,
                    ) || t == tag@) by {}
                assert forall|a: int, b: int|
                    0 <= a < b < entries@.len() implies entries@[a]@ != entries@[b]@ by {
                    assert(old(entries)@[a]@ != old(entries)@[b]@);
                    assert(entries@[a] == old(entries)@[a]);
                    assert(entries@[b] == old(entries)@[b]);
                }
            }
            return ;
        }
        i += 1;
    }
    let ghost before = entries.deep_view();
    entries.push(s);
    proof {
        assert(entries.deep_view() =~~= before.push(tag@));
        assert forall|t: Seq<char>|
            #[trigger] has_tag(entries.deep_view(), t) implies (has_tag(before, t) || t
            == tag@) by {
            let k = choose|k: int|
                0 <= k < entries.deep_view().len() && entries.deep_view()[k] == t;
            if k < before.len() {
                assert(before[k] == t);
            }
        }
        assert forall|t: Seq<char>|
            (has_tag(before, t) || t == tag@) implies #[trigger] has_tag(
            entries.deep_view(),
            t,
        ) by {
            if has_tag(before, t) {
                let k = choose|k: int| 0 <= k < before.len() && before[k] == t;
                assert(entries.deep_view()[k] == t);
            } else {
                assert(entries.deep_view()[before.len() as int] == t);
            }
        }
        assert forall|i2: int, j2: int|
            0 <= i2 < j2 < entries@.len() implies entries@[i2]@ != entries@[j2]@ by {
            if j2 == entries@.len() - 1 {
                assert(entries@[i2]@ == before[i2]);
                assert(entries@[j2]@ == tag@);
            }
        }
    }
}

} // verus!
