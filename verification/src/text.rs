//! Character-sequence primitives: whitespace runs, trimming, splitting a
//! line into chunks (a run of whitespace followed by a word), and substring
//! containment. All task-text logic is specified over `Seq<char>`.
use vstd::prelude::*;

verus! {

/// The characters treated as whitespace when a task line is split into words.
pub open spec fn is_ws(c: char) -> bool {
    c == ' ' || c == '\t' || c == '\n' || c == '\r' || c == '\x0c'
}

/// Executable check matching `is_ws`.
pub fn ws_char(c: char) -> (r: bool)
    ensures
        r == is_ws(c),
{
    c == ' ' || c == '\t' || c == '\n' || c == '\r' || c == '\x0c'
}

/// Length of the run of whitespace characters at the start of `s`.
pub open spec fn ws_prefix_len(s: Seq<char>) -> nat
    decreases s.len(),
{
    if s.len() == 0 || !is_ws(s[0]) {
        0
    } else {
        (1 + ws_prefix_len(s.skip(1))) as nat
    }
}

/// Length of the run of non-whitespace characters at the start of `s`.
pub open spec fn word_prefix_len(s: Seq<char>) -> nat
    decreases s.len(),
{
    if s.len() == 0 || is_ws(s[0]) {
        0
    } else {
        (1 + word_prefix_len(s.skip(1))) as nat
    }
}

pub proof fn lemma_ws_prefix(s: Seq<char>)
    ensures
        ws_prefix_len(s) <= s.len(),
        forall|j: int| 0 <= j < ws_prefix_len(s) ==> is_ws(s[j]),
        ws_prefix_len(s) < s.len() ==> !is_ws(s[ws_prefix_len(s) as int]),
    decreases s.len(),
{
    if s.len() == 0 || !is_ws(s[0]) {
    } else {
        lemma_ws_prefix(s.skip(1));
        assert forall|j: int| 0 <= j < ws_prefix_len(s) implies is_ws(s[j]) by {
            if j > 0 {
                assert(s.skip(1)[j - 1] == s[j]);
            }
        }
        if ws_prefix_len(s) < s.len() {
            assert(s.skip(1)[ws_prefix_len(s) as int - 1] == s[ws_prefix_len(s) as int]);
        }
    }
}

pub proof fn lemma_ws_prefix_is(s: Seq<char>, i: int)
    requires
        0 <= i <= s.len(),
        forall|j: int| 0 <= j < i ==> is_ws(s[j]),
        i < s.len() ==> !is_ws(s[i]),
    ensures
        ws_prefix_len(s) == i,
    decreases s.len(),
{
    if i == 0 {
    } else {
        assert(is_ws(s[0]));
        assert forall|j: int| 0 <= j < i - 1 implies is_ws(s.skip(1)[j]) by {
            assert(s.skip(1)[j] == s[j + 1]);
        }
        if i - 1 < s.skip(1).len() {
            assert(s.skip(1)[i - 1] == s[i]);
        }
        lemma_ws_prefix_is(s.skip(1), i - 1);
    }
}

pub proof fn lemma_word_prefix(s: Seq<char>)
    ensures
        word_prefix_len(s) <= s.len(),
        forall|j: int| 0 <= j < word_prefix_len(s) ==> !is_ws(s[j]),
        word_prefix_len(s) < s.len() ==> is_ws(s[word_prefix_len(s) as int]),
    decreases s.len(),
{
    if s.len() == 0 || is_ws(s[0]) {
    } else {
        lemma_word_prefix(s.skip(1));
        assert forall|j: int| 0 <= j < word_prefix_len(s) implies !is_ws(s[j]) by {
            if j > 0 {
                assert(s.skip(1)[j - 1] == s[j]);
            }
        }
        if word_prefix_len(s) < s.len() {
            assert(s.skip(1)[word_prefix_len(s) as int - 1] == s[word_prefix_len(s) as int]);
        }
    }
}

pub proof fn lemma_word_prefix_is(s: Seq<char>, i: int)
    requires
        0 <= i <= s.len(),
        forall|j: int| 0 <= j < i ==> !is_ws(s[j]),
        i < s.len() ==> is_ws(s[i]),
    ensures
        word_prefix_len(s) == i,
    decreases s.len(),
{
    if i == 0 {
    } else {
        assert(!is_ws(s[0]));
        assert forall|j: int| 0 <= j < i - 1 implies !is_ws(s.skip(1)[j]) by {
            assert(s.skip(1)[j] == s[j + 1]);
        }
        if i - 1 < s.skip(1).len() {
            assert(s.skip(1)[i - 1] == s[i]);
        }
        lemma_word_prefix_is(s.skip(1), i - 1);
    }
}

/// Length of the run of trailing whitespace characters of `s`.
pub open spec fn ws_suffix_len(s: Seq<char>) -> nat
    decreases s.len(),
{
    if s.len() == 0 || !is_ws(s[s.len() - 1]) {
        0
    } else {
        (1 + ws_suffix_len(s.take(s.len() - 1))) as nat
    }
}

pub proof fn lemma_ws_suffix(s: Seq<char>)
    ensures
        ws_suffix_len(s) <= s.len(),
        forall|j: int| s.len() - ws_suffix_len(s) <= j < s.len() ==> is_ws(s[j]),
        ws_suffix_len(s) < s.len() ==> !is_ws(s[s.len() - ws_suffix_len(s) - 1]),
    decreases s.len(),
{
    if s.len() == 0 || !is_ws(s[s.len() - 1]) {
    } else {
        lemma_ws_suffix(s.take(s.len() - 1));
        assert forall|j: int| s.len() - ws_suffix_len(s) <= j < s.len() implies is_ws(s[j]) by {
            if j < s.len() - 1 {
                assert(s.take(s.len() - 1)[j] == s[j]);
            }
        }
    }
}

pub proof fn lemma_ws_suffix_is(s: Seq<char>, i: int)
    requires
        0 <= i <= s.len(),
        forall|j: int| s.len() - i <= j < s.len() ==> is_ws(s[j]),
        i < s.len() ==> !is_ws(s[s.len() - i - 1]),
    ensures
        ws_suffix_len(s) == i,
    decreases s.len(),
{
    if i == 0 {
    } else {
        assert(is_ws(s[s.len() - 1]));
        let t = s.take(s.len() - 1);
        assert forall|j: int| t.len() - (i - 1) <= j < t.len() implies is_ws(t[j]) by {
            assert(t[j] == s[j]);
        }
        if i - 1 < t.len() {
            assert(t[t.len() - (i - 1) - 1] == s[s.len() - i - 1]);
        }
        lemma_ws_suffix_is(t, i - 1);
    }
}

/// `s` with its leading whitespace removed.
pub open spec fn trim_start(s: Seq<char>) -> Seq<char> {
    s.skip(ws_prefix_len(s) as int)
}

/// `s` with its trailing whitespace removed.
pub open spec fn trim_end(s: Seq<char>) -> Seq<char> {
    s.take(s.len() - ws_suffix_len(s))
}

/// `s` with whitespace removed at both ends.
pub open spec fn trim(s: Seq<char>) -> Seq<char> {
    trim_end(trim_start(s))
}

/// A non-empty trimmed sequence neither starts nor ends in whitespace.
pub proof fn lemma_trim_ends(s: Seq<char>)
    ensures
        trim(s).len() > 0 ==> !is_ws(trim(s)[0]) && !is_ws(trim(s).last()),
{
    let ts = trim_start(s);
    lemma_ws_prefix(s);
    lemma_ws_suffix(ts);
    if trim(s).len() > 0 {
        assert(trim(s)[0] == ts[0]);
        assert(ts[0] == s[ws_prefix_len(s) as int]);
        assert(trim(s).last() == ts[ts.len() - ws_suffix_len(ts) - 1]);
    }
}

/// Length of the first chunk of `s`: a (possibly empty) whitespace run
/// followed by a (possibly empty) word.
pub open spec fn chunk1_len(s: Seq<char>) -> nat {
    (ws_prefix_len(s) + word_prefix_len(s.skip(ws_prefix_len(s) as int))) as nat
}

pub proof fn lemma_chunk1_len(s: Seq<char>)
    requires
        s.len() > 0,
    ensures
        1 <= chunk1_len(s) <= s.len(),
{
    lemma_ws_prefix(s);
    lemma_word_prefix(s.skip(ws_prefix_len(s) as int));
    if ws_prefix_len(s) == 0 {
        assert(s.skip(0) =~= s);
        assert(!is_ws(s[0]));
        assert(word_prefix_len(s) > 0);
    }
}

/// The division of `s` into chunks, each a whitespace run followed by a
/// word. Only the last chunk can lack the word (trailing whitespace) and
/// only the first can lack the whitespace run.
pub open spec fn chunks(s: Seq<char>) -> Seq<Seq<char>>
    decreases s.len(),
    via chunks_decreases
{
    if s.len() == 0 {
        Seq::empty()
    } else {
        seq![s.take(chunk1_len(s) as int)] + chunks(s.skip(chunk1_len(s) as int))
    }
}

#[via_fn]
proof fn chunks_decreases(s: Seq<char>) {
    if s.len() > 0 {
        lemma_chunk1_len(s);
    }
}

/// Concatenation of a sequence of character sequences.
pub open spec fn concat_seqs(ss: Seq<Seq<char>>) -> Seq<char>
    decreases ss.len(),
{
    if ss.len() == 0 {
        Seq::<char>::empty()
    } else {
        ss[0] + concat_seqs(ss.skip(1))
    }
}

/// Concatenating the chunks of `s` gives back `s` exactly.
pub proof fn lemma_chunks_concat(s: Seq<char>)
    ensures
        concat_seqs(chunks(s)) == s,
    decreases s.len(),
{
    if s.len() == 0 {
        assert(concat_seqs(chunks(s)) =~= s);
    } else {
        lemma_chunk1_len(s);
        let c = chunk1_len(s) as int;
        lemma_chunks_concat(s.skip(c));
        assert(chunks(s).skip(1) =~= chunks(s.skip(c)));
        assert(s.take(c) + s.skip(c) =~= s);
    }
}

pub proof fn lemma_concat_seqs_append(a: Seq<Seq<char>>, b: Seq<Seq<char>>)
    ensures
        concat_seqs(a + b) == concat_seqs(a) + concat_seqs(b),
    decreases a.len(),
{
    if a.len() == 0 {
        assert(a + b =~= b);
        assert(concat_seqs(a) + concat_seqs(b) =~= concat_seqs(b));
    } else {
        lemma_concat_seqs_append(a.skip(1), b);
        assert((a + b).skip(1) =~= a.skip(1) + b);
        assert((a + b)[0] == a[0]);
        assert(a[0] + (concat_seqs(a.skip(1)) + concat_seqs(b)) =~= (a[0] + concat_seqs(a.skip(1)))
            + concat_seqs(b));
    }
}

pub proof fn lemma_concat_seqs_take_step(ss: Seq<Seq<char>>, i: int)
    requires
        0 <= i < ss.len(),
    ensures
        concat_seqs(ss.take(i + 1)) == concat_seqs(ss.take(i)) + ss[i],
{
    assert(ss.take(i + 1) =~= ss.take(i) + seq![ss[i]]);
    lemma_concat_seqs_append(ss.take(i), seq![ss[i]]);
    assert(seq![ss[i]].skip(1) =~= Seq::<Seq<char>>::empty());
    assert(seq![ss[i]][0] == ss[i]);
    assert(concat_seqs(Seq::<Seq<char>>::empty()) == Seq::<char>::empty());
    assert(concat_seqs(seq![ss[i]]) == ss[i] + Seq::<char>::empty());
    assert(concat_seqs(ss.take(i)) + (ss[i] + Seq::<char>::empty()) =~= concat_seqs(ss.take(i))
        + ss[i]);
}

/// The whitespace part of a chunk.
pub open spec fn ws_of(chunk: Seq<char>) -> Seq<char> {
    chunk.take(ws_prefix_len(chunk) as int)
}

/// The word part of a chunk (everything after its leading whitespace).
pub open spec fn word_of(chunk: Seq<char>) -> Seq<char> {
    chunk.skip(ws_prefix_len(chunk) as int)
}

/// `p` occurs in `t` as a contiguous substring.
pub open spec fn has_substring(t: Seq<char>, p: Seq<char>) -> bool {
    exists|i: int| 0 <= i <= t.len() - p.len() && #[trigger] t.subrange(i, i + p.len()) == p
}

/// `s` begins with `p`.
pub open spec fn starts_with(s: Seq<char>, p: Seq<char>) -> bool {
    s.len() >= p.len() && s.take(p.len() as int) == p
}

/// The characters of `s`, in order, as a vector.
pub fn str_to_chars(s: &str) -> (v: Vec<char>)
    ensures
        v@ == s@,
{
    let n = s.unicode_len();
    let mut v: Vec<char> = Vec::new();
    let mut i: usize = 0;
    while i < n
        invariant
            i <= n,
            n == s@.len(),
            v@ == s@.take(i as int),
        decreases n - i,
    {
        v.push(s.get_char(i));
        i += 1;
        assert(v@ =~= s@.take(i as int));
    }
    assert(v@ =~= s@);
    v
}

/// Relies on `String::from_iter` over `core::str::Chars`: the resulting
/// string holds exactly the given characters in order.
#[verifier::external_body]
pub fn chars_to_string(v: &Vec<char>) -> (s: String)
    ensures
        s@ == v@,
{
    v.iter().collect()
}

/// Copy of `v[from..to]`.
pub fn subvec(v: &Vec<char>, from: usize, to: usize) -> (r: Vec<char>)
    requires
        from <= to <= v@.len(),
    ensures
        r@ == v@.subrange(from as int, to as int),
{
    let mut r: Vec<char> = Vec::new();
    let mut i: usize = from;
    while i < to
        invariant
            from <= i <= to <= v@.len(),
            r@ == v@.subrange(from as int, i as int),
        decreases to - i,
    {
        r.push(v[i]);
        i += 1;
        assert(r@ =~= v@.subrange(from as int, i as int));
    }
    r
}

/// Appends all characters of `src` to `dst`.
pub fn push_all(dst: &mut Vec<char>, src: &Vec<char>)
    ensures
        final(dst)@ == old(dst)@ + src@,
{
    let mut i: usize = 0;
    while i < src.len()
        invariant
            i <= src@.len(),
            (*dst)@ == old(dst)@ + src@.take(i as int),
        decreases src@.len() - i,
    {
        dst.push(src[i]);
        i += 1;
        assert((*dst)@ =~= old(dst)@ + src@.take(i as int));
    }
    assert((*dst)@ =~= old(dst)@ + src@);
}

/// Length of the run of characters starting at `from` whose
/// whitespace-ness equals `want_ws`.
pub fn run_len(v: &Vec<char>, from: usize, want_ws: bool) -> (r: usize)
    requires
        from <= v@.len(),
    ensures
        from + r <= v@.len(),
        forall|j: int| from <= j < from + r ==> is_ws(v@[j]) == want_ws,
        from + r < v@.len() ==> is_ws(v@[from + r]) != want_ws,
{
    let mut i: usize = from;
    while i < v.len() && ws_char(v[i]) == want_ws
        invariant
            from <= i <= v@.len(),
            forall|j: int| from <= j < i ==> is_ws(v@[j]) == want_ws,
        decreases v@.len() - i,
    {
        i += 1;
    }
    i - from
}

/// Index of the first non-whitespace character of `v` (or `v.len()`).
pub fn trim_start_index(v: &Vec<char>) -> (r: usize)
    ensures
        r == ws_prefix_len(v@),
{
    let r = run_len(v, 0, true);
    proof {
        lemma_ws_prefix_is(v@, r as int);
    }
    r
}

/// One past the last non-whitespace character of `v` (or 0).
pub fn trim_end_index(v: &Vec<char>) -> (r: usize)
    ensures
        r == v@.len() - ws_suffix_len(v@),
{
    let mut i: usize = v.len();
    while i > 0 && ws_char(v[i - 1])
        invariant
            i <= v@.len(),
            forall|j: int| i <= j < v@.len() ==> is_ws(v@[j]),
        decreases i,
    {
        i -= 1;
    }
    proof {
        lemma_ws_suffix_is(v@, v@.len() - i);
    }
    i
}

/// `v` with leading and trailing whitespace removed.
pub fn trim_vec(v: &Vec<char>) -> (r: Vec<char>)
    ensures
        r@ == trim(v@),
{
    let a = trim_start_index(v);
    let b = trim_end_index(v);
    proof {
        lemma_ws_prefix(v@);
        lemma_ws_suffix(v@);
    }
    if a >= b {
        let r: Vec<char> = Vec::new();
        proof {
            let t = trim_start(v@);
            lemma_ws_suffix_is(t, t.len() as int);
            assert(trim(v@) =~= Seq::<char>::empty());
        }
        r
    } else {
        let r = subvec(v, a, b);
        proof {
            let t = trim_start(v@);
            assert(forall|j: int| t.len() - (v@.len() - b) <= j < t.len() ==> is_ws(t[j]));
            lemma_ws_suffix_is(t, v@.len() - b);
            assert(trim(v@) =~= v@.subrange(a as int, b as int));
        }
        r
    }
}

/// `v` with leading whitespace removed.
pub fn trim_start_vec(v: &Vec<char>) -> (r: Vec<char>)
    ensures
        r@ == trim_start(v@),
{
    let a = trim_start_index(v);
    proof {
        lemma_ws_prefix(v@);
    }
    let r = subvec(v, a, v.len());
    assert(r@ =~= trim_start(v@));
    r
}

/// The chunks of `v`, each a whitespace run followed by a word.
pub fn chunk_split(v: &Vec<char>) -> (r: Vec<Vec<char>>)
    ensures
        r.deep_view() == chunks(v@),
        r@.len() == chunks(v@).len(),
        forall|j: int| 0 <= j < r@.len() ==> #[trigger] r@[j]@ == chunks(v@)[j],
{
    let mut r: Vec<Vec<char>> = Vec::new();
    let mut i: usize = 0;
    proof {
        assert(v@.skip(0) =~= v@);
        assert(r.deep_view() =~~= Seq::<Seq<char>>::empty());
        assert(r.deep_view() + chunks(v@) =~~= chunks(v@));
    }
    while i < v.len()
        invariant
            i <= v@.len(),
            r.deep_view() + chunks(v@.skip(i as int)) == chunks(v@),
        decreases v@.len() - i,
    {
        let ghost s = v@.skip(i as int);
        let w = run_len(v, i, true);
        let k = run_len(v, i + w, false);
        proof {
            assert forall|j: int| 0 <= j < w implies is_ws(s[j]) by {
                assert(s[j] == v@[i + j]);
            }
            if w < s.len() {
                assert(s[w as int] == v@[i + w]);
            }
            lemma_ws_prefix_is(s, w as int);
            let s2 = s.skip(w as int);
            assert forall|j: int| 0 <= j < k implies !is_ws(s2[j]) by {
                assert(s2[j] == v@[i + w + j]);
            }
            if k < s2.len() {
                assert(s2[k as int] == v@[i + w + k]);
            }
            lemma_word_prefix_is(s2, k as int);
            assert(chunk1_len(s) == w + k);
        }
        let chunk = subvec(v, i, i + w + k);
        proof {
            assert(chunk@ =~= s.take((w + k) as int));
            assert(s.skip((w + k) as int) =~= v@.skip((i + w + k) as int));
            lemma_chunk1_len(s);
            assert(chunks(s) == seq![s.take((w + k) as int)] + chunks(
                v@.skip((i + w + k) as int),
            ));
        }
        let ghost rdv = r.deep_view();
        r.push(chunk);
        i = i + w + k;
        proof {
            assert(r.deep_view() =~~= rdv.push(chunk@));
            assert(r.deep_view() + chunks(v@.skip(i as int)) =~~= chunks(v@));
        }
    }
    proof {
        assert(v@.skip(i as int) =~= Seq::<char>::empty());
        assert(r.deep_view() =~~= r.deep_view() + chunks(v@.skip(i as int)));
        assert forall|j: int| 0 <= j < r@.len() implies #[trigger] r@[j]@ == chunks(v@)[j] by {
            assert(r@[j]@ =~= r.deep_view()[j]);
        }
    }
    r
}

/// The word part of a chunk, as a vector.
pub fn chunk_word(chunk: &Vec<char>) -> (w: Vec<char>)
    ensures
        w@ == word_of(chunk@),
{
    let a = trim_start_index(chunk);
    proof {
        lemma_ws_prefix(chunk@);
    }
    let w = subvec(chunk, a, chunk.len());
    assert(w@ =~= word_of(chunk@));
    w
}

/// The whitespace part of a chunk, as a vector.
pub fn chunk_ws(chunk: &Vec<char>) -> (w: Vec<char>)
    ensures
        w@ == ws_of(chunk@),
{
    let a = trim_start_index(chunk);
    proof {
        lemma_ws_prefix(chunk@);
    }
    let w = subvec(chunk, 0, a);
    assert(w@ =~= ws_of(chunk@));
    w
}

/// Whether `v` starts with `p` at position `at`.
pub fn starts_with_at(v: &Vec<char>, at: usize, p: &Vec<char>) -> (r: bool)
    requires
        at <= v@.len(),
    ensures
        r == (at + p@.len() <= v@.len() && v@.subrange(at as int, at + p@.len()) == p@),
{
    if p.len() > v.len() - at {
        return false;
    }
    let mut i: usize = 0;
    while i < p.len()
        invariant
            i <= p@.len(),
            at + p@.len() <= v.len(),
            forall|j: int| 0 <= j < i ==> v@[at + j] == p@[j],
        decreases p@.len() - i,
    {
        if v[at + i] != p[i] {
            assert(v@.subrange(at as int, at + p@.len())[i as int] != p@[i as int]);
            return false;
        }
        i += 1;
    }
    assert(v@.subrange(at as int, at + p@.len()) =~= p@);
    true
}

/// Whether `p` occurs anywhere in `t` as a contiguous substring.
pub fn contains_sub(t: &Vec<char>, p: &Vec<char>) -> (r: bool)
    ensures
        r == has_substring(t@, p@),
{
    if p.len() > t.len() {
        return false;
    }
    if p.len() == 0 {
        proof {
            assert(t@.subrange(0, 0 + p@.len() as int) =~= p@);
        }
        return true;
    }
    let mut i: usize = 0;
    while i <= t.len() - p.len()
        invariant
            1 <= p@.len() <= t.len(),
            i <= t@.len() - p@.len() + 1,
            forall|j: int| 0 <= j < i ==> #[trigger] t@.subrange(j, j + p@.len()) != p@,
        decreases t@.len() - p@.len() + 1 - i,
    {
        if starts_with_at(t, i, p) {
            return true;
        }
        i += 1;
    }
    false
}

} // verus!
