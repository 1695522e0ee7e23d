//! Character-sequence helpers shared by the parsers of this crate.
//!
//! Contracts are stated over `Seq<char>`; executable code works on `Vec<char>`
//! and converts at the edges.

use vstd::prelude::*;
use vstd::string::StringExecFns;

verus! {

/// `String::push` appends one character to the end of the string.
pub assume_specification[ String::push ](s: &mut String, ch: char)
    ensures
        final(s)@ == old(s)@.push(ch),
;

/// The characters of `s`, in order.
pub fn chars_of(s: &str) -> (v: Vec<char>)
    ensures
        v@ == s@,
{
    let mut v: Vec<char> = Vec::new();
    for c in it: s.chars()
        invariant
            v@ == it.seq().take(it.index() as int),
            it.seq() == s@,
    {
        v.push(c);
    }
    v
}

/// The string whose characters are those of `v`, in order.
pub fn string_of(v: &Vec<char>) -> (s: String)
    ensures
        s@ == v@,
{
    let mut s = String::new();
    let mut i: usize = 0;
    while i < v.len()
        invariant
            i <= v.len(),
            s@ == v@.take(i as int),
        decreases v.len() - i,
    {
        s.push(v[i]);
        i = i + 1;
        assert(v@.take(i as int) == v@.take(i - 1).push(v@[i - 1]));
    }
    assert(v@.take(v.len() as int) == v@);
    s
}

/// Whether two string slices hold the same characters.
pub fn str_eq(a: &str, b: &str) -> (r: bool)
    ensures
        r == (a@ == b@),
{
    let x = a.to_owned();
    let y = b.to_owned();
    x == y
}


/// Whether `c` is white space: the code points with the Unicode property
/// `White_Space`.
pub open spec fn is_space(c: char) -> bool {
    let n = c as u32;
    ||| 0x09 <= n <= 0x0D
    ||| n == 0x20
    ||| n == 0x85
    ||| n == 0xA0
    ||| n == 0x1680
    ||| 0x2000 <= n <= 0x200A
    ||| n == 0x2028
    ||| n == 0x2029
    ||| n == 0x202F
    ||| n == 0x205F
    ||| n == 0x3000
}

/// `s` without its leading white space.
pub open spec fn trim_start_of(s: Seq<char>) -> Seq<char>
    decreases s.len(),
{
    if s.len() > 0 && is_space(s[0]) {
        trim_start_of(s.drop_first())
    } else {
        s
    }
}

/// `s` without its trailing white space.
pub open spec fn trim_end_of(s: Seq<char>) -> Seq<char>
    decreases s.len(),
{
    if s.len() > 0 && is_space(s.last()) {
        trim_end_of(s.drop_last())
    } else {
        s
    }
}

/// `s` without leading and trailing white space.
pub open spec fn trimmed(s: Seq<char>) -> Seq<char> {
    trim_end_of(trim_start_of(s))
}

/// Leading white space ends at `k`: everything before `k` is white space and
/// the character at `k`, if any, is not.
pub proof fn lemma_trim_start(s: Seq<char>, k: int)
    requires
        0 <= k <= s.len(),
        forall|i: int| 0 <= i < k ==> is_space(#[trigger] s[i]),
        k < s.len() ==> !is_space(s[k]),
    ensures
        trim_start_of(s) == s.subrange(k, s.len() as int),
    decreases k,
{
    if k == 0 {
        assert(s.subrange(0, s.len() as int) == s);
    } else {
        let t = s.drop_first();
        assert forall|i: int| 0 <= i < k - 1 implies is_space(#[trigger] t[i]) by {
            assert(t[i] == s[i + 1]);
        }
        lemma_trim_start(t, k - 1);
        assert(t.subrange(k - 1, t.len() as int) == s.subrange(k, s.len() as int));
    }
}

/// Trailing white space starts at `k`: everything from `k` on is white space
/// and the character before `k`, if any, is not.
pub proof fn lemma_trim_end(s: Seq<char>, k: int)
    requires
        0 <= k <= s.len(),
        forall|i: int| k <= i < s.len() ==> is_space(#[trigger] s[i]),
        k > 0 ==> !is_space(s[k - 1]),
    ensures
        trim_end_of(s) == s.subrange(0, k),
    decreases s.len() - k,
{
    if k == s.len() {
        assert(s.subrange(0, s.len() as int) == s);
    } else {
        let t = s.drop_last();
        assert forall|i: int| k <= i < t.len() implies is_space(#[trigger] t[i]) by {
            assert(t[i] == s[i]);
        }
        lemma_trim_end(t, k);
        assert(t.subrange(0, k) == s.subrange(0, k));
    }
}

/// Whether `c` is white space.
pub fn char_is_space(c: char) -> (r: bool)
    ensures
        r == is_space(c),
{
    let n: u32 = c as u32;
    (0x09 <= n && n <= 0x0D) || n == 0x20 || n == 0x85 || n == 0xA0 || n == 0x1680 || (0x2000 <= n
        && n <= 0x200A) || n == 0x2028 || n == 0x2029 || n == 0x202F || n == 0x205F || n == 0x3000
}

/// The characters of `v` between positions `from` and `to`.
pub fn slice_of(v: &Vec<char>, from: usize, to: usize) -> (r: Vec<char>)
    requires
        from <= to <= v.len(),
    ensures
        r@ == v@.subrange(from as int, to as int),
{
    let mut r: Vec<char> = Vec::new();
    let mut i: usize = from;
    while i < to
        invariant
            from <= i <= to <= v.len(),
            r@ == v@.subrange(from as int, i as int),
        decreases to - i,
    {
        r.push(v[i]);
        i = i + 1;
    }
    r
}

/// `v` without leading and trailing white space.
pub fn trim(v: &Vec<char>) -> (r: Vec<char>)
    ensures
        r@ == trimmed(v@),
{
    let mut start: usize = 0;
    while start < v.len() && char_is_space(v[start])
        invariant
            start <= v.len(),
            forall|i: int| 0 <= i < start ==> is_space(#[trigger] v@[i]),
        decreases v.len() - start,
    {
        start = start + 1;
    }
    let mut end: usize = v.len();
    while end > start && char_is_space(v[end - 1])
        invariant
            start <= end <= v.len(),
            forall|i: int| end <= i < v.len() ==> is_space(#[trigger] v@[i]),
        decreases end,
    {
        end = end - 1;
    }
    proof {
        lemma_trim_start(v@, start as int);
        let t = v@.subrange(start as int, v.len() as int);
        if end > start {
            assert(t[end - start - 1] == v@[end - 1]);
        }
        assert forall|i: int| end - start <= i < t.len() implies is_space(#[trigger] t[i]) by {
            assert(t[i] == v@[i + start]);
        }
        lemma_trim_end(t, end - start);
        assert(t.subrange(0, end - start) == v@.subrange(start as int, end as int));
    }
    slice_of(v, start, end)
}


/// Whether `pat` occurs in `s` at position `i`.
pub open spec fn occurs_at(s: Seq<char>, i: int, pat: Seq<char>) -> bool {
    0 <= i && i + pat.len() <= s.len() && s.subrange(i, i + pat.len()) == pat
}

/// Whether `pat` occurs somewhere in `s`.
pub open spec fn contains_seq(s: Seq<char>, pat: Seq<char>) -> bool {
    exists|i: int| occurs_at(s, i, pat)
}

/// Whether `pat` occurs in `v` at position `i`.
pub fn matches_at(v: &Vec<char>, i: usize, pat: &Vec<char>) -> (r: bool)
    ensures
        r == occurs_at(v@, i as int, pat@),
{
    if pat.len() > v.len() || i > v.len() - pat.len() {
        return false;
    }
    let mut j: usize = 0;
    while j < pat.len()
        invariant
            j <= pat.len(),
            i + pat.len() <= v.len(),
            forall|k: int| 0 <= k < j ==> v@[i + k] == pat@[k],
        decreases pat.len() - j,
    {
        if v[i + j] != pat[j] {
            proof {
                let w = v@.subrange(i as int, i + pat.len());
                assert(w[j as int] == v@[i + j]);
            }
            return false;
        }
        j = j + 1;
    }
    assert(v@.subrange(i as int, i + pat.len()) =~= pat@);
    true
}

/// Whether `v` begins with `pat`.
pub fn starts_with(v: &Vec<char>, pat: &Vec<char>) -> (r: bool)
    ensures
        r == pat@.is_prefix_of(v@),
{
    let r = matches_at(v, 0, pat);
    proof {
        if pat@.len() <= v@.len() {
            assert(v@.subrange(0, pat@.len() as int) == v@.take(pat@.len() as int));
        }
    }
    r
}

/// Whether `pat` occurs somewhere in `v`.
pub fn contains(v: &Vec<char>, pat: &Vec<char>) -> (r: bool)
    ensures
        r == contains_seq(v@, pat@),
{
    if pat.len() > v.len() {
        return false;
    }
    let last: usize = v.len() - pat.len();
    let mut i: usize = 0;
    loop
        invariant
            i <= last,
            last == v.len() - pat.len(),
            forall|k: int| 0 <= k < i ==> !occurs_at(v@, k, pat@),
        decreases last - i,
    {
        if matches_at(v, i, pat) {
            return true;
        }
        if i == last {
            return false;
        }
        i = i + 1;
    }
}

/// `s` with every occurrence of the non-empty `pat` taken out, scanning from
/// the left and never looking back at what was already kept.
pub open spec fn without(s: Seq<char>, pat: Seq<char>) -> Seq<char>
    decreases s.len(),
{
    if pat.len() == 0 || s.len() < pat.len() {
        s
    } else if occurs_at(s, 0, pat) {
        without(s.skip(pat.len() as int), pat)
    } else {
        seq![s[0]] + without(s.skip(1), pat)
    }
}

/// `v` with every occurrence of `pat` taken out.
pub fn remove_all(v: &Vec<char>, pat: &Vec<char>) -> (r: Vec<char>)
    ensures
        r@ == without(v@, pat@),
{
    let mut r: Vec<char> = Vec::new();
    if pat.len() == 0 {
        return slice_of(v, 0, v.len());
    }
    let mut i: usize = 0;
    proof {
        assert(v@.skip(0) == v@);
        assert(r@ + without(v@, pat@) == without(v@, pat@));
    }
    while i < v.len()
        invariant
            i <= v.len(),
            pat.len() > 0,
            r@ + without(v@.skip(i as int), pat@) == without(v@, pat@),
        decreases v.len() - i,
    {
        let ghost rest = v@.skip(i as int);
        if matches_at(v, i, pat) {
            proof {
                assert(rest.subrange(0, pat@.len() as int) == v@.subrange(
                    i as int,
                    i + pat@.len(),
                ));
                assert(rest.skip(pat@.len() as int) == v@.skip(i + pat@.len()));
            }
            i = i + pat.len();
        } else {
            proof {
                if rest.len() >= pat@.len() {
                    assert(rest.subrange(0, pat@.len() as int) == v@.subrange(
                        i as int,
                        i + pat@.len(),
                    ));
                    assert(rest.skip(1) == v@.skip(i + 1));
                    assert(rest[0] == v@[i as int]);
                    assert(r@.push(v@[i as int]) + without(rest.skip(1), pat@) == r@ + (seq![
                        rest[0],
                    ] + without(rest.skip(1), pat@)));
                } else {
                    lemma_without_short(rest, pat@);
                    lemma_without_short(rest.skip(1), pat@);
                    assert(rest.skip(1) == v@.skip(i + 1));
                    assert(r@.push(v@[i as int]) + rest.skip(1) == r@ + rest);
                }
            }
            r.push(v[i]);
            i = i + 1;
        }
    }
    proof {
        assert(v@.skip(v.len() as int).len() == 0);
        assert(r@ + without(v@.skip(v.len() as int), pat@) == r@);
    }
    r
}

/// A sequence shorter than the pattern holds no occurrence of it.
pub proof fn lemma_without_short(s: Seq<char>, pat: Seq<char>)
    requires
        s.len() < pat.len(),
    ensures
        without(s, pat) == s,
{
}

/// The position of the first `c` in `s`, or the length of `s` where there is
/// none.
pub open spec fn index_of(s: Seq<char>, c: char) -> int
    decreases s.len(),
{
    if s.len() == 0 {
        0
    } else if s[0] == c {
        0
    } else {
        1 + index_of(s.drop_first(), c)
    }
}

/// The pieces of `s` between occurrences of `sep`. There is always at least
/// one piece; pieces may be empty.
pub open spec fn split_on(s: Seq<char>, sep: char) -> Seq<Seq<char>>
    decreases s.len(),
{
    let i = index_of(s, sep);
    if 0 <= i < s.len() {
        seq![s.take(i)] + split_on(s.skip(i + 1), sep)
    } else {
        seq![s]
    }
}

/// `index_of` stays within the sequence and finds the first occurrence.
pub proof fn lemma_index_of(s: Seq<char>, c: char)
    ensures
        0 <= index_of(s, c) <= s.len(),
        index_of(s, c) < s.len() ==> s[index_of(s, c)] == c,
        forall|k: int| 0 <= k < index_of(s, c) ==> s[k] != c,
    decreases s.len(),
{
    if s.len() > 0 && s[0] != c {
        let t = s.drop_first();
        lemma_index_of(t, c);
        assert forall|k: int| 0 <= k < index_of(s, c) implies s[k] != c by {
            if k > 0 {
                assert(s[k] == t[k - 1]);
            }
        }
    }
}

/// Where `head` holds no `c`, the first `c` of `head + [c] + tail` is at the
/// end of `head`.
pub proof fn lemma_index_of_at(head: Seq<char>, c: char, tail: Seq<char>)
    requires
        forall|k: int| 0 <= k < head.len() ==> head[k] != c,
    ensures
        index_of(head.push(c) + tail, c) == head.len(),
    decreases head.len(),
{
    let s = head.push(c) + tail;
    if head.len() == 0 {
        assert(s[0] == c);
    } else {
        assert(s[0] == head[0]);
        assert(s.drop_first() == head.drop_first().push(c) + tail);
        lemma_index_of_at(head.drop_first(), c, tail);
    }
}

/// A sequence that holds no `c` is a single piece.
pub proof fn lemma_split_on_none(s: Seq<char>, c: char)
    requires
        forall|k: int| 0 <= k < s.len() ==> s[k] != c,
    ensures
        split_on(s, c) == seq![s],
{
    lemma_index_of(s, c);
}

/// Where `head` holds no `sep`, the pieces of `head + [sep] + tail` are `head`
/// and then the pieces of `tail`.
pub proof fn lemma_split_on_cons(head: Seq<char>, sep: char, tail: Seq<char>)
    requires
        forall|k: int| 0 <= k < head.len() ==> head[k] != sep,
    ensures
        split_on(head.push(sep) + tail, sep) == seq![head] + split_on(tail, sep),
{
    let s = head.push(sep) + tail;
    lemma_index_of_at(head, sep, tail);
    assert(s.take(head.len() as int) == head);
    assert(s.skip(head.len() as int + 1) == tail);
}

/// `s` with a space in the place of every white-space character.
pub open spec fn spaced(s: Seq<char>) -> Seq<char> {
    s.map_values(|c: char| if is_space(c) { ' ' } else { c })
}

/// The pieces of `pieces` that are not empty, in order.
pub open spec fn filled(pieces: Seq<Seq<char>>) -> Seq<Seq<char>>
    decreases pieces.len(),
{
    if pieces.len() == 0 {
        Seq::empty()
    } else if pieces.last().len() > 0 {
        filled(pieces.drop_last()).push(pieces.last())
    } else {
        filled(pieces.drop_last())
    }
}

/// The words of `s`: the runs of characters between white space, in order.
pub open spec fn words_of(s: Seq<char>) -> Seq<Seq<char>> {
    filled(split_on(spaced(s), ' '))
}

/// Whether `word` is a word: not empty and free of white space.
pub open spec fn is_word(word: Seq<char>) -> bool {
    word.len() > 0 && forall|k: int| 0 <= k < word.len() ==> !is_space(#[trigger] word[k])
}

/// The filled pieces of two sequences in a row are those of the first and
/// then those of the second.
pub proof fn lemma_filled_concat(a: Seq<Seq<char>>, b: Seq<Seq<char>>)
    ensures
        filled(a + b) == filled(a) + filled(b),
    decreases b.len(),
{
    if b.len() == 0 {
        assert(a + b == a);
        assert(filled(a) + filled(b) == filled(a));
    } else {
        assert((a + b).drop_last() == a + b.drop_last());
        assert((a + b).last() == b.last());
        lemma_filled_concat(a, b.drop_last());
        if b.last().len() > 0 {
            assert((filled(a) + filled(b.drop_last())).push(b.last()) == filled(a) + filled(
                b.drop_last(),
            ).push(b.last()));
        }
    }
}

/// One piece that is not empty is filled.
pub proof fn lemma_filled_one(word: Seq<char>)
    requires
        word.len() > 0,
    ensures
        filled(seq![word]) == seq![word],
{
    let one = seq![word];
    assert(one.drop_last() =~= Seq::<Seq<char>>::empty());
    assert(filled(one.drop_last()) == Seq::<Seq<char>>::empty());
    assert(one.last() == word);
    assert(Seq::<Seq<char>>::empty().push(word) =~= one);
}

/// A word and what follows it behind one space are the word and then the
/// words of what follows.
pub proof fn lemma_words_cons(word: Seq<char>, tail: Seq<char>)
    requires
        is_word(word),
    ensures
        words_of(word.push(' ') + tail) == seq![word] + words_of(tail),
{
    let line = word.push(' ') + tail;
    assert(spaced(word) =~= word);
    assert(spaced(line) =~= word.push(' ') + spaced(tail));
    assert forall|k: int| 0 <= k < word.len() implies word[k] != ' ' by {
        assert(!is_space(word[k]));
    }
    lemma_split_on_cons(word, ' ', spaced(tail));
    lemma_filled_concat(seq![word], split_on(spaced(tail), ' '));
    lemma_filled_one(word);
}

/// A word alone is its only word.
pub proof fn lemma_words_one(word: Seq<char>)
    requires
        is_word(word),
    ensures
        words_of(word) == seq![word],
{
    assert(spaced(word) =~= word);
    assert forall|k: int| 0 <= k < word.len() implies word[k] != ' ' by {
        assert(!is_space(word[k]));
    }
    lemma_split_on_none(word, ' ');
    lemma_filled_one(word);
}

/// The words of `v`.
pub fn words(v: &Vec<char>) -> (r: Vec<Vec<char>>)
    ensures
        views_of(r@) == words_of(v@),
{
    let mut plain: Vec<char> = Vec::new();
    let mut i: usize = 0;
    while i < v.len()
        invariant
            i <= v.len(),
            plain@ == spaced(v@).take(i as int),
        decreases v.len() - i,
    {
        let c = v[i];
        plain.push(if char_is_space(c) { ' ' } else { c });
        i = i + 1;
        assert(spaced(v@).take(i as int) == spaced(v@).take(i - 1).push(spaced(v@)[i - 1]));
    }
    assert(spaced(v@).take(v.len() as int) == spaced(v@));
    let mut pieces = split(&plain, ' ');
    let ghost all = views_of(pieces@);
    let mut kept: Vec<Vec<char>> = Vec::new();
    let mut n: usize = 0;
    let total = pieces.len();
    assert(all.take(0) == Seq::<Seq<char>>::empty());
    assert(views_of(kept@) =~= Seq::<Seq<char>>::empty());
    while pieces.len() > 0
        invariant
            n <= total,
            total == all.len(),
            views_of(pieces@) == all.skip(n as int),
            views_of(kept@) == filled(all.take(n as int)),
        decreases pieces.len(),
    {
        let ghost before = views_of(kept@);
        let ghost rest = views_of(pieces@);
        assert(rest.len() > 0);
        assert(n < all.len());
        let piece = pieces.remove(0);
        proof {
            assert(rest[0] == piece@);
            assert(all.skip(n as int)[0] == all[n as int]);
            assert(views_of(pieces@) =~= rest.remove(0));
            assert(rest.remove(0) =~= all.skip(n + 1));
            assert(all.take(n + 1).drop_last() == all.take(n as int));
            assert(all.take(n + 1).last() == piece@);
        }
        if piece.len() > 0 {
            kept.push(piece);
            assert(views_of(kept@) =~= before.push(piece@));
        }
        n = n + 1;
    }
    proof {
        assert(all.skip(n as int).len() == 0);
        assert(all.take(n as int) == all);
    }
    kept
}

/// The views of the pieces held by `pieces`.
pub open spec fn views_of(pieces: Seq<Vec<char>>) -> Seq<Seq<char>> {
    pieces.map_values(|p: Vec<char>| p@)
}

/// The pieces of `v` between occurrences of `sep`.
pub fn split(v: &Vec<char>, sep: char) -> (r: Vec<Vec<char>>)
    ensures
        views_of(r@) == split_on(v@, sep),
        r@.len() >= 1,
{
    let mut done: Vec<Vec<char>> = Vec::new();
    let mut cur: Vec<char> = Vec::new();
    let mut i: usize = 0;
    proof {
        assert(cur@ + v@.skip(0) == v@);
        assert(views_of(done@) + split_on(v@, sep) == split_on(v@, sep));
    }
    while i < v.len()
        invariant
            i <= v.len(),
            forall|k: int| 0 <= k < cur@.len() ==> cur@[k] != sep,
            views_of(done@) + split_on(cur@ + v@.skip(i as int), sep) == split_on(v@, sep),
        decreases v.len() - i,
    {
        let c = v[i];
        let ghost rest = v@.skip(i + 1);
        let ghost whole = cur@ + v@.skip(i as int);
        proof {
            assert(v@.skip(i as int) == seq![c] + rest);
            assert(whole == cur@.push(c) + rest);
        }
        if c == sep {
            proof {
                lemma_index_of_at(cur@, sep, rest);
                assert(whole.take(cur@.len() as int) == cur@);
                assert(whole.skip(cur@.len() as int + 1) == rest);
                assert(views_of(done@.push(cur)) == views_of(done@).push(cur@));
                assert(views_of(done@).push(cur@) + split_on(rest, sep) == views_of(done@) + (seq![
                    cur@,
                ] + split_on(rest, sep)));
                assert(Seq::<char>::empty() + rest == rest);
            }
            done.push(cur);
            cur = Vec::new();
        } else {
            cur.push(c);
        }
        i = i + 1;
    }
    proof {
        assert(v@.skip(v.len() as int).len() == 0);
        assert(cur@ + v@.skip(v.len() as int) == cur@);
        lemma_split_on_none(cur@, sep);
        assert(views_of(done@.push(cur)) == views_of(done@).push(cur@));
        assert(views_of(done@).push(cur@) == views_of(done@) + seq![cur@]);
    }
    done.push(cur);
    done
}

/// The pieces of `parts` in order, with `sep` between each two.
pub open spec fn join_with(parts: Seq<Seq<char>>, sep: char) -> Seq<char>
    decreases parts.len(),
{
    if parts.len() == 0 {
        Seq::empty()
    } else if parts.len() == 1 {
        parts[0]
    } else {
        join_with(parts.drop_last(), sep).push(sep) + parts.last()
    }
}

/// The pieces of `parts` in order, with `sep` between each two.
pub fn join(parts: &Vec<Vec<char>>, sep: char) -> (r: Vec<char>)
    ensures
        r@ == join_with(views_of(parts@), sep),
{
    let mut r: Vec<char> = Vec::new();
    let mut i: usize = 0;
    while i < parts.len()
        invariant
            i <= parts.len(),
            r@ == join_with(views_of(parts@).take(i as int), sep),
        decreases parts.len() - i,
    {
        let ghost before = r@;
        if i > 0 {
            r.push(sep);
        }
        let part = &parts[i];
        let mut j: usize = 0;
        let ghost base = r@;
        while j < part.len()
            invariant
                j <= part.len(),
                r@ == base + part@.take(j as int),
            decreases part.len() - j,
        {
            r.push(part[j]);
            j = j + 1;
            assert(part@.take(j as int) == part@.take(j - 1).push(part@[j - 1]));
        }
        proof {
            assert(part@.take(part.len() as int) == part@);
            let next = views_of(parts@).take(i + 1);
            assert(next.last() == part@);
            assert(next.drop_last() == views_of(parts@).take(i as int));
            if i == 0 {
                assert(base + part@ == part@);
            }
        }
        i = i + 1;
    }
    assert(views_of(parts@).take(parts.len() as int) == views_of(parts@));
    r
}


/// The lower-case form of `s` as `str::to_lowercase` computes it.
pub uninterp spec fn lowercase_of(s: Seq<char>) -> Seq<char>;

/// `str::to_lowercase` of std: the lower-case equivalent of `s` under the
/// Unicode case mapping. The result depends on `s` alone; the contract names
/// it and says nothing more of it.
#[verifier::external_body]
pub(crate) fn to_lowercase(s: &str) -> (r: String)
    ensures
        r@ == lowercase_of(s@),
{
    s.to_lowercase()
}

/// Whether two character vectors hold the same characters.
pub fn chars_eq(a: &Vec<char>, b: &Vec<char>) -> (r: bool)
    ensures
        r == (a@ == b@),
{
    if a.len() != b.len() {
        return false;
    }
    let r = matches_at(a, 0, b);
    proof {
        assert(a@.subrange(0, a@.len() as int) == a@);
    }
    r
}

/// The views of the strings held by `strings`.
pub open spec fn strings_of(strings: Seq<String>) -> Seq<Seq<char>> {
    strings.map_values(|s: String| s@)
}

/// A copy of the strings of `strings`.
pub fn copy_strings(strings: &Vec<String>) -> (r: Vec<String>)
    ensures
        strings_of(r@) == strings_of(strings@),
{
    let mut r: Vec<String> = Vec::new();
    let mut i: usize = 0;
    while i < strings.len()
        invariant
            i <= strings.len(),
            strings_of(r@) == strings_of(strings@).take(i as int),
        decreases strings.len() - i,
    {
        let ghost before = strings_of(r@);
        r.push(strings[i].clone());
        assert(strings_of(r@) == before.push(strings@[i as int]@));
        i = i + 1;
        assert(strings_of(strings@).take(i as int) == strings_of(strings@).take(i - 1).push(
            strings_of(strings@)[i - 1],
        ));
    }
    assert(strings_of(strings@).take(strings.len() as int) == strings_of(strings@));
    r
}

/// The view of the string that `o` holds, if any.
pub open spec fn opt_view(o: Option<String>) -> Option<Seq<char>> {
    match o {
        Some(s) => Some(s@),
        None => None,
    }
}

/// `s` with `c` written at every place of `from`.
pub open spec fn replaced_char(s: Seq<char>, from: char, c: char) -> Seq<char> {
    s.map_values(|x: char| if x == from { c } else { x })
}

/// `v` with `c` written at every place of `from`.
pub fn replace_char(v: &Vec<char>, from: char, c: char) -> (r: Vec<char>)
    ensures
        r@ == replaced_char(v@, from, c),
{
    let mut r: Vec<char> = Vec::new();
    let mut i: usize = 0;
    while i < v.len()
        invariant
            i <= v.len(),
            r@ == replaced_char(v@, from, c).take(i as int),
        decreases v.len() - i,
    {
        let x = v[i];
        r.push(if x == from { c } else { x });
        i = i + 1;
        assert(replaced_char(v@, from, c).take(i as int) == replaced_char(v@, from, c).take(
            i - 1,
        ).push(replaced_char(v@, from, c)[i - 1]));
    }
    assert(replaced_char(v@, from, c).take(v.len() as int) == replaced_char(v@, from, c));
    r
}


/// Whether `a` comes before `b` in the lexicographic order of their code
/// points, a proper prefix coming before what it is a prefix of.
pub open spec fn seq_lt(a: Seq<char>, b: Seq<char>) -> bool
    decreases a.len(),
{
    if b.len() == 0 {
        false
    } else if a.len() == 0 {
        true
    } else if a[0] != b[0] {
        (a[0] as int) < (b[0] as int)
    } else {
        seq_lt(a.drop_first(), b.drop_first())
    }
}

/// Nothing comes before itself.
pub proof fn lemma_seq_lt_irreflexive(a: Seq<char>)
    ensures
        !seq_lt(a, a),
    decreases a.len(),
{
    if a.len() > 0 {
        lemma_seq_lt_irreflexive(a.drop_first());
    }
}

/// The order is transitive.
pub proof fn lemma_seq_lt_transitive(a: Seq<char>, b: Seq<char>, c: Seq<char>)
    requires
        seq_lt(a, b),
        seq_lt(b, c),
    ensures
        seq_lt(a, c),
    decreases a.len(),
{
    if a.len() > 0 && a[0] == b[0] && b[0] == c[0] {
        lemma_seq_lt_transitive(a.drop_first(), b.drop_first(), c.drop_first());
    }
}

/// Of two different sequences one comes before the other.
pub proof fn lemma_seq_lt_total(a: Seq<char>, b: Seq<char>)
    ensures
        a == b || seq_lt(a, b) || seq_lt(b, a),
    decreases a.len(),
{
    if a.len() > 0 && b.len() > 0 {
        if a[0] == b[0] {
            lemma_seq_lt_total(a.drop_first(), b.drop_first());
            if a.drop_first() == b.drop_first() {
                assert(a =~= seq![a[0]] + a.drop_first());
                assert(b =~= seq![b[0]] + b.drop_first());
            }
        } else {
            assert(a[0] as int != b[0] as int);
        }
    } else if a.len() == 0 && b.len() == 0 {
        assert(a =~= b);
    }
}

/// Whether `a` comes before `b` in the lexicographic order of their code
/// points.
pub fn chars_lt(a: &Vec<char>, b: &Vec<char>) -> (r: bool)
    ensures
        r == seq_lt(a@, b@),
{
    let mut i: usize = 0;
    proof {
        assert(a@.skip(0) == a@);
        assert(b@.skip(0) == b@);
    }
    loop
        invariant
            i <= a.len(),
            i <= b.len(),
            seq_lt(a@, b@) == seq_lt(a@.skip(i as int), b@.skip(i as int)),
        decreases a.len() - i,
    {
        if i >= b.len() {
            return false;
        }
        if i >= a.len() {
            return true;
        }
        let x = a[i];
        let y = b[i];
        proof {
            assert(a@.skip(i as int)[0] == x);
            assert(b@.skip(i as int)[0] == y);
            assert(a@.skip(i as int).drop_first() == a@.skip(i + 1));
            assert(b@.skip(i as int).drop_first() == b@.skip(i + 1));
        }
        if x != y {
            return x < y;
        }
        i = i + 1;
    }
}

} // verus!
