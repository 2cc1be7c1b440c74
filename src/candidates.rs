//! From raw input to the search's inputs: the distinct words of a
//! ciphertext, the normalised dictionary, and the candidate list of each
//! ciphertext word.

use vstd::prelude::*;
use crate::pattern::{compute_pattern, pattern_of};
use crate::text::{
    chars_of, is_letter, is_punct, is_space, punct_char, space_char, string_of, upper, upper_seq,
    upper_string,
};

verus! {

/// The character sequences of a list of strings.
pub open spec fn views(v: Seq<String>) -> Seq<Seq<char>> {
    v.map_values(|s: String| s@)
}

/// `w` has the length and the letter pattern of `c`.
pub open spec fn same_shape(c: Seq<char>, w: Seq<char>) -> bool {
    w.len() == c.len() && pattern_of(w) == pattern_of(c)
}

/// The dictionary words of the shape of `c`, upper-cased, in dictionary order.
pub open spec fn candidates_of(c: Seq<char>, dict: Seq<Seq<char>>) -> Seq<Seq<char>>
    decreases dict.len(),
{
    if dict.len() == 0 {
        Seq::empty()
    } else {
        let r = candidates_of(c, dict.drop_last());
        if same_shape(c, dict.last()) {
            r.push(upper_seq(dict.last()))
        } else {
            r
        }
    }
}

/// `s` without the punctuation that [`is_punct`] names.
pub open spec fn strip(s: Seq<char>) -> Seq<char>
    decreases s.len(),
{
    if s.len() == 0 {
        s
    } else if is_punct(s.last()) {
        strip(s.drop_last())
    } else {
        strip(s.drop_last()).push(s.last())
    }
}

/// The words completed so far and the word in progress after reading `s`
/// from left to right, white space separating words.
pub open spec fn split_state(s: Seq<char>) -> (Seq<Seq<char>>, Seq<char>)
    decreases s.len(),
{
    if s.len() == 0 {
        (Seq::empty(), Seq::empty())
    } else {
        let (done, cur) = split_state(s.drop_last());
        if !is_space(s.last()) {
            (done, cur.push(s.last()))
        } else if cur.len() > 0 {
            (done.push(cur), Seq::empty())
        } else {
            (done, cur)
        }
    }
}

/// The maximal runs of non-space characters of `s`, in order.
pub open spec fn words_of(s: Seq<char>) -> Seq<Seq<char>> {
    let (done, cur) = split_state(s);
    if cur.len() > 0 {
        done.push(cur)
    } else {
        done
    }
}

/// The first occurrence of each element of `s`, in order.
pub open spec fn distinct(s: Seq<Seq<char>>) -> Seq<Seq<char>>
    decreases s.len(),
{
    if s.len() == 0 {
        s
    } else {
        let d = distinct(s.drop_last());
        if d.contains(s.last()) {
            d
        } else {
            d.push(s.last())
        }
    }
}

/// The distinct words of a ciphertext: upper-cased, punctuation dropped,
/// split at white space, each kept at its first occurrence.
pub open spec fn cipher_words(text: Seq<char>) -> Seq<Seq<char>> {
    distinct(words_of(strip(upper_seq(text))))
}

/// `s` with each run of equal neighbours reduced to one element.
pub open spec fn dedup_adjacent(s: Seq<Seq<char>>) -> Seq<Seq<char>>
    decreases s.len(),
{
    if s.len() <= 1 {
        s
    } else if s.last() == s[s.len() - 2] {
        dedup_adjacent(s.drop_last())
    } else {
        dedup_adjacent(s.drop_last()).push(s.last())
    }
}

/// The dictionary as the search reads it: upper-cased, with equal
/// neighbouring lines kept once. Equal lines that are not neighbours are
/// kept, so the order of candidates follows the input.
pub open spec fn dictionary_of(lines: Seq<Seq<char>>) -> Seq<Seq<char>> {
    dedup_adjacent(lines.map_values(|l: Seq<char>| upper_seq(l)))
}

proof fn lemma_upper_twice(w: Seq<char>)
    ensures
        upper_seq(upper_seq(w)) == upper_seq(w),
        upper_seq(w).len() == w.len(),
{
    assert forall|i: int| 0 <= i < w.len() implies #[trigger] upper_seq(upper_seq(w))[i] == upper_seq(w)[i] by {
        let c = w[i];
        if 'a' <= c && c <= 'z' {
            assert(upper(c) as u32 == c as u32 - 32);
        }
    }
    assert(upper_seq(upper_seq(w)) =~= upper_seq(w));
}

/// The candidate filter is idempotent: filtering its own output by the same
/// ciphertext word gives that output back.
pub proof fn lemma_candidates_idempotent(c: Seq<char>, dict: Seq<Seq<char>>)
    ensures
        candidates_of(c, candidates_of(c, dict)) == candidates_of(c, dict),
    decreases dict.len(),
{
    if dict.len() > 0 {
        let p = dict.drop_last();
        lemma_candidates_idempotent(c, p);
        let r = candidates_of(c, p);
        if same_shape(c, dict.last()) {
            let u = upper_seq(dict.last());
            lemma_upper_twice(dict.last());
            assert(pattern_of(u) == pattern_of(dict.last()));
            assert(r.push(u).drop_last() == r);
        }
    }
}

proof fn lemma_strip_keeps(s: Seq<char>, c: char)
    requires
        s.contains(c),
        !is_punct(c),
    ensures
        strip(s).contains(c),
    decreases s.len(),
{
    let p = s.drop_last();
    if s.last() == c {
        assert(strip(s).last() == c);
        assert(strip(s)[strip(s).len() - 1] == c);
    } else {
        let i = choose|i: int| 0 <= i < s.len() && s[i] == c;
        assert(p[i] == c);
        lemma_strip_keeps(p, c);
        let j = choose|j: int| 0 <= j < strip(p).len() && strip(p)[j] == c;
        if !is_punct(s.last()) {
            assert(strip(s)[j] == c);
        }
    }
}

proof fn lemma_split_keeps(s: Seq<char>, c: char)
    requires
        s.contains(c),
        !is_space(c),
    ensures
        split_state(s).1.contains(c) || exists|d: int| 0 <= d < split_state(s).0.len() && (#[trigger] split_state(s).0[d]).contains(c),
    decreases s.len(),
{
    let p = s.drop_last();
    let (done, cur) = split_state(p);
    if s.last() == c {
        assert(split_state(s).1 == cur.push(c));
        assert(cur.push(c)[cur.len() as int] == c);
    } else {
        let i = choose|i: int| 0 <= i < s.len() && s[i] == c;
        assert(p[i] == c);
        lemma_split_keeps(p, c);
        if cur.contains(c) {
            let x = choose|x: int| 0 <= x < cur.len() && cur[x] == c;
            if !is_space(s.last()) {
                assert(split_state(s).1[x] == c);
            } else {
                assert(split_state(s).0[done.len() as int] == cur);
            }
        } else {
            let d = choose|d: int| 0 <= d < done.len() && (#[trigger] done[d]).contains(c);
            assert(split_state(s).0[d] == done[d]);
        }
    }
}

proof fn lemma_distinct_keeps(s: Seq<Seq<char>>, x: Seq<char>)
    requires
        s.contains(x),
    ensures
        distinct(s).contains(x),
    decreases s.len(),
{
    let p = s.drop_last();
    if s.last() == x {
        if !distinct(p).contains(x) {
            assert(distinct(s)[distinct(p).len() as int] == x);
        }
    } else {
        let i = choose|i: int| 0 <= i < s.len() && s[i] == x;
        assert(p[i] == x);
        lemma_distinct_keeps(p, x);
        let j = choose|j: int| 0 <= j < distinct(p).len() && distinct(p)[j] == x;
        assert(distinct(s)[j] == x);
    }
}

/// Every letter of the upper-cased text occurs in one of its distinct words.
pub proof fn lemma_letters_in_words(text: Seq<char>, i: int)
    requires
        0 <= i < text.len(),
        is_letter(upper(text[i])),
    ensures
        exists|d: int| 0 <= d < cipher_words(text).len() && (#[trigger] cipher_words(text)[d]).contains(upper(text[i])),
{
    let c = upper(text[i]);
    let u = upper_seq(text);
    assert(u[i] == c);
    lemma_strip_keeps(u, c);
    let s = strip(u);
    lemma_split_keeps(s, c);
    let ws = words_of(s);
    let (done, cur) = split_state(s);
    let wd: Seq<char> = if cur.contains(c) {
        assert(ws[done.len() as int] == cur);
        cur
    } else {
        let d = choose|d: int| 0 <= d < done.len() && (#[trigger] done[d]).contains(c);
        assert(ws[d] == done[d]);
        done[d]
    };
    assert(ws.contains(wd));
    lemma_distinct_keeps(ws, wd);
    let d = choose|d: int| 0 <= d < distinct(ws).len() && distinct(ws)[d] == wd;
    assert(cipher_words(text)[d] == wd);
}

/// Upper-cases the dictionary lines and drops each line equal to the one
/// before it.
pub fn prepare_dictionary(lines: &Vec<String>) -> (r: Vec<String>)
    ensures
        views(r@) == dictionary_of(views(lines@)),
{
    let ghost up = views(lines@).map_values(|l: Seq<char>| upper_seq(l));
    let mut r: Vec<String> = Vec::new();
    let mut i: usize = 0;
    while i < lines.len()
        invariant
            up == views(lines@).map_values(|l: Seq<char>| upper_seq(l)),
            i <= lines@.len(),
            views(r@) == dedup_adjacent(up.take(i as int)),
            i > 0 ==> r@.len() > 0 && r@.last()@ == up[i - 1],
        decreases lines@.len() - i,
    {
        let w = upper_string(lines[i].as_str());
        let ghost t = up.take(i as int + 1);
        assert(t.drop_last() == up.take(i as int));
        assert(t.last() == w@);
        if i == 0 || !(w == r[r.len() - 1]) {
            r.push(w);
            assert(views(r@) =~= views(r@).drop_last().push(w@));
        } else {
            assert(t[t.len() - 2] == up[i - 1]);
        }
        i = i + 1;
    }
    assert(up.take(lines@.len() as int) == up);
    r
}

/// The candidates of `encrypted_word`: the words of `words` of its length
/// and letter pattern, upper-cased, in the order of `words`.
pub fn find_candidates(encrypted_word: &str, words: &Vec<String>) -> (r: Vec<String>)
    ensures
        views(r@) == candidates_of(encrypted_word@, views(words@)),
{
    let pattern = compute_pattern(encrypted_word);
    let len = chars_of(encrypted_word).len();
    let ghost dict = views(words@);
    let mut r: Vec<String> = Vec::new();
    let mut i: usize = 0;
    while i < words.len()
        invariant
            dict == views(words@),
            pattern@ == pattern_of(encrypted_word@),
            len == encrypted_word@.len(),
            i <= words@.len(),
            views(r@) == candidates_of(encrypted_word@, dict.take(i as int)),
        decreases words@.len() - i,
    {
        let ghost t = dict.take(i as int + 1);
        assert(t.drop_last() == dict.take(i as int));
        let word = words[i].as_str();
        if chars_of(word).len() == len && compute_pattern(word) == pattern {
            r.push(upper_string(word));
            assert(views(r@) =~= views(r@).drop_last().push(r@.last()@));
        }
        i = i + 1;
    }
    assert(dict.take(words@.len() as int) == dict);
    r
}

/// For each word of `unsolved`, at the same index, its candidates among `words`.
pub fn compute_matches(unsolved: &Vec<String>, words: &Vec<String>) -> (r: Vec<Vec<String>>)
    ensures
        r@.len() == unsolved@.len(),
        forall|i: int| 0 <= i < r@.len() ==> views(#[trigger] r@[i]@) == candidates_of(unsolved@[i]@, views(words@)),
{
    let mut r: Vec<Vec<String>> = Vec::new();
    let mut i: usize = 0;
    while i < unsolved.len()
        invariant
            i <= unsolved@.len(),
            r@.len() == i,
            forall|k: int| 0 <= k < i ==> views(#[trigger] r@[k]@) == candidates_of(unsolved@[k]@, views(words@)),
        decreases unsolved@.len() - i,
    {
        r.push(find_candidates(unsolved[i].as_str(), words));
        i = i + 1;
    }
    r
}

/// The distinct words of `text`, in order of first occurrence: the text is
/// upper-cased, the punctuation `. , : ; " ! '` is dropped, and what is
/// left is split at white space.
pub fn cipher_words_of(text: &str) -> (r: Vec<String>)
    ensures
        views(r@) == cipher_words(text@),
{
    let upper = upper_string(text);
    let u = chars_of(upper.as_str());
    assert(u@ == upper_seq(text@));
    let mut kept: Vec<char> = Vec::new();
    let mut i: usize = 0;
    while i < u.len()
        invariant
            u@ == upper_seq(text@),
            i <= u@.len(),
            kept@ == strip(u@.take(i as int)),
        decreases u@.len() - i,
    {
        assert(u@.take(i as int + 1).drop_last() == u@.take(i as int));
        if !punct_char(u[i]) {
            kept.push(u[i]);
        }
        i = i + 1;
    }
    assert(u@.take(u@.len() as int) == u@);
    let mut all: Vec<String> = Vec::new();
    let mut cur: Vec<char> = Vec::new();
    let mut j: usize = 0;
    while j < kept.len()
        invariant
            kept@ == strip(upper_seq(text@)),
            j <= kept@.len(),
            (views(all@), cur@) == split_state(kept@.take(j as int)),
        decreases kept@.len() - j,
    {
        assert(kept@.take(j as int + 1).drop_last() == kept@.take(j as int));
        let c = kept[j];
        if !space_char(c) {
            cur.push(c);
        } else if cur.len() > 0 {
            all.push(string_of(&cur));
            assert(views(all@) =~= views(all@).drop_last().push(cur@));
            cur = Vec::new();
        }
        j = j + 1;
    }
    assert(kept@.take(kept@.len() as int) == kept@);
    if cur.len() > 0 {
        all.push(string_of(&cur));
        assert(views(all@) =~= views(all@).drop_last().push(cur@));
    }
    assert(views(all@) == words_of(strip(upper_seq(text@))));
    let mut r: Vec<String> = Vec::new();
    let mut k: usize = 0;
    while k < all.len()
        invariant
            views(all@) == words_of(strip(upper_seq(text@))),
            k <= all@.len(),
            views(r@) == distinct(views(all@).take(k as int)),
        decreases all@.len() - k,
    {
        let ghost t = views(all@).take(k as int + 1);
        assert(t.drop_last() == views(all@).take(k as int));
        let mut seen = false;
        let mut m: usize = 0;
        while m < r.len()
            invariant
                k < all@.len(),
                m <= r@.len(),
                seen == exists|q: int| 0 <= q < m && r@[q]@ == all@[k as int]@,
            decreases r@.len() - m,
        {
            if r[m] == all[k] {
                seen = true;
            }
            m = m + 1;
        }
        proof {
            if seen {
                let q = choose|q: int| 0 <= q < r@.len() && r@[q]@ == all@[k as int]@;
                assert(views(r@)[q] == t.last());
            } else {
                assert forall|q: int| 0 <= q < r@.len() implies views(r@)[q] != t.last() by {
                    assert(r@[q]@ != all@[k as int]@);
                }
            }
        }
        if !seen {
            r.push(all[k].clone());
            assert(views(r@) =~= views(r@).drop_last().push(all@[k as int]@));
        }
        k = k + 1;
    }
    assert(views(all@).take(all@.len() as int) == views(all@));
    r
}

} // verus!
