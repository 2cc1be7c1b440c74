//! The search for keys: a breadth-first pass over the ciphertext words,
//! least ambiguous first, that extends every key of the frontier by every
//! candidate of the next word and keeps only the keys under which every
//! ciphertext word still has a fitting candidate.

use vstd::prelude::*;
use crate::candidates::views;
use crate::key::{
    compare_to_partial, compute_partial, compute_partial_key, extends_with, fits, injective,
    lemma_unified, render, unifiable, unified, PartialKey,
};
use vstd::set_lib::{lemma_int_range, lemma_subset_equality, set_int_range};

verus! {

/// The maps of a list of keys.
pub open spec fn key_views(v: Seq<PartialKey>) -> Seq<Map<char, char>> {
    v.map_values(|k: PartialKey| k@)
}

/// Every key of the list is well formed.
pub open spec fn all_wf(v: Seq<PartialKey>) -> bool {
    forall|i: int| 0 <= i < v.len() ==> (#[trigger] v[i]).wf()
}

/// The candidate lists as character sequences.
pub open spec fn cand_views(c: Seq<Vec<String>>) -> Seq<Seq<Seq<char>>> {
    c.map_values(|v: Vec<String>| views(v@))
}

/// An order given as machine indices, read as integers.
pub open spec fn indices(o: Seq<usize>) -> Seq<int> {
    o.map_values(|x: usize| x as int)
}

/// One candidate list per word, each candidate of its word's length.
pub open spec fn shaped(words: Seq<Seq<char>>, cands: Seq<Seq<Seq<char>>>) -> bool {
    &&& cands.len() == words.len()
    &&& forall|i: int, j: int|
        0 <= i < words.len() && 0 <= j < cands[i].len() ==> (#[trigger] cands[i][j]).len()
            == words[i].len()
}

/// Some candidate of `w` fits what `k` makes of `w`.
pub open spec fn viable(k: Map<char, char>, w: Seq<char>, cs: Seq<Seq<char>>) -> bool {
    exists|j: int| 0 <= j < cs.len() && fits(#[trigger] cs[j], render(w, k))
}

/// Every word still has a candidate that fits under `k`.
pub open spec fn consistent(k: Map<char, char>, words: Seq<Seq<char>>, cands: Seq<Seq<Seq<char>>>) -> bool {
    forall|i: int| 0 <= i < words.len() ==> #[trigger] viable(k, words[i], cands[i])
}

/// The candidate `c` of `w` extends `k` to a key that the search keeps.
pub open spec fn accepts(
    k: Map<char, char>,
    w: Seq<char>,
    c: Seq<char>,
    words: Seq<Seq<char>>,
    cands: Seq<Seq<Seq<char>>>,
) -> bool {
    &&& fits(c, render(w, k))
    &&& unifiable(w, c, k)
    &&& consistent(unified(k, w, c), words, cands)
}

/// The keys that `k` gives for the word `w`, one per accepted candidate,
/// in the order of `cs`.
pub open spec fn extend_key(
    k: Map<char, char>,
    w: Seq<char>,
    cs: Seq<Seq<char>>,
    words: Seq<Seq<char>>,
    cands: Seq<Seq<Seq<char>>>,
) -> Seq<Map<char, char>>
    decreases cs.len(),
{
    if cs.len() == 0 {
        Seq::empty()
    } else {
        let r = extend_key(k, w, cs.drop_last(), words, cands);
        if accepts(k, w, cs.last(), words, cands) {
            r.push(unified(k, w, cs.last()))
        } else {
            r
        }
    }
}

/// The next frontier: the keys that each key of `front` gives, in order.
pub open spec fn expand(
    front: Seq<Map<char, char>>,
    w: Seq<char>,
    cs: Seq<Seq<char>>,
    words: Seq<Seq<char>>,
    cands: Seq<Seq<Seq<char>>>,
) -> Seq<Map<char, char>>
    decreases front.len(),
{
    if front.len() == 0 {
        Seq::empty()
    } else {
        expand(front.drop_last(), w, cs, words, cands) + extend_key(
            front.last(),
            w,
            cs,
            words,
            cands,
        )
    }
}

/// The first occurrence of each key, in order.
pub open spec fn dedup_keys(s: Seq<Map<char, char>>) -> Seq<Map<char, char>>
    decreases s.len(),
{
    if s.len() == 0 {
        s
    } else {
        let d = dedup_keys(s.drop_last());
        if d.contains(s.last()) {
            d
        } else {
            d.push(s.last())
        }
    }
}

/// The frontier after the first `n` words of `order`: it starts from the
/// empty key, and each word expands the deduplicated frontier before it.
pub open spec fn frontier(
    words: Seq<Seq<char>>,
    cands: Seq<Seq<Seq<char>>>,
    order: Seq<int>,
    n: nat,
) -> Seq<Map<char, char>>
    decreases n,
{
    if n == 0 {
        seq![Map::empty()]
    } else {
        let i = order[n - 1];
        expand(dedup_keys(frontier(words, cands, order, (n - 1) as nat)), words[i], cands[i], words, cands)
    }
}

/// `i` comes before `j` when its word has fewer candidates, or as many and
/// an earlier place.
pub open spec fn before(cands: Seq<Seq<Seq<char>>>, i: int, j: int) -> bool {
    cands[i].len() < cands[j].len() || (cands[i].len() == cands[j].len() && i < j)
}

/// `o` lists each index below `cands.len()` once, least ambiguous first.
pub open spec fn is_ambiguity_order(o: Seq<int>, cands: Seq<Seq<Seq<char>>>) -> bool {
    &&& o.len() == cands.len()
    &&& forall|a: int| 0 <= a < o.len() ==> 0 <= #[trigger] o[a] < cands.len()
    &&& forall|a: int, b: int| 0 <= a < b < o.len() ==> before(cands, #[trigger] o[a], #[trigger] o[b])
}

/// Every letter of `w` has an image under `k`.
pub open spec fn maps_all(k: Map<char, char>, w: Seq<char>) -> bool {
    forall|i: int| 0 <= i < w.len() ==> k.contains_key(#[trigger] w[i])
}

/// `k` maps all of `w`, and what it makes of `w` is one of the candidates `cs`.
pub open spec fn settles(k: Map<char, char>, w: Seq<char>, cs: Seq<Seq<char>>) -> bool {
    maps_all(k, w) && cs.contains(render(w, k))
}

/// `k` is injective and settles the first `n` words of `order`.
pub open spec fn settles_prefix(
    k: Map<char, char>,
    words: Seq<Seq<char>>,
    cands: Seq<Seq<Seq<char>>>,
    order: Seq<int>,
    n: int,
) -> bool {
    &&& injective(k)
    &&& forall|q: int| 0 <= q < n ==> #[trigger] settles(k, words[order[q]], cands[order[q]])
}

proof fn lemma_dedup_members(s: Seq<Map<char, char>>)
    ensures
        forall|k: Map<char, char>| #[trigger] dedup_keys(s).contains(k) ==> s.contains(k),
    decreases s.len(),
{
    if s.len() > 0 {
        let p = s.drop_last();
        lemma_dedup_members(p);
        assert forall|k: Map<char, char>| #[trigger] dedup_keys(s).contains(k) implies s.contains(k) by {
            if dedup_keys(p).contains(k) {
                let i = choose|i: int| 0 <= i < p.len() && p[i] == k;
                assert(s[i] == k);
            } else {
                assert(k == s.last());
                assert(s[s.len() - 1] == k);
            }
        }
    }
}

proof fn lemma_extend_members(
    k: Map<char, char>,
    w: Seq<char>,
    cs: Seq<Seq<char>>,
    words: Seq<Seq<char>>,
    cands: Seq<Seq<Seq<char>>>,
)
    ensures
        forall|k2: Map<char, char>| #[trigger] extend_key(k, w, cs, words, cands).contains(k2) ==> exists|j: int|
            0 <= j < cs.len() && accepts(k, w, #[trigger] cs[j], words, cands) && k2 == unified(k, w, cs[j]),
    decreases cs.len(),
{
    if cs.len() > 0 {
        let p = cs.drop_last();
        lemma_extend_members(k, w, p, words, cands);
        let r = extend_key(k, w, p, words, cands);
        assert forall|k2: Map<char, char>| #[trigger] extend_key(k, w, cs, words, cands).contains(k2) implies exists|j: int|
            0 <= j < cs.len() && accepts(k, w, #[trigger] cs[j], words, cands) && k2 == unified(k, w, cs[j]) by {
            if r.contains(k2) {
                let j = choose|j: int| 0 <= j < p.len() && accepts(k, w, #[trigger] p[j], words, cands) && k2 == unified(k, w, p[j]);
                assert(cs[j] == p[j]);
            } else {
                assert(cs[cs.len() - 1] == cs.last());
            }
        }
    }
}

proof fn lemma_expand_members(
    front: Seq<Map<char, char>>,
    w: Seq<char>,
    cs: Seq<Seq<char>>,
    words: Seq<Seq<char>>,
    cands: Seq<Seq<Seq<char>>>,
)
    ensures
        forall|k2: Map<char, char>| #[trigger] expand(front, w, cs, words, cands).contains(k2) ==> exists|k: Map<char, char>, j: int|
            front.contains(k) && 0 <= j < cs.len() && accepts(k, w, #[trigger] cs[j], words, cands)
                && k2 == #[trigger] unified(k, w, cs[j]),
    decreases front.len(),
{
    if front.len() > 0 {
        let p = front.drop_last();
        lemma_expand_members(p, w, cs, words, cands);
        lemma_extend_members(front.last(), w, cs, words, cands);
        let a = expand(p, w, cs, words, cands);
        let b = extend_key(front.last(), w, cs, words, cands);
        assert forall|k2: Map<char, char>| #[trigger] expand(front, w, cs, words, cands).contains(k2) implies exists|k: Map<char, char>, j: int|
            front.contains(k) && 0 <= j < cs.len() && accepts(k, w, #[trigger] cs[j], words, cands)
                && k2 == #[trigger] unified(k, w, cs[j]) by {
            let x = choose|x: int| 0 <= x < (a + b).len() && (a + b)[x] == k2;
            if x < a.len() {
                assert(a[x] == k2);
                assert(a.contains(k2));
                let (k, j) = choose|k: Map<char, char>, j: int|
                    p.contains(k) && 0 <= j < cs.len() && accepts(k, w, #[trigger] cs[j], words, cands)
                        && k2 == #[trigger] unified(k, w, cs[j]);
                let y = choose|y: int| 0 <= y < p.len() && p[y] == k;
                assert(front[y] == k);
            } else {
                assert(b[x - a.len()] == k2);
                assert(b.contains(k2));
                assert(front[front.len() - 1] == front.last());
                let j = choose|j: int|
                    0 <= j < cs.len() && accepts(front.last(), w, #[trigger] cs[j], words, cands) && k2 == unified(front.last(), w, cs[j]);
                assert(front.contains(front.last()));
            }
        }
    }
}

/// Each key of the frontier after `n` words is injective and settles each
/// of those words.
pub proof fn lemma_frontier_settles(
    words: Seq<Seq<char>>,
    cands: Seq<Seq<Seq<char>>>,
    order: Seq<int>,
    n: nat,
)
    requires
        shaped(words, cands),
        n <= order.len(),
        forall|a: int| 0 <= a < order.len() ==> 0 <= #[trigger] order[a] < words.len(),
    ensures
        forall|k: Map<char, char>| #[trigger] frontier(words, cands, order, n).contains(k) ==> settles_prefix(k, words, cands, order, n as int),
    decreases n,
{
    if n == 0 {
        assert forall|k: Map<char, char>| #[trigger] frontier(words, cands, order, n).contains(k) implies settles_prefix(k, words, cands, order, n as int) by {
            assert(seq![Map::<char, char>::empty()][0] == Map::<char, char>::empty());
        }
    } else {
        let m = (n - 1) as nat;
        lemma_frontier_settles(words, cands, order, m);
        let prev = frontier(words, cands, order, m);
        let i = order[m as int];
        let w = words[i];
        let cs = cands[i];
        lemma_dedup_members(prev);
        lemma_expand_members(dedup_keys(prev), w, cs, words, cands);
        assert forall|k2: Map<char, char>| #[trigger] frontier(words, cands, order, n).contains(k2) implies settles_prefix(k2, words, cands, order, n as int) by {
            let (k, j) = choose|k: Map<char, char>, j: int|
                dedup_keys(prev).contains(k) && 0 <= j < cs.len() && accepts(k, w, #[trigger] cs[j], words, cands)
                    && k2 == #[trigger] unified(k, w, cs[j]);
            assert(prev.contains(k));
            let c = cs[j];
            assert(c.len() == w.len());
            lemma_unified(k, w, c);
            assert(extends_with(k2, k, w, c));
            assert forall|q: int| 0 <= q < n implies #[trigger] settles(k2, words[order[q]], cands[order[q]]) by {
                if q < m {
                    let v = words[order[q]];
                    assert(settles(k, v, cands[order[q]]));
                    assert forall|x: int| 0 <= x < v.len() implies k2.contains_key(#[trigger] v[x]) by {
                        assert(k.contains_key(v[x]));
                        assert(k.dom().contains(v[x]));
                    }
                    assert forall|x: int| 0 <= x < v.len() implies render(v, k2)[x] == render(v, k)[x] by {
                        assert(k.contains_key(v[x]));
                        assert(k.dom().contains(v[x]) && k2.dom().contains(v[x]));
                    }
                    assert(render(v, k2) =~= render(v, k));
                } else {
                    assert(order[q] == i);
                    assert forall|x: int| 0 <= x < w.len() implies k2.contains_key(#[trigger] w[x]) by {}
                    assert(render(w, k2) =~= c);
                    assert(cs[j] == c);
                }
            }
        }
    }
}

/// Every word index appears in an ambiguity order.
pub proof fn lemma_order_covers(o: Seq<int>, cands: Seq<Seq<Seq<char>>>)
    requires
        is_ambiguity_order(o, cands),
    ensures
        forall|i: int| 0 <= i < cands.len() ==> o.contains(i),
{
    assert(o.no_duplicates()) by {
        assert forall|a: int, b: int| 0 <= a < o.len() && 0 <= b < o.len() && a != b implies o[a] != o[b] by {
            if a < b {
                assert(before(cands, o[a], o[b]));
            } else {
                assert(before(cands, o[b], o[a]));
            }
        }
    }
    o.unique_seq_to_set();
    lemma_int_range(0, cands.len() as int);
    let r = set_int_range(0, cands.len() as int);
    assert(o.to_set().subset_of(r)) by {
        assert forall|x: int| o.to_set().contains(x) implies r.contains(x) by {
            let a = choose|a: int| 0 <= a < o.len() && o[a] == x;
        }
    }
    vstd::seq_lib::seq_to_set_is_finite(o);
    lemma_subset_equality(o.to_set(), r);
    assert forall|i: int| 0 <= i < cands.len() implies o.contains(i) by {
        assert(r.contains(i));
        assert(o.to_set().contains(i));
    }
}

/// A solution reads back: every key that the search returns is injective,
/// maps every letter of every ciphertext word, and turns each word into one
/// of that word's candidates.
pub proof fn lemma_round_trip(
    words: Seq<Seq<char>>,
    cands: Seq<Seq<Seq<char>>>,
    order: Seq<int>,
    k: Map<char, char>,
)
    requires
        shaped(words, cands),
        is_ambiguity_order(order, cands),
        frontier(words, cands, order, order.len()).contains(k),
    ensures
        injective(k),
        forall|i: int| 0 <= i < words.len() ==> #[trigger] settles(k, words[i], cands[i]),
{
    lemma_frontier_settles(words, cands, order, order.len());
    lemma_order_covers(order, cands);
    assert forall|i: int| 0 <= i < words.len() implies #[trigger] settles(k, words[i], cands[i]) by {
        assert(order.contains(i));
        let q = choose|q: int| 0 <= q < order.len() && order[q] == i;
        assert(settles(k, words[order[q]], cands[order[q]]));
    }
}

/// The order in which the search takes the words (there is exactly one).
pub open spec fn ambiguity_order(cands: Seq<Seq<Seq<char>>>) -> Seq<int> {
    choose|o: Seq<int>| is_ambiguity_order(o, cands)
}

/// The ambiguity order of a candidate list is unique.
pub proof fn lemma_order_unique(o1: Seq<int>, o2: Seq<int>, cands: Seq<Seq<Seq<char>>>)
    requires
        is_ambiguity_order(o1, cands),
        is_ambiguity_order(o2, cands),
    ensures
        o1 == o2,
{
    lemma_order_covers(o1, cands);
    lemma_order_covers(o2, cands);
    assert forall|a: int| 0 <= a < o1.len() implies o1[a] == o2[a] by {
        lemma_order_prefix(o1, o2, cands, a);
    }
    assert(o1 =~= o2);
}

proof fn lemma_order_prefix(o1: Seq<int>, o2: Seq<int>, cands: Seq<Seq<Seq<char>>>, a: int)
    requires
        is_ambiguity_order(o1, cands),
        is_ambiguity_order(o2, cands),
        forall|i: int| 0 <= i < cands.len() ==> o1.contains(i),
        forall|i: int| 0 <= i < cands.len() ==> o2.contains(i),
        0 <= a < o1.len(),
    ensures
        o1[a] == o2[a],
    decreases a,
{
    assert forall|b: int| 0 <= b < a implies o1[b] == o2[b] by {
        lemma_order_prefix(o1, o2, cands, b);
    }
    let (x, y) = (o1[a], o2[a]);
    if x != y {
        assert(o2.contains(x));
        assert(o1.contains(y));
        let b = choose|b: int| 0 <= b < o2.len() && o2[b] == x;
        let c = choose|c: int| 0 <= c < o1.len() && o1[c] == y;
        if b < a {
            assert(o1[b] == x);
            assert(before(cands, o1[b], o1[a]));
        } else if c < a {
            assert(o2[c] == y);
            assert(before(cands, o2[c], o2[a]));
        } else {
            assert(before(cands, o2[a], o2[b]));
            assert(before(cands, o1[a], o1[c]));
        }
    }
}

/// Whether some candidate of `word` fits `word` rendered under `key`.
pub fn word_viable(key: &PartialKey, word: &String, cs: &Vec<String>) -> (r: bool)
    requires
        key.wf(),
        forall|j: int| 0 <= j < cs@.len() ==> (#[trigger] cs@[j])@.len() == word@.len(),
    ensures
        r == viable(key@, word@, views(cs@)),
{
    let partial = compute_partial(word.as_str(), key);
    let mut j: usize = 0;
    while j < cs.len()
        invariant
            key.wf(),
            partial@ == render(word@, key@),
            forall|j: int| 0 <= j < cs@.len() ==> (#[trigger] cs@[j])@.len() == word@.len(),
            j <= cs@.len(),
            forall|q: int| 0 <= q < j ==> !fits(#[trigger] views(cs@)[q], render(word@, key@)),
        decreases cs@.len() - j,
    {
        if compare_to_partial(cs[j].as_str(), partial.as_str()) {
            assert(fits(views(cs@)[j as int], render(word@, key@)));
            return true;
        }
        j = j + 1;
    }
    false
}

/// Whether every word keeps a fitting candidate under `key`.
pub fn key_consistent(key: &PartialKey, words: &Vec<String>, cands: &Vec<Vec<String>>) -> (r: bool)
    requires
        key.wf(),
        shaped(views(words@), cand_views(cands@)),
    ensures
        r == consistent(key@, views(words@), cand_views(cands@)),
{
    let mut i: usize = 0;
    while i < words.len()
        invariant
            key.wf(),
            shaped(views(words@), cand_views(cands@)),
            i <= words@.len(),
            forall|q: int| 0 <= q < i ==> #[trigger] viable(key@, views(words@)[q], cand_views(cands@)[q]),
        decreases words@.len() - i,
    {
        proof {
            assert forall|j: int| 0 <= j < cands@[i as int]@.len() implies (#[trigger] cands@[i as int]@[j])@.len()
                == words@[i as int]@.len() by {
                assert(cand_views(cands@)[i as int][j] == cands@[i as int]@[j]@);
            }
        }
        let ok = word_viable(key, &words[i], &cands[i]);
        assert(views(words@)[i as int] == words@[i as int]@);
        assert(cand_views(cands@)[i as int] == views(cands@[i as int]@));
        if !ok {
            return false;
        }
        i = i + 1;
    }
    true
}

/// Appends to `out` the keys that `key` gives for the word at `wi`.
fn extend_into(
    key: &PartialKey,
    wi: usize,
    words: &Vec<String>,
    cands: &Vec<Vec<String>>,
    out: &mut Vec<PartialKey>,
)
    requires
        key.wf(),
        shaped(views(words@), cand_views(cands@)),
        wi < words@.len(),
        all_wf(old(out)@),
    ensures
        all_wf(final(out)@),
        key_views(final(out)@) == key_views(old(out)@) + extend_key(
            key@,
            views(words@)[wi as int],
            cand_views(cands@)[wi as int],
            views(words@),
            cand_views(cands@),
        ),
{
    let ghost ws = views(words@);
    let ghost cv = cand_views(cands@);
    let ghost start = key_views(out@);
    let word = &words[wi];
    let cs = &cands[wi];
    assert(ws[wi as int] == word@);
    assert(cv[wi as int] == views(cs@));
    let partial = compute_partial(word.as_str(), key);
    let mut j: usize = 0;
    while j < cs.len()
        invariant
            key.wf(),
            ws == views(words@),
            cv == cand_views(cands@),
            shaped(ws, cv),
            wi < words@.len(),
            ws[wi as int] == word@,
            cv[wi as int] == views(cs@),
            partial@ == render(word@, key@),
            j <= cs@.len(),
            all_wf(out@),
            key_views(out@) == start + extend_key(key@, word@, views(cs@).take(j as int), ws, cv),
        decreases cs@.len() - j,
    {
        let cand = &cs[j];
        let ghost t = views(cs@).take(j as int + 1);
        assert(t.drop_last() == views(cs@).take(j as int));
        assert(t.last() == cand@);
        assert(cv[wi as int][j as int] == cand@);
        let ghost before = key_views(out@);
        if compare_to_partial(cand.as_str(), partial.as_str()) {
            match compute_partial_key(word.as_str(), cand.as_str(), key) {
                Some(k2) => {
                    if key_consistent(&k2, words, cands) {
                        out.push(k2);
                        assert(key_views(out@) =~= before.push(k2@));
                        assert(accepts(key@, word@, cand@, ws, cv));
                    } else {
                        assert(!accepts(key@, word@, cand@, ws, cv));
                    }
                },
                None => {
                    assert(!accepts(key@, word@, cand@, ws, cv));
                },
            }
        } else {
            assert(!accepts(key@, word@, cand@, ws, cv));
        }
        assert(key_views(out@) == start + extend_key(key@, word@, t, ws, cv));
        j = j + 1;
    }
    assert(views(cs@).take(cs@.len() as int) == views(cs@));
}

/// The first occurrence of each key of `v`, in order.
fn dedup_frontier(v: &Vec<PartialKey>) -> (r: Vec<PartialKey>)
    requires
        all_wf(v@),
    ensures
        all_wf(r@),
        key_views(r@) == dedup_keys(key_views(v@)),
{
    let mut r: Vec<PartialKey> = Vec::new();
    let mut i: usize = 0;
    while i < v.len()
        invariant
            all_wf(v@),
            i <= v@.len(),
            all_wf(r@),
            key_views(r@) == dedup_keys(key_views(v@).take(i as int)),
        decreases v@.len() - i,
    {
        let ghost t = key_views(v@).take(i as int + 1);
        assert(t.drop_last() == key_views(v@).take(i as int));
        assert(t.last() == v@[i as int]@);
        let mut seen = false;
        let mut m: usize = 0;
        while m < r.len()
            invariant
                all_wf(v@),
                all_wf(r@),
                i < v@.len(),
                m <= r@.len(),
                seen == exists|q: int| 0 <= q < m && r@[q]@ == v@[i as int]@,
            decreases r@.len() - m,
        {
            if r[m].same_as(&v[i]) {
                seen = true;
            }
            m = m + 1;
        }
        proof {
            if seen {
                let q = choose|q: int| 0 <= q < r@.len() && r@[q]@ == v@[i as int]@;
                assert(key_views(r@)[q] == t.last());
            } else {
                assert forall|q: int| 0 <= q < r@.len() implies key_views(r@)[q] != t.last() by {
                    assert(r@[q]@ != v@[i as int]@);
                }
            }
        }
        if !seen {
            let k = v[i].duplicate();
            r.push(k);
            assert(key_views(r@) =~= key_views(r@).drop_last().push(k@));
        }
        i = i + 1;
    }
    assert(key_views(v@).take(v@.len() as int) == key_views(v@));
    r
}

/// The frontier after processing the words in the given order: starting
/// from the empty key, each word extends every key of the deduplicated
/// frontier by each of its candidates that fits, unifies, and leaves every
/// word a fitting candidate.
pub fn search_in_order(words: &Vec<String>, cands: &Vec<Vec<String>>, order: &Vec<usize>) -> (r: Vec<PartialKey>)
    requires
        shaped(views(words@), cand_views(cands@)),
        forall|a: int| 0 <= a < order@.len() ==> #[trigger] order@[a] < words@.len(),
    ensures
        all_wf(r@),
        key_views(r@) == frontier(views(words@), cand_views(cands@), indices(order@), order@.len()),
{
    let ghost ws = views(words@);
    let ghost cv = cand_views(cands@);
    let ghost o = indices(order@);
    let mut front: Vec<PartialKey> = Vec::new();
    front.push(PartialKey::new());
    assert(key_views(front@) =~= seq![Map::<char, char>::empty()]);
    let mut n: usize = 0;
    while n < order.len()
        invariant
            ws == views(words@),
            cv == cand_views(cands@),
            o == indices(order@),
            shaped(ws, cv),
            forall|a: int| 0 <= a < order@.len() ==> #[trigger] order@[a] < words@.len(),
            n <= order@.len(),
            all_wf(front@),
            key_views(front@) == frontier(ws, cv, o, n as nat),
        decreases order@.len() - n,
    {
        let prev = dedup_frontier(&front);
        let wi = order[n];
        let mut next: Vec<PartialKey> = Vec::new();
        let mut i: usize = 0;
        while i < prev.len()
            invariant
                ws == views(words@),
                cv == cand_views(cands@),
                shaped(ws, cv),
                wi < words@.len(),
                all_wf(prev@),
                i <= prev@.len(),
                all_wf(next@),
                key_views(next@) == expand(key_views(prev@).take(i as int), ws[wi as int], cv[wi as int], ws, cv),
            decreases prev@.len() - i,
        {
            let ghost t = key_views(prev@).take(i as int + 1);
            assert(t.drop_last() == key_views(prev@).take(i as int));
            assert(t.last() == prev@[i as int]@);
            extend_into(&prev[i], wi, words, cands, &mut next);
            i = i + 1;
        }
        assert(key_views(prev@).take(prev@.len() as int) == key_views(prev@));
        assert(o[n as int] == wi as int);
        front = next;
        n = n + 1;
    }
    front
}

/// The indices of the words, those with fewer candidates first and, among
/// equally many, in their given order.
pub fn order_by_ambiguity(cands: &Vec<Vec<String>>) -> (r: Vec<usize>)
    ensures
        is_ambiguity_order(indices(r@), cand_views(cands@)),
{
    let ghost cv = cand_views(cands@);
    let mut r: Vec<usize> = Vec::new();
    let mut i: usize = 0;
    while i < cands.len()
        invariant
            cv == cand_views(cands@),
            i <= cands@.len(),
            r@.len() == i,
            forall|a: int| 0 <= a < r@.len() ==> #[trigger] r@[a] < i,
            forall|a: int, b: int| 0 <= a < b < r@.len() ==> before(cv, #[trigger] r@[a] as int, #[trigger] r@[b] as int),
        decreases cands@.len() - i,
    {
        assert(cv[i as int].len() == cands@[i as int]@.len());
        let n = cands[i].len();
        let mut p: usize = 0;
        while p < r.len() && !(n < cands[r[p]].len())
            invariant
                cv == cand_views(cands@),
                i < cands@.len(),
                n == cv[i as int].len(),
                p <= r@.len(),
                forall|a: int| 0 <= a < r@.len() ==> #[trigger] r@[a] < i,
                forall|q: int| 0 <= q < p ==> before(cv, #[trigger] r@[q] as int, i as int),
            decreases r@.len() - p,
        {
            assert(cv[r@[p as int] as int].len() == cands@[r@[p as int] as int]@.len());
            p = p + 1;
        }
        if p < r.len() {
            assert(cv[r@[p as int] as int].len() == cands@[r@[p as int] as int]@.len());
            assert(before(cv, i as int, r@[p as int] as int));
        }
        let ghost old_r = r@;
        r.insert(p, i);
        assert(r@ == old_r.insert(p as int, i));
        assert forall|a: int, b: int| 0 <= a < b < r@.len() implies before(cv, #[trigger] r@[a] as int, #[trigger] r@[b] as int) by {
            if a < p && b < p {
                assert(r@[a] == old_r[a] && r@[b] == old_r[b]);
            } else if a < p && b == p {
                assert(r@[a] == old_r[a]);
            } else if a < p {
                assert(r@[a] == old_r[a] && r@[b] == old_r[b - 1]);
            } else if a == p {
                assert(r@[b] == old_r[b - 1]);
                if b - 1 > p {
                    assert(before(cv, old_r[p as int] as int, old_r[b - 1] as int));
                }
            } else {
                assert(r@[a] == old_r[a - 1] && r@[b] == old_r[b - 1]);
            }
        }
        assert forall|a: int| 0 <= a < r@.len() implies #[trigger] r@[a] < i + 1 by {
            if a < p {
                assert(r@[a] == old_r[a]);
            } else if a > p {
                assert(r@[a] == old_r[a - 1]);
            }
        }
        i = i + 1;
    }
    r
}

/// Every key that the search finds for the words and their candidates,
/// in the order in which the least ambiguous words first produce them.
pub fn find_keys(words: &Vec<String>, cands: &Vec<Vec<String>>) -> (r: Vec<PartialKey>)
    requires
        shaped(views(words@), cand_views(cands@)),
    ensures
        all_wf(r@),
        is_ambiguity_order(ambiguity_order(cand_views(cands@)), cand_views(cands@)),
        key_views(r@) == frontier(
            views(words@),
            cand_views(cands@),
            ambiguity_order(cand_views(cands@)),
            words@.len() as nat,
        ),
{
    let order = order_by_ambiguity(cands);
    assert forall|a: int| 0 <= a < order@.len() implies #[trigger] order@[a] < words@.len() by {
        assert(indices(order@)[a] == order@[a] as int);
    }
    let r = search_in_order(words, cands, &order);
    proof {
        let o = indices(order@);
        assert(is_ambiguity_order(o, cand_views(cands@)));
        lemma_order_unique(o, ambiguity_order(cand_views(cands@)), cand_views(cands@));
    }
    r
}

} // verus!
