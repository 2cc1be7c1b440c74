//! Letter patterns: the signature of a word up to a renaming of its letters.
//!
//! Each letter is replaced by a symbol `A`, `B`, `C`, ... given in the order
//! in which distinct letters first occur; other characters are kept.

use vstd::prelude::*;
use vstd::set_lib::{lemma_int_range, lemma_len_subset, set_int_range};
use crate::text::{chars_of, is_letter, string_of, upper_char, upper_seq};

verus! {

/// Position of the first `c` among the first `n` characters of `u`, or `n`
/// when none of them is `c`.
pub open spec fn earliest(u: Seq<char>, c: char, n: int) -> int
    decreases n,
{
    if n <= 0 {
        0
    } else {
        let e = earliest(u, c, n - 1);
        if e < n - 1 {
            e
        } else if u[n - 1] == c {
            n - 1
        } else {
            n
        }
    }
}

/// How many distinct letters occur among the first `n` characters of `u`.
pub open spec fn rank(u: Seq<char>, n: int) -> nat
    decreases n,
{
    if n <= 0 {
        0
    } else {
        rank(u, n - 1) + if is_letter(u[n - 1]) && earliest(u, u[n - 1], n - 1) == n - 1 {
            1nat
        } else {
            0nat
        }
    }
}

/// The `k`-th symbol of the pattern alphabet: `A`, `B`, `C`, ...
pub open spec fn symbol(k: nat) -> char {
    (65 + k) as char
}

/// The pattern character at position `i` of the upper-cased word `u`.
pub open spec fn pattern_at(u: Seq<char>, i: int) -> char {
    if is_letter(u[i]) {
        symbol(rank(u, earliest(u, u[i], i)))
    } else {
        u[i]
    }
}

/// The pattern of a word: each letter becomes the symbol of its class, in
/// order of first occurrence, ignoring case; other characters stay.
pub open spec fn pattern_of(w: Seq<char>) -> Seq<char> {
    Seq::new(w.len(), |i: int| pattern_at(upper_seq(w), i))
}

/// The slot of letter `c` in the table of symbols after `n` characters.
spec fn slot(u: Seq<char>, n: int, c: char) -> Option<char> {
    if earliest(u, c, n) < n {
        Some(symbol(rank(u, earliest(u, c, n))))
    } else {
        None
    }
}

/// Number of filled slots among the first `n`.
spec fn filled(f: Seq<Option<char>>, n: int) -> nat
    decreases n,
{
    if n <= 0 {
        0
    } else {
        filled(f, n - 1) + if f[n - 1] is Some {
            1nat
        } else {
            0nat
        }
    }
}

proof fn lemma_earliest(u: Seq<char>, c: char, n: int)
    requires
        0 <= n <= u.len(),
    ensures
        0 <= earliest(u, c, n) <= n,
        earliest(u, c, n) < n ==> u[earliest(u, c, n)] == c,
        forall|k: int| 0 <= k < earliest(u, c, n) ==> u[k] != c,
    decreases n,
{
    if n > 0 {
        lemma_earliest(u, c, n - 1);
    }
}

proof fn lemma_filled_bound(f: Seq<Option<char>>, n: int, k: int)
    requires
        0 <= n <= f.len(),
    ensures
        filled(f, n) <= n,
        0 <= k < n && f[k] is None ==> filled(f, n) < n,
    decreases n,
{
    if n > 0 {
        lemma_filled_bound(f, n - 1, k);
    }
}

proof fn lemma_filled_update(f: Seq<Option<char>>, n: int, k: int, x: char)
    requires
        0 <= k < f.len(),
        0 <= n <= f.len(),
        f[k] is None,
    ensures
        filled(f.update(k, Some(x)), n) == filled(f, n) + if k < n {
            1nat
        } else {
            0nat
        },
    decreases n,
{
    if n > 0 {
        lemma_filled_update(f, n - 1, k, x);
    }
}

/// `t` renames the letters of `w` one to one, ignoring case: letters stand
/// where `w` has letters, other characters are kept, and two positions hold
/// equal characters in `t` exactly when they do in `w`.
pub open spec fn relabels(w: Seq<char>, t: Seq<char>) -> bool {
    let a = upper_seq(w);
    let b = upper_seq(t);
    &&& w.len() == t.len()
    &&& forall|i: int| 0 <= i < w.len() ==> (is_letter(#[trigger] a[i]) <==> is_letter(b[i]))
    &&& forall|i: int| 0 <= i < w.len() && !is_letter(#[trigger] a[i]) ==> a[i] == b[i]
    &&& forall|i: int, j: int| 0 <= i < w.len() && 0 <= j < w.len() ==> (#[trigger] a[i] == #[trigger] a[j] <==> b[i] == b[j])
}

proof fn lemma_earliest_relabel(a: Seq<char>, b: Seq<char>, i: int, n: int)
    requires
        a.len() == b.len(),
        0 <= i < a.len(),
        n <= a.len(),
        forall|x: int, y: int| 0 <= x < a.len() && 0 <= y < a.len() ==> (#[trigger] a[x] == #[trigger] a[y] <==> b[x] == b[y]),
    ensures
        earliest(a, a[i], n) == earliest(b, b[i], n),
    decreases n,
{
    if n > 0 {
        lemma_earliest_relabel(a, b, i, n - 1);
        assert(a[n - 1] == a[i] <==> b[n - 1] == b[i]);
    }
}

proof fn lemma_rank_relabel(w: Seq<char>, t: Seq<char>, n: int)
    requires
        relabels(w, t),
        n <= w.len(),
    ensures
        rank(upper_seq(w), n) == rank(upper_seq(t), n),
    decreases n,
{
    if n > 0 {
        let (a, b) = (upper_seq(w), upper_seq(t));
        lemma_rank_relabel(w, t, n - 1);
        lemma_earliest_relabel(a, b, n - 1, n - 1);
        assert(is_letter(a[n - 1]) <==> is_letter(b[n - 1]));
    }
}

/// A pattern does not change when the letters of the word are renamed one
/// to one.
pub proof fn lemma_pattern_relabel(w: Seq<char>, t: Seq<char>)
    requires
        relabels(w, t),
    ensures
        pattern_of(w) == pattern_of(t),
{
    let (a, b) = (upper_seq(w), upper_seq(t));
    assert forall|i: int| 0 <= i < w.len() implies pattern_at(a, i) == pattern_at(b, i) by {
        lemma_earliest_relabel(a, b, i, i);
        lemma_earliest(a, a[i], i);
        lemma_rank_relabel(w, t, earliest(a, a[i], i));
        assert(is_letter(a[i]) <==> is_letter(b[i]));
    }
    assert(pattern_of(w) =~= pattern_of(t));
}

/// The codes of the letters among the first `n` characters of `u`.
spec fn codes(u: Seq<char>, n: int) -> Set<int>
    decreases n,
{
    if n <= 0 {
        Set::empty()
    } else if is_letter(u[n - 1]) {
        codes(u, n - 1).insert(u[n - 1] as int)
    } else {
        codes(u, n - 1)
    }
}

proof fn lemma_codes(u: Seq<char>, n: int)
    requires
        0 <= n <= u.len(),
    ensures
        codes(u, n).finite(),
        codes(u, n).subset_of(set_int_range(65, 91)),
        rank(u, n) == codes(u, n).len(),
        forall|j: int| 0 <= j < n && is_letter(u[j]) ==> codes(u, n).contains(#[trigger] u[j] as int),
        forall|x: int| #[trigger] codes(u, n).contains(x) ==> exists|j: int| 0 <= j < n && #[trigger] u[j] as int == x,
    decreases n,
{
    if n > 0 {
        lemma_codes(u, n - 1);
        lemma_earliest(u, u[n - 1], n - 1);
        let c = codes(u, n - 1);
        if is_letter(u[n - 1]) {
            if earliest(u, u[n - 1], n - 1) == n - 1 {
                if c.contains(u[n - 1] as int) {
                    let j = choose|j: int| 0 <= j < n - 1 && #[trigger] u[j] as int == u[n - 1] as int;
                    assert(u[j] == u[n - 1]);
                }
            } else {
                let e = earliest(u, u[n - 1], n - 1);
                assert(c.contains(u[e] as int));
            }
        }
    }
}

/// No word has more distinct letters than the alphabet.
proof fn lemma_rank_bound(u: Seq<char>, n: int)
    requires
        0 <= n <= u.len(),
    ensures
        rank(u, n) <= 26,
{
    lemma_codes(u, n);
    lemma_int_range(65, 91);
    lemma_len_subset(codes(u, n), set_int_range(65, 91));
}

proof fn lemma_rank_mono(u: Seq<char>, m: int, n: int)
    requires
        0 <= m <= n,
    ensures
        rank(u, m) <= rank(u, n),
    decreases n - m,
{
    if m < n {
        lemma_rank_mono(u, m, n - 1);
    }
}

proof fn lemma_symbol(k: nat)
    requires
        k < 26,
    ensures
        is_letter(symbol(k)),
        symbol(k) as int == 65 + k,
{
}

/// The pattern tells letters from other characters, keeps the other
/// characters, and gives two letters one symbol exactly when they are equal.
proof fn lemma_pattern_separates(u: Seq<char>, i: int, j: int)
    requires
        0 <= i < u.len(),
        0 <= j < u.len(),
    ensures
        is_letter(u[i]) <==> is_letter(pattern_at(u, i)),
        !is_letter(u[i]) ==> pattern_at(u, i) == u[i],
        pattern_at(u, i) == pattern_at(u, j) <==> u[i] == u[j],
{
    lemma_earliest(u, u[i], i);
    lemma_earliest(u, u[j], j);
    let ei = earliest(u, u[i], i);
    let ej = earliest(u, u[j], j);
    assert(u[ei] == u[i]);
    assert(u[ej] == u[j]);
    lemma_earliest(u, u[ei], ei);
    lemma_earliest(u, u[ej], ej);
    assert(earliest(u, u[ei], ei) == ei);
    assert(earliest(u, u[ej], ej) == ej);
    if is_letter(u[i]) {
        assert(rank(u, ei + 1) == rank(u, ei) + 1);
        lemma_rank_bound(u, ei + 1);
        lemma_symbol(rank(u, ei));
    }
    if is_letter(u[j]) {
        assert(rank(u, ej + 1) == rank(u, ej) + 1);
        lemma_rank_bound(u, ej + 1);
        lemma_symbol(rank(u, ej));
    }
    if is_letter(u[i]) && is_letter(u[j]) {
        if u[i] == u[j] {
            assert(ei == ej);
        } else {
            assert(ei != ej);
            if ei < ej {
                lemma_rank_mono(u, ei + 1, ej);
            } else {
                lemma_rank_mono(u, ej + 1, ei);
            }
            assert(rank(u, ei) != rank(u, ej));
        }
    }
}

/// Two words of one length share a pattern exactly when one renames the
/// letters of the other one to one.
pub proof fn lemma_pattern_iff_relabel(w: Seq<char>, t: Seq<char>)
    requires
        w.len() == t.len(),
    ensures
        pattern_of(w) == pattern_of(t) <==> relabels(w, t),
{
    if relabels(w, t) {
        lemma_pattern_relabel(w, t);
    }
    if pattern_of(w) == pattern_of(t) {
        let (a, b) = (upper_seq(w), upper_seq(t));
        assert forall|i: int, j: int| 0 <= i < w.len() && 0 <= j < w.len() implies (#[trigger] a[i]
            == #[trigger] a[j] <==> b[i] == b[j]) by {
            lemma_pattern_separates(a, i, j);
            lemma_pattern_separates(b, i, j);
            assert(pattern_of(w)[i] == pattern_of(t)[i]);
            assert(pattern_of(w)[j] == pattern_of(t)[j]);
        }
        assert forall|i: int| 0 <= i < w.len() implies (is_letter(#[trigger] a[i]) <==> is_letter(b[i])) && (!is_letter(a[i]) ==> a[i] == b[i]) by {
            lemma_pattern_separates(a, i, i);
            lemma_pattern_separates(b, i, i);
            assert(pattern_of(w)[i] == pattern_of(t)[i]);
        }
    }
}

/// How one more character changes the slots, the rank and the pattern.
proof fn lemma_step(u: Seq<char>, i: int)
    requires
        0 <= i < u.len(),
    ensures
        forall|d: char| d != u[i] ==> #[trigger] slot(u, i + 1, d) == slot(u, i, d),
        is_letter(u[i]) && slot(u, i, u[i]) is Some ==> slot(u, i + 1, u[i]) == slot(u, i, u[i])
            && rank(u, i + 1) == rank(u, i) && pattern_at(u, i) == slot(u, i, u[i])->0,
        is_letter(u[i]) && slot(u, i, u[i]) is None ==> slot(u, i + 1, u[i]) == Some(symbol(rank(u, i)))
            && rank(u, i + 1) == rank(u, i) + 1 && pattern_at(u, i) == symbol(rank(u, i)),
        !is_letter(u[i]) ==> rank(u, i + 1) == rank(u, i) && pattern_at(u, i) == u[i],
{
    lemma_earliest(u, u[i], i);
    assert forall|d: char| d != u[i] implies #[trigger] slot(u, i + 1, d) == slot(u, i, d) by {
        lemma_earliest(u, d, i);
    }
}

/// The letter pattern of `word`.
pub fn compute_pattern(word: &str) -> (r: String)
    ensures
        r@ == pattern_of(word@),
        r@.len() == word@.len(),
{
    let w = chars_of(word);
    let ghost u = upper_seq(w@);
    let mut found: Vec<Option<char>> = Vec::new();
    while found.len() < 26
        invariant
            found@.len() <= 26,
            forall|k: int| 0 <= k < found@.len() ==> found@[k] is None,
        decreases 26 - found@.len(),
    {
        found.push(None);
    }
    proof {
        assert forall|n: int| 0 <= n <= 26 implies filled(found@, n) == 0 by {
            lemma_filled_zero(found@, n);
        }
    }
    let mut next: u8 = 0;
    let mut out: Vec<char> = Vec::new();
    let mut i: usize = 0;
    while i < w.len()
        invariant
            u == upper_seq(w@),
            i <= w@.len(),
            found@.len() == 26,
            forall|c: char| #[trigger] is_letter(c) ==> found@[c as int - 65] == slot(u, i as int, c),
            next as nat == rank(u, i as int),
            rank(u, i as int) == filled(found@, 26),
            out@ == Seq::new(i as nat, |k: int| pattern_at(u, k)),
        decreases w@.len() - i,
    {
        let c = upper_char(w[i]);
        proof {
            lemma_step(u, i as int);
            lemma_filled_bound(found@, 26, c as int - 65);
        }
        let ghost before = found@;
        if 'A' <= c && c <= 'Z' {
            let k = ((c as u32) - 65) as usize;
            match found[k] {
                Some(s) => {
                    out.push(s);
                },
                None => {
                    let s = (65u8 + next) as char;
                    proof {
                        lemma_filled_update(found@, 26, k as int, s);
                    }
                    found.set(k, Some(s));
                    out.push(s);
                    next = next + 1;
                },
            }
        } else {
            out.push(c);
        }
        proof {
            assert forall|d: char| #[trigger] is_letter(d) implies found@[d as int - 65] == slot(
                u,
                i as int + 1,
                d,
            ) by {
                if d != c {
                    assert(found@[d as int - 65] == before[d as int - 65]);
                }
            }
        }
        assert(out@ =~= Seq::new(i as nat + 1, |k: int| pattern_at(u, k)));
        i = i + 1;
    }
    string_of(&out)
}

proof fn lemma_filled_zero(f: Seq<Option<char>>, n: int)
    requires
        0 <= n <= f.len(),
        forall|k: int| 0 <= k < f.len() ==> f[k] is None,
    ensures
        filled(f, n) == 0,
    decreases n,
{
    if n > 0 {
        lemma_filled_zero(f, n - 1);
    }
}

} // verus!
