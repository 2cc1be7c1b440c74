//! Decryption of a ciphertext under a key, and the whole solver from
//! dictionary lines and ciphertext to plaintext.

use vstd::prelude::*;
use crate::candidates::{
    candidates_of, cipher_words, cipher_words_of, compute_matches, dictionary_of,
    lemma_letters_in_words, prepare_dictionary, same_shape, views,
};
use crate::key::PartialKey;
use crate::search::{
    ambiguity_order, cand_views, find_keys, frontier, key_views, lemma_round_trip, settles,
};
use crate::text::{chars_of, is_letter, string_of, upper, upper_char, upper_seq};

verus! {

/// Every letter of the upper-cased text has an image under `m`.
pub open spec fn covers(text: Seq<char>, m: Map<char, char>) -> bool {
    forall|i: int| 0 <= i < text.len() && is_letter(upper(text[i])) ==> m.contains_key(upper(text[i]))
}

/// The text upper-cased, each letter replaced by its image under `m`, every
/// other character kept in its place.
pub open spec fn decrypted(text: Seq<char>, m: Map<char, char>) -> Seq<char> {
    Seq::new(
        text.len(),
        |i: int|
            if is_letter(upper(text[i])) {
                m[upper(text[i])]
            } else {
                upper(text[i])
            },
    )
}

/// Why the solver gives no plaintext.
#[derive(Clone, Copy, Debug, PartialEq, Eq)]
pub enum SolveError {
    /// No key maps every ciphertext word onto a dictionary word.
    NoSolution,
}

/// `text` decrypted under `key`, or the first letter that `key` does not map.
pub fn apply_key(text: &str, key: &PartialKey) -> (r: Result<String, char>)
    requires
        key.wf(),
    ensures
        r is Ok <==> covers(text@, key@),
        r matches Ok(s) ==> s@ == decrypted(text@, key@),
        r matches Err(c) ==> is_letter(c) && !key@.contains_key(c) && exists|i: int|
            0 <= i < text@.len() && upper(text@[i]) == c,
{
    let t = chars_of(text);
    let mut out: Vec<char> = Vec::new();
    let mut i: usize = 0;
    while i < t.len()
        invariant
            key.wf(),
            t@ == text@,
            i <= t@.len(),
            out@ == decrypted(text@, key@).take(i as int),
            forall|k: int| 0 <= k < i && is_letter(upper(text@[k])) ==> key@.contains_key(upper(text@[k])),
        decreases t@.len() - i,
    {
        let c = upper_char(t[i]);
        if 'A' <= c && c <= 'Z' {
            match key.get(c) {
                Some(p) => out.push(p),
                None => {
                    return Err(c);
                },
            }
        } else {
            out.push(c);
        }
        assert(out@ =~= decrypted(text@, key@).take(i as int + 1));
        i = i + 1;
    }
    assert(out@ =~= decrypted(text@, key@));
    Ok(string_of(&out))
}

/// Each candidate list has only words of its ciphertext word's length.
pub proof fn lemma_candidates_shape(c: Seq<char>, dict: Seq<Seq<char>>)
    ensures
        forall|j: int| 0 <= j < candidates_of(c, dict).len() ==> (#[trigger] candidates_of(c, dict)[j]).len() == c.len(),
    decreases dict.len(),
{
    if dict.len() > 0 {
        lemma_candidates_shape(c, dict.drop_last());
        let r = candidates_of(c, dict.drop_last());
        if same_shape(c, dict.last()) {
            assert(upper_seq(dict.last()).len() == dict.last().len());
            assert(candidates_of(c, dict) == r.push(upper_seq(dict.last())));
        }
    }
}

/// Solves the cryptogram `ciphertext` against the dictionary `lines`.
///
/// The dictionary is upper-cased with equal neighbouring lines kept once;
/// the ciphertext's distinct words each get their candidates; the search
/// takes the words with fewest candidates first. Of the keys it finds, the
/// first is used: a cryptogram with several solutions yields the first one
/// found. The result is the upper-cased ciphertext with each letter
/// replaced under that key; every letter has an image, since each lies in
/// a ciphertext word that the key settles.
pub fn solve(lines: &Vec<String>, ciphertext: &str) -> (r: Result<String, SolveError>)
    ensures
        ({
            let dict = dictionary_of(views(lines@));
            let ws = cipher_words(ciphertext@);
            let cs = Seq::new(ws.len(), |i: int| candidates_of(ws[i], dict));
            let f = frontier(ws, cs, ambiguity_order(cs), ws.len());
            &&& (r is Err <==> f.len() == 0)
            &&& (r matches Ok(s) ==> s@ == decrypted(ciphertext@, f[0]))
        }),
{
    let dict = prepare_dictionary(lines);
    let words = cipher_words_of(ciphertext);
    let cands = compute_matches(&words, &dict);
    let ghost ws = views(words@);
    let ghost cs = Seq::new(ws.len(), |i: int| candidates_of(ws[i], views(dict@)));
    assert(cand_views(cands@) =~= cs);
    proof {
        assert forall|i: int, j: int| 0 <= i < ws.len() && 0 <= j < cs[i].len() implies (#[trigger] cs[i][j]).len() == ws[i].len() by {
            lemma_candidates_shape(ws[i], views(dict@));
        }
    }
    let keys = find_keys(&words, &cands);
    if keys.len() == 0 {
        return Err(SolveError::NoSolution);
    }
    assert(key_views(keys@)[0] == keys@[0]@);
    proof {
        let o = ambiguity_order(cs);
        let k = keys@[0]@;
        assert(key_views(keys@).contains(k));
        lemma_round_trip(ws, cs, o, k);
        assert forall|i: int|
            0 <= i < ciphertext@.len() && is_letter(upper(ciphertext@[i])) implies k.contains_key(
            upper(ciphertext@[i]),
        ) by {
            lemma_letters_in_words(ciphertext@, i);
            let d = choose|d: int|
                0 <= d < ws.len() && (#[trigger] ws[d]).contains(upper(ciphertext@[i]));
            assert(settles(k, ws[d], cs[d]));
            let x = choose|x: int| 0 <= x < ws[d].len() && ws[d][x] == upper(ciphertext@[i]);
            assert(k.contains_key(ws[d][x]));
        }
    }
    match apply_key(ciphertext, &keys[0]) {
        Ok(s) => Ok(s),
        Err(_) => {
            assert(false);
            Err(SolveError::NoSolution)
        },
    }
}

} // verus!
