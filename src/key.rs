//! Partial keys: injective maps from ciphertext letters to plaintext
//! letters, with rendering of a word under a key and unification of a
//! ciphertext word with a candidate word.

use vstd::prelude::*;
use crate::text::{chars_of, string_of};

verus! {

/// The character shown for a ciphertext letter that a key does not map.
pub const PLACEHOLDER: char = '.';

/// The map that the aligned sequences `from` and `to` describe.
pub open spec fn map_of(from: Seq<char>, to: Seq<char>) -> Map<char, char>
    decreases from.len(),
{
    if from.len() == 0 || to.len() == 0 {
        Map::empty()
    } else {
        map_of(from.drop_last(), to.drop_last()).insert(from.last(), to.last())
    }
}

/// No two letters share an image.
pub open spec fn injective(m: Map<char, char>) -> bool {
    forall|a: char, b: char|
        m.contains_key(a) && m.contains_key(b) && #[trigger] m[a] == #[trigger] m[b] ==> a == b
}

/// A word rendered under a key: mapped letters are replaced by their
/// images, unmapped ones by the placeholder.
pub open spec fn render(w: Seq<char>, m: Map<char, char>) -> Seq<char> {
    Seq::new(w.len(), |i: int| if m.contains_key(w[i]) { m[w[i]] } else { PLACEHOLDER })
}

/// `word` agrees with `partial` at every position that is not a placeholder.
pub open spec fn fits(word: Seq<char>, partial: Seq<char>) -> bool {
    forall|i: int| 0 <= i < partial.len() && partial[i] != PLACEHOLDER ==> word[i] == partial[i]
}

/// The ciphertext word `e` can be read as `w` under an extension of `m`
/// that stays injective.
pub open spec fn unifiable(e: Seq<char>, w: Seq<char>, m: Map<char, char>) -> bool {
    &&& forall|i: int| 0 <= i < e.len() && m.contains_key(e[i]) ==> m[e[i]] == w[i]
    &&& forall|i: int, a: char|
        0 <= i < e.len() && m.contains_key(a) && m[a] == w[i] ==> a == e[i]
    &&& forall|i: int, j: int| 0 <= i < e.len() && 0 <= j < e.len() ==> (e[i] == e[j] <==> w[i] == w[j])
}

/// `k` is the least extension of `m` that maps each letter of `e` to the
/// letter of `w` at the same position.
pub open spec fn extends_with(k: Map<char, char>, m: Map<char, char>, e: Seq<char>, w: Seq<char>) -> bool {
    &&& m.submap_of(k)
    &&& forall|i: int| 0 <= i < e.len() ==> k.contains_key(e[i]) && k[e[i]] == w[i]
    &&& forall|c: char| k.contains_key(c) ==> m.contains_key(c) || e.contains(c)
}

/// The extension of `m` that maps each letter of `e` to the letter of `w`
/// at its position (at its first position, should the two disagree).
pub open spec fn unified(m: Map<char, char>, e: Seq<char>, w: Seq<char>) -> Map<char, char> {
    Map::new(
        |c: char| m.contains_key(c) || e.contains(c),
        |c: char|
            if m.contains_key(c) {
                m[c]
            } else {
                w[choose|i: int| 0 <= i < e.len() && e[i] == c]
            },
    )
}

/// Unification keeps a key injective, and the unified key extends the old
/// one and reads the ciphertext word as the candidate.
pub proof fn lemma_unified(m: Map<char, char>, e: Seq<char>, w: Seq<char>)
    requires
        e.len() == w.len(),
        unifiable(e, w, m),
        injective(m),
    ensures
        injective(unified(m, e, w)),
        extends_with(unified(m, e, w), m, e, w),
{
    let k = unified(m, e, w);
    assert forall|i: int| 0 <= i < e.len() implies k.contains_key(e[i]) && k[e[i]] == w[i] by {
        assert(e.contains(e[i]));
        if !m.contains_key(e[i]) {
            let j = choose|j: int| 0 <= j < e.len() && e[j] == e[i];
            assert(w[j] == w[i]);
        }
    }
    assert forall|a: char, b: char|
        k.contains_key(a) && k.contains_key(b) && #[trigger] k[a] == #[trigger] k[b] implies a == b by {
        if !m.contains_key(a) {
            let i = choose|i: int| 0 <= i < e.len() && e[i] == a;
            assert(k[e[i]] == w[i]);
        }
        if !m.contains_key(b) {
            let j = choose|j: int| 0 <= j < e.len() && e[j] == b;
            assert(k[e[j]] == w[j]);
        }
    }
    assert(m.submap_of(k));
}

/// A partial key, kept as two aligned lists: `from[i]` maps to `to[i]`.
pub struct PartialKey {
    from: Vec<char>,
    to: Vec<char>,
}

impl View for PartialKey {
    type V = Map<char, char>;

    closed spec fn view(&self) -> Map<char, char> {
        map_of(self.from@, self.to@)
    }
}

proof fn lemma_map_of(from: Seq<char>, to: Seq<char>)
    requires
        from.len() == to.len(),
        from.no_duplicates(),
    ensures
        forall|c: char| #[trigger] map_of(from, to).contains_key(c) <==> from.contains(c),
        forall|i: int| 0 <= i < from.len() ==> #[trigger] map_of(from, to)[from[i]] == to[i],
    decreases from.len(),
{
    if from.len() > 0 {
        let (f, t) = (from.drop_last(), to.drop_last());
        assert(f.no_duplicates());
        lemma_map_of(f, t);
        assert(map_of(from, to) == map_of(f, t).insert(from.last(), to.last()));
        assert forall|c: char| #[trigger] map_of(from, to).contains_key(c) <==> from.contains(c) by {
            if from.contains(c) && c != from.last() {
                let i = choose|i: int| 0 <= i < from.len() && from[i] == c;
                assert(f[i] == c);
                assert(f.contains(c));
            }
            if f.contains(c) {
                let i = choose|i: int| 0 <= i < f.len() && f[i] == c;
                assert(from[i] == c);
            }
            if c == from.last() {
                assert(from[from.len() - 1] == c);
            }
        }
        assert forall|i: int| 0 <= i < from.len() implies #[trigger] map_of(from, to)[from[i]]
            == to[i] by {
            if i < from.len() - 1 {
                assert(f[i] == from[i]);
                assert(from[i] != from.last());
                assert(map_of(f, t)[f[i]] == t[i]);
            }
        }
    }
}

impl PartialKey {
    /// The lists are aligned and each holds every letter at most once.
    pub closed spec fn wf(&self) -> bool {
        &&& self.from@.len() == self.to@.len()
        &&& self.from@.no_duplicates()
        &&& self.to@.no_duplicates()
    }

    proof fn lemma_view(&self)
        requires
            self.wf(),
        ensures
            forall|c: char| #[trigger] self@.contains_key(c) <==> self.from@.contains(c),
            forall|i: int| 0 <= i < self.from@.len() ==> #[trigger] self@[self.from@[i]] == self.to@[i],
            injective(self@),
    {
        lemma_map_of(self.from@, self.to@);
        assert(self@ == map_of(self.from@, self.to@));
        assert forall|a: char, b: char|
            self@.contains_key(a) && self@.contains_key(b) && #[trigger] self@[a] == #[trigger] self@[b] implies a == b by {
            let i = choose|i: int| 0 <= i < self.from@.len() && self.from@[i] == a;
            let j = choose|j: int| 0 <= j < self.from@.len() && self.from@[j] == b;
            assert(self@[self.from@[i]] == self.to@[i]);
            assert(self@[self.from@[j]] == self.to@[j]);
        }
    }

    /// A well-formed key is injective.
    pub proof fn lemma_injective(&self)
        requires
            self.wf(),
        ensures
            injective(self@),
    {
        self.lemma_view();
    }

    /// The key that maps nothing.
    pub fn new() -> (r: PartialKey)
        ensures
            r.wf(),
            r@ == Map::<char, char>::empty(),
    {
        PartialKey { from: Vec::new(), to: Vec::new() }
    }

    /// The image of `c`, if the key maps it.
    pub fn get(&self, c: char) -> (r: Option<char>)
        requires
            self.wf(),
        ensures
            r == (if self@.contains_key(c) { Some(self@[c]) } else { None::<char> }),
    {
        proof {
            self.lemma_view();
        }
        let mut i: usize = 0;
        while i < self.from.len()
            invariant
                self.wf(),
                i <= self.from@.len(),
                forall|k: int| 0 <= k < i ==> self.from@[k] != c,
            decreases self.from@.len() - i,
        {
            if self.from[i] == c {
                proof {
                    self.lemma_view();
                }
                return Some(self.to[i]);
            }
            i = i + 1;
        }
        proof {
            self.lemma_view();
        }
        None
    }

    /// The letter that the key maps onto `p`, if any.
    pub fn preimage(&self, p: char) -> (r: Option<char>)
        requires
            self.wf(),
        ensures
            r matches Some(a) ==> self@.contains_key(a) && self@[a] == p,
            r is None ==> forall|a: char| self@.contains_key(a) ==> self@[a] != p,
    {
        proof {
            self.lemma_view();
        }
        let mut i: usize = 0;
        while i < self.to.len()
            invariant
                self.wf(),
                i <= self.to@.len(),
                forall|k: int| 0 <= k < i ==> self.to@[k] != p,
            decreases self.to@.len() - i,
        {
            if self.to[i] == p {
                proof {
                    self.lemma_view();
                }
                return Some(self.from[i]);
            }
            i = i + 1;
        }
        proof {
            self.lemma_view();
            assert forall|a: char| self@.contains_key(a) implies self@[a] != p by {
                let k = choose|k: int| 0 <= k < self.from@.len() && self.from@[k] == a;
                assert(self@[self.from@[k]] == self.to@[k]);
            }
        }
        None
    }

    /// Adds the pair `a -> p` for a letter `a` that is not mapped yet and an
    /// image `p` that no letter has yet.
    fn bind(&mut self, a: char, p: char)
        requires
            old(self).wf(),
            !old(self)@.contains_key(a),
            forall|b: char| old(self)@.contains_key(b) ==> old(self)@[b] != p,
        ensures
            final(self).wf(),
            final(self)@ == old(self)@.insert(a, p),
    {
        proof {
            self.lemma_view();
            assert(!self.to@.contains(p)) by {
                if self.to@.contains(p) {
                    let i = choose|i: int| 0 <= i < self.to@.len() && self.to@[i] == p;
                    assert(self@[self.from@[i]] == p);
                }
            }
        }
        self.from.push(a);
        self.to.push(p);
        proof {
            assert(self.from@.drop_last() == old(self).from@);
            assert(self.to@.drop_last() == old(self).to@);
        }
    }

    /// A copy of the key.
    pub fn duplicate(&self) -> (r: PartialKey)
        requires
            self.wf(),
        ensures
            r.wf(),
            r@ == self@,
    {
        let mut from: Vec<char> = Vec::new();
        let mut to: Vec<char> = Vec::new();
        let mut i: usize = 0;
        while i < self.from.len()
            invariant
                self.wf(),
                i <= self.from@.len(),
                from@ == self.from@.take(i as int),
                to@ == self.to@.take(i as int),
            decreases self.from@.len() - i,
        {
            from.push(self.from[i]);
            to.push(self.to[i]);
            assert(from@ == self.from@.take(i as int + 1));
            assert(to@ == self.to@.take(i as int + 1));
            i = i + 1;
        }
        assert(from@ == self.from@);
        assert(to@ == self.to@);
        PartialKey { from, to }
    }

    /// Every pair of `self` is a pair of `other`.
    fn included_in(&self, other: &PartialKey) -> (r: bool)
        requires
            self.wf(),
            other.wf(),
        ensures
            r == self@.submap_of(other@),
    {
        proof {
            self.lemma_view();
        }
        let mut i: usize = 0;
        while i < self.from.len()
            invariant
                self.wf(),
                other.wf(),
                i <= self.from@.len(),
                forall|k: int| 0 <= k < i ==> other@.contains_key(#[trigger] self.from@[k]),
                forall|k: int| 0 <= k < i ==> other@[#[trigger] self.from@[k]] == self.to@[k],
                forall|c: char| self@.contains_key(c) <==> self.from@.contains(c),
                forall|k: int| 0 <= k < self.from@.len() ==> #[trigger] self@[self.from@[k]] == self.to@[k],
            decreases self.from@.len() - i,
        {
            proof {
                assert(self.from@.contains(self.from@[i as int]));
                assert(self@.contains_key(self.from@[i as int]));
            }
            match other.get(self.from[i]) {
                Some(p) => {
                    if p != self.to[i] {
                        return false;
                    }
                },
                None => {
                    return false;
                },
            }
            assert(other@.contains_key(self.from@[i as int]) && other@[self.from@[i as int]]
                == self.to@[i as int]);
            i = i + 1;
        }
        assert forall|c: char| self@.contains_key(c) implies other@.contains_key(c) && other@[c] == self@[c] by {
            let k = choose|k: int| 0 <= k < self.from@.len() && self.from@[k] == c;
        }
        true
    }

    /// The two keys map the same letters to the same images.
    pub fn same_as(&self, other: &PartialKey) -> (r: bool)
        requires
            self.wf(),
            other.wf(),
        ensures
            r == (self@ == other@),
    {
        let r = self.included_in(other) && other.included_in(self);
        if r {
            assert forall|c: char| self@.contains_key(c) <==> other@.contains_key(c) by {
                if self@.contains_key(c) {
                    assert(self@.dom().contains(c));
                }
                if other@.contains_key(c) {
                    assert(other@.dom().contains(c));
                }
            }
            assert forall|c: char| self@.contains_key(c) implies self@[c] == other@[c] by {
                assert(self@.dom().contains(c));
            }
            assert(self@ =~= other@);
        }
        r
    }
}

/// `word` rendered under `key`: each letter with an image becomes that
/// image, each other character the placeholder `.`.
pub fn compute_partial(word: &str, key: &PartialKey) -> (r: String)
    requires
        key.wf(),
    ensures
        r@ == render(word@, key@),
{
    let w = chars_of(word);
    let mut out: Vec<char> = Vec::new();
    let mut i: usize = 0;
    while i < w.len()
        invariant
            key.wf(),
            w@ == word@,
            i <= w@.len(),
            out@ == render(word@, key@).take(i as int),
        decreases w@.len() - i,
    {
        match key.get(w[i]) {
            Some(p) => out.push(p),
            None => out.push(PLACEHOLDER),
        }
        assert(out@ =~= render(word@, key@).take(i as int + 1));
        i = i + 1;
    }
    assert(out@ =~= render(word@, key@));
    string_of(&out)
}

/// Whether `word` could be what `partial` renders: it agrees at every
/// position that is not a placeholder.
pub fn compare_to_partial(word: &str, partial: &str) -> (r: bool)
    requires
        word@.len() == partial@.len(),
    ensures
        r == fits(word@, partial@),
{
    let w = chars_of(word);
    let p = chars_of(partial);
    let mut i: usize = 0;
    while i < p.len()
        invariant
            w@ == word@,
            p@ == partial@,
            w@.len() == p@.len(),
            i <= p@.len(),
            forall|k: int| 0 <= k < i && p@[k] != PLACEHOLDER ==> w@[k] == p@[k],
        decreases p@.len() - i,
    {
        if p[i] != PLACEHOLDER && w[i] != p[i] {
            return false;
        }
        i = i + 1;
    }
    true
}

/// Unifies the ciphertext word `encrypted_word` with the candidate `word`
/// on top of `prev_key`. Fails when a letter would get a second image or an
/// image would get a second letter; otherwise returns the least extension
/// of `prev_key` that reads `encrypted_word` as `word`.
pub fn compute_partial_key(encrypted_word: &str, word: &str, prev_key: &PartialKey) -> (r: Option<PartialKey>)
    requires
        encrypted_word@.len() == word@.len(),
        prev_key.wf(),
    ensures
        r is Some <==> unifiable(encrypted_word@, word@, prev_key@),
        r matches Some(k) ==> k.wf() && k@ == unified(prev_key@, encrypted_word@, word@),
        r matches Some(k) ==> injective(k@) && extends_with(k@, prev_key@, encrypted_word@, word@),
{
    let e = chars_of(encrypted_word);
    let w = chars_of(word);
    let ghost m = prev_key@;
    let mut key = prev_key.duplicate();
    let mut i: usize = 0;
    while i < e.len()
        invariant
            e@ == encrypted_word@,
            w@ == word@,
            e@.len() == w@.len(),
            i <= e@.len(),
            m == prev_key@,
            key.wf(),
            m.submap_of(key@),
            forall|j: int| 0 <= j < i ==> key@.contains_key(#[trigger] e@[j]),
            forall|j: int| 0 <= j < i ==> key@[#[trigger] e@[j]] == w@[j],
            forall|c: char| key@.contains_key(c) ==> m.contains_key(c) || exists|j: int| 0 <= j < i && e@[j] == c,
        decreases e@.len() - i,
    {
        let a = e[i];
        let p = w[i];
        proof {
            key.lemma_injective();
        }
        match key.get(a) {
            Some(q) => {
                if q != p {
                    proof {
                        if !m.contains_key(a) {
                            let j = choose|j: int| 0 <= j < i && e@[j] == a;
                            assert(e@[j] == e@[i as int] && w@[j] != w@[i as int]);
                        } else {
                            assert(m.dom().contains(a));
                            assert(m[e@[i as int]] != w@[i as int]);
                        }
                        assert(!unifiable(encrypted_word@, word@, m));
                    }
                    return None;
                }
            },
            None => {
                match key.preimage(p) {
                    Some(b) => {
                        proof {
                            if m.contains_key(b) {
                                assert(m[b] == w@[i as int] && b != e@[i as int]);
                            } else {
                                let j = choose|j: int| 0 <= j < i && e@[j] == b;
                                assert(key@[e@[j]] == w@[j]);
                                assert(w@[j] == w@[i as int] && e@[j] != e@[i as int]);
                            }
                            assert(!unifiable(encrypted_word@, word@, m));
                        }
                        return None;
                    },
                    None => {
                        key.bind(a, p);
                    },
                }
            },
        }
        i = i + 1;
    }
    proof {
        key.lemma_injective();
        assert forall|c: char| key@.contains_key(c) implies m.contains_key(c) || e@.contains(c) by {
            if !m.contains_key(c) {
                let j = choose|j: int| 0 <= j < e@.len() && e@[j] == c;
            }
        }
        assert forall|i: int, j: int| 0 <= i < e@.len() && 0 <= j < e@.len() implies (e@[i] == e@[j]
            <==> w@[i] == w@[j]) by {
            assert(key@.contains_key(e@[i]) && key@.contains_key(e@[j]));
        }
        assert forall|i: int, a: char| 0 <= i < e@.len() && m.contains_key(a) && m[a] == w@[i] implies a
            == e@[i] by {
            assert(key@.contains_key(e@[i]));
            assert(m.dom().contains(a) && key@.dom().contains(a) && key@[a] == m[a]);
        }
        prev_key.lemma_injective();
        lemma_unified(m, e@, w@);
        let u = unified(m, e@, w@);
        assert forall|c: char| key@.contains_key(c) <==> u.contains_key(c) by {
            if u.contains_key(c) && !m.contains_key(c) {
                let j = choose|j: int| 0 <= j < e@.len() && e@[j] == c;
                assert(key@.contains_key(e@[j]));
            }
            if m.contains_key(c) {
                assert(m.dom().contains(c) && key@.dom().contains(c));
            }
        }
        assert forall|c: char| key@.contains_key(c) implies key@[c] == u[c] by {
            if m.contains_key(c) {
                assert(m.dom().contains(c) && key@.dom().contains(c) && u.dom().contains(c));
            } else {
                let j = choose|j: int| 0 <= j < e@.len() && e@[j] == c;
                assert(key@[e@[j]] == w@[j]);
                assert(u[e@[j]] == w@[j]);
            }
        }
        assert(key@ =~= u);
    }
    Some(key)
}

} // verus!
