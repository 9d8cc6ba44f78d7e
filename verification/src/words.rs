//! A set of words held in a `hashbrown` hash set.

use vstd::prelude::*;

verus! {

/// A set of words, held in a `hashbrown::HashSet<String>`.
///
/// The hash set is kept in a private field that Verus does not read; what it
/// holds is given by [`word_set_contents`], and each operation on it is a
/// trusted wrapper whose contract is stated over that name.
#[verifier::external_body]
pub struct WordSet {
    words: hashbrown::HashSet<String>,
}

/// The words that a [`WordSet`] holds, each by its characters.
pub uninterp spec fn word_set_contents(set: WordSet) -> Set<Seq<char>>;

impl WordSet {
    /// The words that this set holds.
    pub open spec fn contents(self) -> Set<Seq<char>> {
        word_set_contents(self)
    }

    /// An empty set.
    ///
    /// Trusted: calls `hashbrown::HashSet::new`, which creates an empty set;
    /// the contract claims that the set holds no word.
    #[verifier::external_body]
    pub(crate) fn new() -> (res: WordSet)
        ensures
            word_set_contents(res) == Set::<Seq<char>>::empty(),
    {
        WordSet { words: hashbrown::HashSet::new() }
    }

    /// Adds a word to the set.
    ///
    /// Trusted: calls `hashbrown::HashSet::insert`, which adds the value to
    /// the set (and leaves the set as it was when an equal value is already
    /// there); the contract claims that the set afterwards holds exactly the
    /// words it held before and `word`. Two `String`s are equal exactly when
    /// their characters are.
    #[verifier::external_body]
    pub(crate) fn insert(&mut self, word: String)
        ensures
            word_set_contents(*final(self)) == word_set_contents(*old(self)).insert(word@),
    {
        self.words.insert(word);
    }

    /// Whether the set holds `word`.
    ///
    /// Trusted: calls `hashbrown::HashSet::contains` with a `&str`, which
    /// finds a `String` equal to it through `Borrow<str>`; the contract claims
    /// that the answer is whether the set holds a word with the same
    /// characters.
    #[verifier::external_body]
    pub(crate) fn contains(&self, word: &str) -> (res: bool)
        ensures
            res == word_set_contents(*self).contains(word@),
    {
        self.words.contains(word)
    }
}

impl Clone for WordSet {
    /// A copy of the set, holding the same words.
    ///
    /// Trusted: calls `hashbrown::HashSet::clone`, which clones each element
    /// into a new set; the contract claims that the copy holds the same words.
    #[verifier::external_body]
    fn clone(&self) -> (res: Self)
        ensures
            word_set_contents(res) == word_set_contents(*self),
    {
        WordSet { words: self.words.clone() }
    }
}

/// The set of the words of `words`, each by its characters.
pub open spec fn word_views(words: Seq<String>) -> Set<Seq<char>> {
    words.map_values(|w: String| w@).to_set()
}

/// The set holding exactly the words of `words`.
pub fn word_set_from(words: Vec<String>) -> (res: WordSet)
    ensures
        res.contents() == word_views(words@),
{
    let mut set = WordSet::new();
    let n = words.len();
    for i in 0..n
        invariant
            n == words@.len(),
            set.contents() == word_views(words@.take(i as int)),
    {
        let w = words[i].clone();
        set.insert(w);
        proof {
            let before = words@.take(i as int);
            assert(words@.take(i + 1) == before.push(words@[i as int]));
            assert(before.push(words@[i as int]).map_values(|w: String| w@)
                == before.map_values(|w: String| w@).push(words@[i as int]@));
            before.map_values(|w: String| w@).lemma_push_to_set_commute(words@[i as int]@);
        }
    }
    assert(words@.take(n as int) == words@);
    set
}

} // verus!
