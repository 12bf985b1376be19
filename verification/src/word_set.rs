//! A set of words, kept as a strictly ascending list.

use vstd::prelude::*;
use crate::order::{
    compare_words, lemma_word_lt_asymmetric, lemma_word_lt_total, lemma_word_lt_transitive,
    strictly_ascending, word_lt, Rank,
};

verus! {

/// The words that a list of strings spells, position by position.
pub open spec fn views_of(items: Seq<String>) -> Seq<Seq<char>> {
    Seq::new(items.len(), |i: int| items[i]@)
}

/// The set of words that occur in a list of strings.
pub open spec fn word_set_of(items: Seq<String>) -> Set<Seq<char>> {
    views_of(items).to_set()
}

/// `words` lists exactly the members of `set`, each once, in ascending order.
pub open spec fn lists_in_order(words: Seq<Seq<char>>, set: Set<Seq<char>>) -> bool {
    strictly_ascending(words) && words.to_set() == set
}

/// The members of a finite set of words in ascending byte-wise order.
pub open spec fn canonical_order(set: Set<Seq<char>>) -> Seq<Seq<char>> {
    choose|words: Seq<Seq<char>>| lists_in_order(words, set)
}

/// A set of words has at most one ascending listing.
pub proof fn lemma_ascending_listing_unique(a: Seq<Seq<char>>, b: Seq<Seq<char>>)
    requires
        strictly_ascending(a),
        strictly_ascending(b),
        a.to_set() == b.to_set(),
    ensures
        a == b,
    decreases a.len(),
{
    if a.len() == 0 {
        if b.len() > 0 {
            assert(b.to_set().contains(b[0]));
            assert(a.contains(b[0]));
        }
        assert(a =~= b);
    } else if b.len() == 0 {
        assert(a.to_set().contains(a[0]));
        assert(b.contains(a[0]));
    } else {
        assert(a.to_set().contains(a[0]));
        assert(b.contains(a[0]));
        let j = choose|j: int| 0 <= j < b.len() && b[j] == a[0];
        assert(b.to_set().contains(b[0]));
        assert(a.contains(b[0]));
        let i = choose|i: int| 0 <= i < a.len() && a[i] == b[0];
        if i > 0 {
            lemma_word_lt_asymmetric(a[0], a[i]);
        }
        if j > 0 {
            lemma_word_lt_asymmetric(b[0], b[j]);
        }
        assert(a[0] == b[0]);
        let ta = a.drop_first();
        let tb = b.drop_first();
        assert forall|x: Seq<char>| ta.to_set().contains(x) == tb.to_set().contains(x) by {
            if ta.contains(x) {
                let p = choose|p: int| 0 <= p < ta.len() && ta[p] == x;
                assert(a[p + 1] == x);
                lemma_word_lt_asymmetric(a[0], a[p + 1]);
                assert(a.to_set().contains(x));
                assert(b.contains(x));
                let q = choose|q: int| 0 <= q < b.len() && b[q] == x;
                assert(tb[q - 1] == x);
            }
            if tb.contains(x) {
                let p = choose|p: int| 0 <= p < tb.len() && tb[p] == x;
                assert(b[p + 1] == x);
                lemma_word_lt_asymmetric(b[0], b[p + 1]);
                assert(b.to_set().contains(x));
                assert(a.contains(x));
                let q = choose|q: int| 0 <= q < a.len() && a[q] == x;
                assert(ta[q - 1] == x);
            }
        }
        assert(ta.to_set() =~= tb.to_set());
        assert forall|p: int, q: int| 0 <= p < q < ta.len() implies word_lt(
            #[trigger] ta[p],
            #[trigger] ta[q],
        ) by {
            assert(word_lt(a[p + 1], a[q + 1]));
        }
        assert forall|p: int, q: int| 0 <= p < q < tb.len() implies word_lt(
            #[trigger] tb[p],
            #[trigger] tb[q],
        ) by {
            assert(word_lt(b[p + 1], b[q + 1]));
        }
        lemma_ascending_listing_unique(ta, tb);
        assert(a =~= seq![a[0]] + ta);
        assert(b =~= seq![b[0]] + tb);
    }
}

/// An ascending listing holds no word twice.
pub proof fn lemma_ascending_has_no_duplicates(words: Seq<Seq<char>>)
    requires
        strictly_ascending(words),
    ensures
        words.no_duplicates(),
{
    assert forall|i: int, j: int|
        0 <= i < words.len() && 0 <= j < words.len() && i != j implies words[i] != words[j] by {
        if i < j {
            lemma_word_lt_asymmetric(words[i], words[j]);
        } else {
            lemma_word_lt_asymmetric(words[j], words[i]);
        }
    }
}

/// An ascending listing of a set is its canonical order.
pub proof fn lemma_listing_is_canonical(words: Seq<Seq<char>>, set: Set<Seq<char>>)
    requires
        lists_in_order(words, set),
    ensures
        canonical_order(set) == words,
{
    lemma_ascending_listing_unique(canonical_order(set), words);
}

/// `words` with `word` put in at its place, if it is not there already.
pub open spec fn insert_in_order(words: Seq<Seq<char>>, word: Seq<char>) -> Seq<Seq<char>>
    decreases words.len(),
{
    if words.len() == 0 || word_lt(words.last(), word) {
        words.push(word)
    } else if words.last() == word {
        words
    } else {
        insert_in_order(words.drop_last(), word).push(words.last())
    }
}

/// Putting a word in at its place keeps an ascending listing ascending, and
/// adds the word to what it lists.
pub proof fn lemma_insert_in_order(words: Seq<Seq<char>>, word: Seq<char>)
    requires
        strictly_ascending(words),
    ensures
        strictly_ascending(insert_in_order(words, word)),
        insert_in_order(words, word).to_set() == words.to_set().insert(word),
    decreases words.len(),
{
    let result = insert_in_order(words, word);
    if words.len() == 0 || word_lt(words.last(), word) {
        words.lemma_push_to_set_commute(word);
        assert forall|i: int, j: int| 0 <= i < j < result.len() implies word_lt(
            #[trigger] result[i],
            #[trigger] result[j],
        ) by {
            if j == words.len() && i < words.len() - 1 {
                lemma_word_lt_transitive(words[i], words.last(), word);
            }
        }
    } else if words.last() == word {
        assert(words.to_set().contains(word));
        assert(words.to_set().insert(word) =~= words.to_set());
    } else {
        let head = words.drop_last();
        let last = words.last();
        let placed = insert_in_order(head, word);
        lemma_word_lt_total(last, word);
        assert(word_lt(word, last));
        assert forall|i: int, j: int| 0 <= i < j < head.len() implies word_lt(
            #[trigger] head[i],
            #[trigger] head[j],
        ) by {
            assert(word_lt(words[i], words[j]));
        }
        lemma_insert_in_order(head, word);
        placed.lemma_push_to_set_commute(last);
        head.lemma_push_to_set_commute(last);
        assert(words =~= head.push(last));
        assert(result.to_set() =~= words.to_set().insert(word));
        assert forall|i: int, j: int| 0 <= i < j < result.len() implies word_lt(
            #[trigger] result[i],
            #[trigger] result[j],
        ) by {
            if j == placed.len() {
                assert(placed.to_set().contains(placed[i]));
                if placed[i] != word {
                    assert(head.contains(placed[i]));
                    let p = choose|p: int| 0 <= p < head.len() && head[p] == placed[i];
                    assert(word_lt(words[p], words[words.len() - 1]));
                }
            }
        }
    }
}

/// Every finite set of words has an ascending listing, so that its
/// canonical order lists exactly its members.
pub proof fn lemma_canonical_order_lists(set: Set<Seq<char>>)
    requires
        set.finite(),
    ensures
        lists_in_order(canonical_order(set), set),
    decreases set.len(),
{
    if set.len() == 0 {
        let none = Seq::<Seq<char>>::empty();
        assert(none.to_set() =~= set);
        assert(lists_in_order(none, set));
    } else {
        let word = set.choose();
        let rest = set.remove(word);
        lemma_canonical_order_lists(rest);
        let listed = canonical_order(rest);
        lemma_insert_in_order(listed, word);
        assert(rest.insert(word) =~= set);
        assert(lists_in_order(insert_in_order(listed, word), set));
    }
}

/// A finite set of words. No word occurs twice, and the words are held in
/// ascending byte-wise order, which is the order in which they are written
/// out and hashed.
#[derive(Debug)]
pub struct WordSet {
    items: Vec<String>,
}

impl View for WordSet {
    type V = Set<Seq<char>>;

    open spec fn view(&self) -> Set<Seq<char>> {
        self.ordered().to_set()
    }
}

impl WordSet {
    #[verifier::type_invariant]
    spec fn ascending(&self) -> bool {
        strictly_ascending(views_of(self.items@))
    }

    /// The words of the set as they are stored.
    pub closed spec fn ordered(&self) -> Seq<Seq<char>> {
        views_of(self.items@)
    }

    /// The empty set.
    pub fn new() -> (set: WordSet)
        ensures
            set@ == Set::<Seq<char>>::empty(),
            set.ordered() == Seq::<Seq<char>>::empty(),
    {
        let set = WordSet { items: Vec::new() };
        assert(set.ordered() =~= Seq::<Seq<char>>::empty());
        assert(set@ =~= Set::<Seq<char>>::empty());
        set
    }

    /// The words of the set in ascending order.
    pub fn words(&self) -> (items: &Vec<String>)
        ensures
            views_of(items@) == self.ordered(),
            views_of(items@) == canonical_order(self@),
            strictly_ascending(views_of(items@)),
    {
        proof {
            use_type_invariant(self);
            lemma_listing_is_canonical(self.ordered(), self@);
        }
        &self.items
    }

    /// The number of words in the set.
    pub fn len(&self) -> (n: usize)
        ensures
            n == self@.len(),
            n == canonical_order(self@).len(),
    {
        proof {
            use_type_invariant(self);
            lemma_listing_is_canonical(self.ordered(), self@);
            lemma_ascending_has_no_duplicates(self.ordered());
            self.ordered().unique_seq_to_set();
        }
        self.items.len()
    }

    /// Where `word` stands among the stored words: its index and `true` if it
    /// is a member, else the index at which it would have to be put in.
    fn position(&self, word: &str) -> (at: (usize, bool))
        ensures
            at.0 <= self.ordered().len(),
            forall|i: int| 0 <= i < at.0 ==> word_lt(#[trigger] self.ordered()[i], word@),
            at.1 ==> at.0 < self.ordered().len() && self.ordered()[at.0 as int] == word@,
            !at.1 ==> forall|i: int|
                at.0 <= i < self.ordered().len() ==> word_lt(word@, #[trigger] self.ordered()[i]),
            at.1 == self@.contains(word@),
    {
        proof {
            use_type_invariant(self);
        }
        let ghost listed = self.ordered();
        let mut low: usize = 0;
        let mut high: usize = self.items.len();
        let mut found = false;
        while !found && low < high
            invariant
                listed == views_of(self.items@),
                strictly_ascending(listed),
                low <= high <= listed.len(),
                forall|i: int| 0 <= i < low ==> word_lt(#[trigger] listed[i], word@),
                !found ==> forall|i: int|
                    high <= i < listed.len() ==> word_lt(word@, #[trigger] listed[i]),
                found ==> low < listed.len() && listed[low as int] == word@,
            decreases high - low + (if found { 0int } else { 1int }),
        {
            let middle: usize = low + (high - low) / 2;
            match compare_words(self.items[middle].as_str(), word) {
                Rank::Before => {
                    assert(word_lt(listed[middle as int], word@));
                    assert forall|i: int| 0 <= i < middle + 1 implies word_lt(
                        #[trigger] listed[i],
                        word@,
                    ) by {
                        if i < middle {
                            lemma_word_lt_transitive(listed[i], listed[middle as int], word@);
                        }
                    }
                    low = middle + 1;
                },
                Rank::After => {
                    assert(word_lt(word@, listed[middle as int]));
                    assert forall|i: int| middle <= i < listed.len() implies word_lt(
                        word@,
                        #[trigger] listed[i],
                    ) by {
                        if middle < i {
                            lemma_word_lt_transitive(word@, listed[middle as int], listed[i]);
                        }
                    }
                    high = middle;
                },
                Rank::Same => {
                    assert(listed[middle as int] == word@);
                    assert forall|i: int| 0 <= i < middle implies word_lt(
                        #[trigger] listed[i],
                        word@,
                    ) by {
                        assert(word_lt(listed[i], listed[middle as int]));
                    }
                    low = middle;
                    found = true;
                },
            }
        }
        proof {
            if found {
                assert(listed.contains(word@));
            } else {
                if listed.contains(word@) {
                    let i = choose|i: int| 0 <= i < listed.len() && listed[i] == word@;
                    if i < low {
                        lemma_word_lt_asymmetric(listed[i], word@);
                    } else {
                        lemma_word_lt_asymmetric(word@, listed[i]);
                    }
                }
            }
        }
        (low, found)
    }

    /// Whether `word` is a member of the set.
    pub fn contains(&self, word: &str) -> (member: bool)
        ensures
            member == self@.contains(word@),
    {
        self.position(word).1
    }

    /// The set with `word` added to it.
    pub fn with(self, word: String) -> (set: WordSet)
        ensures
            set@ == self@.insert(word@),
    {
        proof {
            use_type_invariant(&self);
        }
        let at = self.position(word.as_str());
        if at.1 {
            assert(self@.insert(word@) =~= self@);
            self
        } else {
            let ghost before = self.ordered();
            let ghost added = word@;
            let mut items = self.items;
            items.insert(at.0, word);
            let ghost after = views_of(items@);
            proof {
                assert(after =~= before.insert(at.0 as int, added));
                assert forall|i: int, j: int| 0 <= i < j < after.len() implies word_lt(
                    #[trigger] after[i],
                    #[trigger] after[j],
                ) by {
                    if j < at.0 {
                        assert(word_lt(before[i], before[j]));
                    } else if j == at.0 {
                        assert(word_lt(before[i], added));
                    } else if i < at.0 {
                        assert(word_lt(before[i], before[j - 1]));
                    } else if i == at.0 {
                        assert(word_lt(added, before[j - 1]));
                    } else {
                        assert(word_lt(before[i - 1], before[j - 1]));
                    }
                }
                assert forall|x: Seq<char>| after.to_set().contains(x) == before.to_set().insert(
                    added,
                ).contains(x) by {
                    if after.contains(x) {
                        let p = choose|p: int| 0 <= p < after.len() && after[p] == x;
                        if p < at.0 {
                            assert(before[p] == x);
                        } else if p > at.0 {
                            assert(before[p - 1] == x);
                        }
                    }
                    if before.contains(x) {
                        let p = choose|p: int| 0 <= p < before.len() && before[p] == x;
                        if p < at.0 {
                            assert(after[p] == x);
                        } else {
                            assert(after[p + 1] == x);
                        }
                    }
                    if x == added {
                        assert(after[at.0 as int] == x);
                    }
                }
                assert(after.to_set() =~= before.to_set().insert(added));
            }
            WordSet { items }
        }
    }

    /// The set of the words in a list, whatever their order and however
    /// often each of them occurs.
    pub fn from_vec(words: Vec<String>) -> (set: WordSet)
        ensures
            set@ == word_set_of(words@),
    {
        let ghost listed = views_of(words@);
        let mut set = WordSet::new();
        let mut i: usize = 0;
        assert(listed.take(0) =~= Seq::<Seq<char>>::empty());
        while i < words.len()
            invariant
                i <= words.len(),
                listed == views_of(words@),
                set@ == listed.take(i as int).to_set(),
            decreases words.len() - i,
        {
            let word = words[i].clone();
            proof {
                listed.take(i as int).lemma_push_to_set_commute(listed[i as int]);
                assert(listed.take(i + 1) =~= listed.take(i as int).push(listed[i as int]));
            }
            set = set.with(word);
            i += 1;
        }
        assert(listed.take(words.len() as int) =~= listed);
        set
    }

    /// The words that are in `self`, in `other`, or in both.
    pub fn union(&self, other: &WordSet) -> (set: WordSet)
        ensures
            set@ == self@.union(other@),
    {
        proof {
            use_type_invariant(self);
            use_type_invariant(other);
        }
        let ghost a = self.ordered();
        let ghost b = other.ordered();
        let mut items: Vec<String> = Vec::new();
        let mut i: usize = 0;
        let mut j: usize = 0;
        assert(a.take(0) =~= Seq::<Seq<char>>::empty());
        assert(b.take(0) =~= Seq::<Seq<char>>::empty());
        assert(views_of(items@).to_set() =~= a.take(0).to_set().union(b.take(0).to_set()));
        while i < self.items.len() || j < other.items.len()
            invariant
                a == views_of(self.items@),
                b == views_of(other.items@),
                strictly_ascending(a),
                strictly_ascending(b),
                i <= a.len(),
                j <= b.len(),
                strictly_ascending(views_of(items@)),
                forall|k: int, p: int|
                    0 <= k < items@.len() && i <= p < a.len() ==> word_lt(
                        #[trigger] views_of(items@)[k],
                        #[trigger] a[p],
                    ),
                forall|k: int, q: int|
                    0 <= k < items@.len() && j <= q < b.len() ==> word_lt(
                        #[trigger] views_of(items@)[k],
                        #[trigger] b[q],
                    ),
                views_of(items@).to_set() == a.take(i as int).to_set().union(
                    b.take(j as int).to_set(),
                ),
            decreases (a.len() - i) + (b.len() - j),
        {
            let ghost merged = views_of(items@);
            let rank = if i == self.items.len() {
                Rank::After
            } else if j == other.items.len() {
                Rank::Before
            } else {
                compare_words(self.items[i].as_str(), other.items[j].as_str())
            };
            match rank {
                Rank::Before => {
                    let word = self.items[i].clone();
                    items.push(word);
                    proof {
                        let next = a[i as int];
                        assert(views_of(items@) =~= merged.push(next));
                        merged.lemma_push_to_set_commute(next);
                        a.take(i as int).lemma_push_to_set_commute(next);
                        assert(a.take(i + 1) =~= a.take(i as int).push(next));
                        assert(views_of(items@).to_set() =~= a.take(i + 1).to_set().union(
                            b.take(j as int).to_set(),
                        ));
                        assert forall|q: int| j <= q < b.len() implies word_lt(
                            next,
                            #[trigger] b[q],
                        ) by {
                            if j < q {
                                lemma_word_lt_transitive(next, b[j as int], b[q]);
                            }
                        }
                    }
                    i += 1;
                },
                Rank::After => {
                    let word = other.items[j].clone();
                    items.push(word);
                    proof {
                        let next = b[j as int];
                        assert(views_of(items@) =~= merged.push(next));
                        merged.lemma_push_to_set_commute(next);
                        b.take(j as int).lemma_push_to_set_commute(next);
                        assert(b.take(j + 1) =~= b.take(j as int).push(next));
                        assert(views_of(items@).to_set() =~= a.take(i as int).to_set().union(
                            b.take(j + 1).to_set(),
                        ));
                        assert forall|p: int| i <= p < a.len() implies word_lt(
                            next,
                            #[trigger] a[p],
                        ) by {
                            if i < p {
                                lemma_word_lt_transitive(next, a[i as int], a[p]);
                            }
                        }
                    }
                    j += 1;
                },
                Rank::Same => {
                    let word = self.items[i].clone();
                    items.push(word);
                    proof {
                        let next = a[i as int];
                        assert(next == b[j as int]);
                        assert(views_of(items@) =~= merged.push(next));
                        merged.lemma_push_to_set_commute(next);
                        a.take(i as int).lemma_push_to_set_commute(next);
                        b.take(j as int).lemma_push_to_set_commute(next);
                        assert(a.take(i + 1) =~= a.take(i as int).push(next));
                        assert(b.take(j + 1) =~= b.take(j as int).push(next));
                        assert(views_of(items@).to_set() =~= a.take(i + 1).to_set().union(
                            b.take(j + 1).to_set(),
                        ));
                    }
                    i += 1;
                    j += 1;
                },
            }
        }
        assert(a.take(a.len() as int) =~= a);
        assert(b.take(b.len() as int) =~= b);
        WordSet { items }
    }

    /// The words of `self` that are not in `other`.
    pub fn difference(&self, other: &WordSet) -> (set: WordSet)
        ensures
            set@ == self@.difference(other@),
    {
        proof {
            use_type_invariant(self);
        }
        let ghost a = self.ordered();
        let mut items: Vec<String> = Vec::new();
        let mut i: usize = 0;
        assert(a.take(0) =~= Seq::<Seq<char>>::empty());
        assert(views_of(items@).to_set() =~= a.take(0).to_set().difference(other@));
        while i < self.items.len()
            invariant
                a == views_of(self.items@),
                strictly_ascending(a),
                i <= a.len(),
                strictly_ascending(views_of(items@)),
                forall|k: int, p: int|
                    0 <= k < items@.len() && i <= p < a.len() ==> word_lt(
                        #[trigger] views_of(items@)[k],
                        #[trigger] a[p],
                    ),
                views_of(items@).to_set() == a.take(i as int).to_set().difference(other@),
            decreases a.len() - i,
        {
            let ghost kept = views_of(items@);
            let ghost next = a[i as int];
            proof {
                a.take(i as int).lemma_push_to_set_commute(next);
                assert(a.take(i + 1) =~= a.take(i as int).push(next));
            }
            if other.contains(self.items[i].as_str()) {
                assert(kept.to_set() =~= a.take(i + 1).to_set().difference(other@));
            } else {
                let word = self.items[i].clone();
                items.push(word);
                proof {
                    assert(views_of(items@) =~= kept.push(next));
                    kept.lemma_push_to_set_commute(next);
                    assert(views_of(items@).to_set() =~= a.take(i + 1).to_set().difference(
                        other@,
                    ));
                }
            }
            i += 1;
        }
        assert(a.take(a.len() as int) =~= a);
        WordSet { items }
    }
}

impl Clone for WordSet {
    fn clone(&self) -> (copy: Self)
        ensures
            copy@ == self@,
            copy.ordered() == self.ordered(),
    {
        proof {
            use_type_invariant(self);
        }
        let mut items: Vec<String> = Vec::new();
        let mut i: usize = 0;
        while i < self.items.len()
            invariant
                i <= self.items.len(),
                views_of(items@) == views_of(self.items@).take(i as int),
            decreases self.items.len() - i,
        {
            let ghost copied = views_of(items@);
            let word = self.items[i].clone();
            items.push(word);
            assert(views_of(items@) =~= copied.push(views_of(self.items@)[i as int]));
            assert(views_of(items@) =~= views_of(self.items@).take(i + 1));
            i += 1;
        }
        assert(views_of(self.items@).take(self.items.len() as int) =~= views_of(self.items@));
        WordSet { items }
    }
}

} // verus!
