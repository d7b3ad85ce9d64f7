//! A small map from names to values, kept as a list of entries with
//! distinct names. Its view is a mathematical map.

use vstd::prelude::*;

verus! {

/// The map that a list of named values stands for when each entry is
/// written over what came before it: of two entries with one name the
/// later one counts.
pub open spec fn assoc<V>(pairs: Seq<(Seq<char>, V)>) -> Map<Seq<char>, V>
    decreases pairs.len(),
{
    if pairs.len() == 0 {
        Map::empty()
    } else {
        assoc(pairs.drop_last()).insert(pairs.last().0, pairs.last().1)
    }
}

/// No name occurs twice in the list.
pub open spec fn distinct_names<V>(pairs: Seq<(Seq<char>, V)>) -> bool {
    forall|i: int, j: int| 0 <= i < j < pairs.len() ==> pairs[i].0 != pairs[j].0
}

/// A name is in the map of a list exactly when some entry carries it, and
/// that map is finite.
pub proof fn lemma_assoc_names<V>(pairs: Seq<(Seq<char>, V)>)
    ensures
        assoc(pairs).dom().finite(),
        forall|k: Seq<char>| #[trigger]
            assoc(pairs).contains_key(k) <==> exists|i: int|
                0 <= i < pairs.len() && #[trigger] pairs[i].0 == k,
    decreases pairs.len(),
{
    if pairs.len() > 0 {
        let front = pairs.drop_last();
        lemma_assoc_names(front);
        assert forall|k: Seq<char>| #[trigger]
            assoc(pairs).contains_key(k) <==> exists|i: int|
                0 <= i < pairs.len() && #[trigger] pairs[i].0 == k by {
            if assoc(pairs).contains_key(k) {
                if k == pairs.last().0 {
                    assert(pairs[pairs.len() - 1].0 == k);
                } else {
                    assert(assoc(front).contains_key(k));
                    let i = choose|i: int| 0 <= i < front.len() && #[trigger] front[i].0 == k;
                    assert(pairs[i].0 == k);
                }
            }
            if exists|i: int| 0 <= i < pairs.len() && #[trigger] pairs[i].0 == k {
                let i = choose|i: int| 0 <= i < pairs.len() && #[trigger] pairs[i].0 == k;
                if i < pairs.len() - 1 {
                    assert(front[i].0 == k);
                }
            }
        }
    }
}

/// The value under a name is that of the last entry carrying the name.
pub proof fn lemma_assoc_last_wins<V>(pairs: Seq<(Seq<char>, V)>, i: int)
    requires
        0 <= i < pairs.len(),
        forall|j: int| i < j < pairs.len() ==> pairs[j].0 != pairs[i].0,
    ensures
        assoc(pairs).contains_key(pairs[i].0),
        assoc(pairs)[pairs[i].0] == pairs[i].1,
    decreases pairs.len(),
{
    if i < pairs.len() - 1 {
        let front = pairs.drop_last();
        assert(front[i] == pairs[i]);
        lemma_assoc_last_wins(front, i);
    }
}

/// A list without repeated names has as many entries as its map has names.
pub proof fn lemma_assoc_len<V>(pairs: Seq<(Seq<char>, V)>)
    requires
        distinct_names(pairs),
    ensures
        assoc(pairs).dom().finite(),
        assoc(pairs).dom().len() == pairs.len(),
    decreases pairs.len(),
{
    lemma_assoc_names(pairs);
    if pairs.len() > 0 {
        let front = pairs.drop_last();
        lemma_assoc_len(front);
        lemma_assoc_names(front);
        if assoc(front).contains_key(pairs.last().0) {
            let i = choose|i: int| 0 <= i < front.len() && #[trigger] front[i].0 == pairs.last().0;
            assert(pairs[i].0 == pairs[pairs.len() - 1].0);
        }
    }
}

/// Writing a new value at an entry of a list without repeated names is
/// inserting under that entry's name.
pub proof fn lemma_assoc_update<V>(pairs: Seq<(Seq<char>, V)>, i: int, value: V)
    requires
        0 <= i < pairs.len(),
        distinct_names(pairs),
    ensures
        assoc(pairs.update(i, (pairs[i].0, value))) == assoc(pairs).insert(pairs[i].0, value),
    decreases pairs.len(),
{
    let next = pairs.update(i, (pairs[i].0, value));
    let front = pairs.drop_last();
    if i == pairs.len() - 1 {
        assert(next.drop_last() == front);
        assert(assoc(next) == assoc(pairs).insert(pairs[i].0, value));
    } else {
        lemma_assoc_update(front, i, value);
        assert(next.drop_last() == front.update(i, (front[i].0, value)));
        assert(pairs[i].0 != pairs[pairs.len() - 1].0);
        assert(assoc(next) == assoc(pairs).insert(pairs[i].0, value));
    }
}

/// A list of entries as the contracts see it: each name by its characters,
/// each value as it is.
pub open spec fn entries_view<V>(entries: Seq<(String, V)>) -> Seq<(Seq<char>, V)> {
    entries.map_values(|e: (String, V)| (e.0@, e.1))
}

/// A map from names to values.
#[derive(Debug)]
pub struct Dict<V> {
    entries: Vec<(String, V)>,
}

impl<V> View for Dict<V> {
    type V = Map<Seq<char>, V>;

    closed spec fn view(&self) -> Map<Seq<char>, V> {
        assoc(self.pairs())
    }
}

impl<V> Dict<V> {
    /// The entries in the order in which their names were first inserted.
    pub closed spec fn pairs(&self) -> Seq<(Seq<char>, V)> {
        entries_view(self.entries@)
    }

    #[verifier::type_invariant]
    spec fn well_formed(&self) -> bool {
        distinct_names(self.pairs())
    }

    /// An empty map.
    pub fn new() -> (d: Self)
        ensures
            d@ == Map::<Seq<char>, V>::empty(),
    {
        let d = Dict { entries: Vec::new() };
        assert(d.pairs().len() == 0);
        d
    }

    /// The number of names.
    pub fn len(&self) -> (n: usize)
        ensures
            self@.dom().finite(),
            n == self@.dom().len(),
    {
        proof {
            use_type_invariant(self);
            lemma_assoc_len(self.pairs());
        }
        self.entries.len()
    }

    /// Whether the map holds no name at all.
    pub fn is_empty(&self) -> (b: bool)
        ensures
            b == (self@ == Map::<Seq<char>, V>::empty()),
    {
        proof {
            use_type_invariant(self);
            lemma_assoc_len(self.pairs());
            if self@ == Map::<Seq<char>, V>::empty() {
                assert(self@.dom() == Set::<Seq<char>>::empty());
            } else {
                assert(self.pairs().len() != 0);
            }
        }
        self.entries.len() == 0
    }

    fn position(&self, name: &str) -> (at: Option<usize>)
        ensures
            match at {
                Some(i) => i < self.pairs().len() && self.pairs()[i as int].0 == name@,
                None => !self@.contains_key(name@),
            },
            self.pairs().len() == self.entries.len(),
    {
        let wanted = name.to_owned();
        let mut i: usize = 0;
        while i < self.entries.len()
            invariant
                i <= self.entries.len(),
                wanted@ == name@,
                self.pairs().len() == self.entries.len(),
                forall|j: int| 0 <= j < i ==> self.pairs()[j].0 != name@,
            decreases self.entries.len() - i,
        {
            assert(self.pairs()[i as int].0 == self.entries[i as int].0@);
            if self.entries[i].0 == wanted {
                return Some(i);
            }
            i += 1;
        }
        proof {
            lemma_assoc_names(self.pairs());
        }
        None
    }

    /// The value under a name, if the map holds the name.
    pub fn get(&self, name: &str) -> (found: Option<&V>)
        ensures
            match found {
                Some(v) => self@.contains_key(name@) && *v == self@[name@],
                None => !self@.contains_key(name@),
            },
    {
        match self.position(name) {
            Some(i) => {
                proof {
                    use_type_invariant(self);
                    lemma_assoc_last_wins(self.pairs(), i as int);
                }
                Some(&self.entries[i].1)
            },
            None => None,
        }
    }

    /// Whether the map holds a name.
    pub fn contains_key(&self, name: &str) -> (b: bool)
        ensures
            b == self@.contains_key(name@),
    {
        self.get(name).is_some()
    }

    /// The names of the map, each once.
    pub fn names(&self) -> (names: Vec<String>)
        ensures
            names.len() == self@.dom().len(),
            forall|i: int| 0 <= i < names.len() ==> self@.contains_key(#[trigger] names[i]@),
            forall|i: int, j: int| 0 <= i < j < names.len() ==> names[i]@ != names[j]@,
            forall|name: Seq<char>|
                self@.contains_key(name) ==> exists|i: int|
                    0 <= i < names.len() && #[trigger] names[i]@ == name,
    {
        proof {
            use_type_invariant(self);
            lemma_assoc_len(self.pairs());
            lemma_assoc_names(self.pairs());
        }
        let mut names: Vec<String> = Vec::new();
        let mut i: usize = 0;
        while i < self.entries.len()
            invariant
                i <= self.entries.len(),
                self.pairs().len() == self.entries.len(),
                names.len() == i,
                forall|j: int| 0 <= j < i ==> #[trigger] names[j]@ == self.pairs()[j].0,
            decreases self.entries.len() - i,
        {
            assert(self.pairs()[i as int].0 == self.entries[i as int].0@);
            names.push(self.entries[i].0.clone());
            i += 1;
        }
        proof {
            let pairs = self.pairs();
            assert forall|j: int| 0 <= j < names.len() implies self@.contains_key(
                #[trigger] names[j]@,
            ) by {
                assert(pairs[j].0 == names[j]@);
            }
            assert forall|name: Seq<char>| self@.contains_key(name) implies exists|j: int|
                0 <= j < names.len() && #[trigger] names[j]@ == name by {
                let j = choose|j: int| 0 <= j < pairs.len() && #[trigger] pairs[j].0 == name;
                assert(names[j]@ == name);
            }
        }
        names
    }

    /// The entries of the map as a list in which no name occurs twice.
    pub fn into_entries(self) -> (entries: Vec<(String, V)>)
        ensures
            distinct_names(entries_view(entries@)),
            assoc(entries_view(entries@)) == self@,
    {
        proof {
            use_type_invariant(&self);
        }
        self.entries
    }

    /// This map with a value put under a name; a value already there is
    /// replaced.
    pub fn with(self, name: String, value: V) -> (d: Self)
        ensures
            d@ == self@.insert(name@, value),
    {
        proof {
            use_type_invariant(&self);
        }
        let at = self.position(name.as_str());
        let ghost before = self.pairs();
        let mut entries = self.entries;
        match at {
            Some(i) => {
                proof {
                    lemma_assoc_update(before, i as int, value);
                }
                entries.set(i, (name, value));
                let ghost after = entries_view(entries@);
                assert(after == before.update(i as int, (before[i as int].0, value)));
                assert(distinct_names(after));
                Dict { entries }
            },
            None => {
                proof {
                    lemma_assoc_names(before);
                }
                entries.push((name, value));
                let ghost after = entries_view(entries@);
                assert(after.drop_last() == before);
                assert(after.last().0 == name@);
                assert forall|i: int, j: int| 0 <= i < j < after.len() implies after[i].0
                    != after[j].0 by {
                    assert(after[i] == before[i]);
                    if j < before.len() {
                        assert(after[j] == before[j]);
                    }
                }
                Dict { entries }
            },
        }
    }

    /// Puts a value under a name; a value already there is replaced.
    pub fn insert(&mut self, name: String, value: V)
        ensures
            final(self)@ == old(self)@.insert(name@, value),
    {
        let mut taken = Dict::new();
        core::mem::swap(self, &mut taken);
        *self = taken.with(name, value);
    }
}

} // verus!
