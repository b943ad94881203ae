use vstd::prelude::*;

verus! {

/// Whether two positions of a sequence of pairs hold the same key.
pub open spec fn keys_distinct(pairs: Seq<(String, String)>) -> bool {
    forall|i: int, j: int|
        0 <= i < pairs.len() && 0 <= j < pairs.len() && i != j ==> (#[trigger] pairs[i]).0@
            != (#[trigger] pairs[j]).0@
}

/// Whether some position of `pairs` holds the key `k`.
pub open spec fn holds_key(pairs: Seq<(String, String)>, k: Seq<char>) -> bool {
    exists|i: int| 0 <= i < pairs.len() && (#[trigger] pairs[i]).0@ == k
}

/// The map from key to value that a sequence of pairs with distinct keys stands for.
pub open spec fn pairs_map(pairs: Seq<(String, String)>) -> Map<Seq<char>, Seq<char>> {
    Map::new(
        |k: Seq<char>| holds_key(pairs, k),
        |k: Seq<char>| pairs[choose|i: int| 0 <= i < pairs.len() && (#[trigger] pairs[i]).0@ == k].1@,
    )
}

/// The key-value state machine of a node: string keys mapped to string values.
///
/// Each key is held at most once.
pub struct KvStore {
    entries: Vec<(String, String)>,
}

impl View for KvStore {
    type V = Map<Seq<char>, Seq<char>>;

    closed spec fn view(&self) -> Map<Seq<char>, Seq<char>> {
        pairs_map(self.entries@)
    }
}

proof fn lemma_pairs_map_at(pairs: Seq<(String, String)>, i: int)
    requires
        keys_distinct(pairs),
        0 <= i < pairs.len(),
    ensures
        pairs_map(pairs).contains_key(pairs[i].0@),
        pairs_map(pairs)[pairs[i].0@] == pairs[i].1@,
{
    let k = pairs[i].0@;
    assert(holds_key(pairs, k));
    let j = choose|j: int| 0 <= j < pairs.len() && (#[trigger] pairs[j]).0@ == k;
    assert(j == i);
}

proof fn lemma_pairs_map_push(pairs: Seq<(String, String)>, k: String, v: String)
    requires
        keys_distinct(pairs),
        !holds_key(pairs, k@),
    ensures
        keys_distinct(pairs.push((k, v))),
        pairs_map(pairs.push((k, v))) =~= pairs_map(pairs).insert(k@, v@),
{
    let p2 = pairs.push((k, v));
    assert forall|i: int, j: int|
        0 <= i < p2.len() && 0 <= j < p2.len() && i != j implies (#[trigger] p2[i]).0@
        != (#[trigger] p2[j]).0@ by {
        if i < pairs.len() && j < pairs.len() {
            assert(p2[i] == pairs[i] && p2[j] == pairs[j]);
        } else if i < pairs.len() {
            assert(p2[i] == pairs[i]);
        } else {
            assert(p2[j] == pairs[j]);
        }
    }
    assert forall|key: Seq<char>| #[trigger]
        pairs_map(p2).contains_key(key) == pairs_map(pairs).insert(k@, v@).contains_key(key) by {
        if holds_key(p2, key) && key != k@ {
            let i = choose|i: int| 0 <= i < p2.len() && (#[trigger] p2[i]).0@ == key;
            assert(p2[i] == pairs[i]);
            assert(holds_key(pairs, key));
        }
        if holds_key(pairs, key) {
            let i = choose|i: int| 0 <= i < pairs.len() && (#[trigger] pairs[i]).0@ == key;
            assert(p2[i] == pairs[i]);
        }
        if key == k@ {
            assert(p2[pairs.len() as int].0@ == key);
        }
    }
    assert forall|key: Seq<char>| #[trigger] pairs_map(p2).contains_key(key) implies pairs_map(
        p2,
    )[key] == pairs_map(pairs).insert(k@, v@)[key] by {
        let i = choose|i: int| 0 <= i < p2.len() && (#[trigger] p2[i]).0@ == key;
        lemma_pairs_map_at(p2, i);
        if i < pairs.len() {
            assert(p2[i] == pairs[i]);
            lemma_pairs_map_at(pairs, i);
        }
    }
}

proof fn lemma_pairs_map_update(pairs: Seq<(String, String)>, i: int, v: String)
    requires
        keys_distinct(pairs),
        0 <= i < pairs.len(),
    ensures
        keys_distinct(pairs.update(i, (pairs[i].0, v))),
        pairs_map(pairs.update(i, (pairs[i].0, v))) =~= pairs_map(pairs).insert(pairs[i].0@, v@),
{
    let k = pairs[i].0;
    let p2 = pairs.update(i, (k, v));
    assert forall|a: int, b: int|
        0 <= a < p2.len() && 0 <= b < p2.len() && a != b implies (#[trigger] p2[a]).0@
        != (#[trigger] p2[b]).0@ by {
        assert(p2[a].0 == pairs[a].0 && p2[b].0 == pairs[b].0);
    }
    assert forall|key: Seq<char>| #[trigger]
        pairs_map(p2).contains_key(key) == pairs_map(pairs).insert(k@, v@).contains_key(key) by {
        if holds_key(p2, key) {
            let a = choose|a: int| 0 <= a < p2.len() && (#[trigger] p2[a]).0@ == key;
            assert(pairs[a].0@ == key);
        }
        if holds_key(pairs, key) {
            let a = choose|a: int| 0 <= a < pairs.len() && (#[trigger] pairs[a]).0@ == key;
            assert(p2[a].0@ == key);
        }
        if key == k@ {
            assert(p2[i].0@ == key);
        }
    }
    assert forall|key: Seq<char>| #[trigger] pairs_map(p2).contains_key(key) implies pairs_map(
        p2,
    )[key] == pairs_map(pairs).insert(k@, v@)[key] by {
        let a = choose|a: int| 0 <= a < p2.len() && (#[trigger] p2[a]).0@ == key;
        lemma_pairs_map_at(p2, a);
        if a != i {
            lemma_pairs_map_at(pairs, a);
        }
    }
}

proof fn lemma_pairs_map_remove(pairs: Seq<(String, String)>, i: int)
    requires
        keys_distinct(pairs),
        0 <= i < pairs.len(),
    ensures
        keys_distinct(pairs.remove(i)),
        pairs_map(pairs.remove(i)) =~= pairs_map(pairs).remove(pairs[i].0@),
{
    let k = pairs[i].0@;
    let p2 = pairs.remove(i);
    assert forall|a: int, b: int|
        0 <= a < p2.len() && 0 <= b < p2.len() && a != b implies (#[trigger] p2[a]).0@
        != (#[trigger] p2[b]).0@ by {
        let a0 = if a < i { a } else { a + 1 };
        let b0 = if b < i { b } else { b + 1 };
        assert(p2[a] == pairs[a0] && p2[b] == pairs[b0]);
    }
    assert forall|key: Seq<char>| #[trigger]
        pairs_map(p2).contains_key(key) == pairs_map(pairs).remove(k).contains_key(key) by {
        if holds_key(p2, key) {
            let a = choose|a: int| 0 <= a < p2.len() && (#[trigger] p2[a]).0@ == key;
            let a0 = if a < i { a } else { a + 1 };
            assert(p2[a] == pairs[a0]);
            assert(pairs[a0].0@ == key);
        }
        if holds_key(pairs, key) && key != k {
            let a = choose|a: int| 0 <= a < pairs.len() && (#[trigger] pairs[a]).0@ == key;
            let a2 = if a < i { a } else { a - 1 };
            assert(p2[a2] == pairs[a]);
        }
    }
    assert forall|key: Seq<char>| #[trigger] pairs_map(p2).contains_key(key) implies pairs_map(
        p2,
    )[key] == pairs_map(pairs).remove(k)[key] by {
        let a = choose|a: int| 0 <= a < p2.len() && (#[trigger] p2[a]).0@ == key;
        let a0 = if a < i { a } else { a + 1 };
        assert(p2[a] == pairs[a0]);
        lemma_pairs_map_at(p2, a);
        lemma_pairs_map_at(pairs, a0);
    }
}

impl KvStore {
    #[verifier::type_invariant]
    spec fn distinct_keys(self) -> bool {
        keys_distinct(self.entries@)
    }

    /// An empty store.
    pub fn new() -> (store: Self)
        ensures
            store@ == Map::<Seq<char>, Seq<char>>::empty(),
    {
        let store = KvStore { entries: Vec::new() };
        assert(store@ =~= Map::<Seq<char>, Seq<char>>::empty());
        store
    }

    /// Position of `key` in the store, if it is held.
    fn position(&self, key: &String) -> (pos: Option<usize>)
        ensures
            match pos {
                Some(i) => i < self.entries@.len() && self.entries@[i as int].0@ == key@,
                None => !holds_key(self.entries@, key@),
            },
    {
        let mut i: usize = 0;
        while i < self.entries.len()
            invariant
                i <= self.entries@.len(),
                forall|j: int| 0 <= j < i ==> (#[trigger] self.entries@[j]).0@ != key@,
            decreases self.entries@.len() - i,
        {
            if self.entries[i].0 == *key {
                return Some(i);
            }
            i = i + 1;
        }
        None
    }

    /// The value stored under `key`, if any.
    pub fn get(&self, key: &String) -> (value: Option<String>)
        ensures
            match value {
                Some(v) => self@.contains_key(key@) && v@ == self@[key@],
                None => !self@.contains_key(key@),
            },
    {
        proof {
            use_type_invariant(self);
        }
        match self.position(key) {
            Some(i) => {
                proof {
                    lemma_pairs_map_at(self.entries@, i as int);
                }
                Some(self.entries[i].1.clone())
            },
            None => None,
        }
    }

    /// Whether `key` is stored.
    pub fn contains_key(&self, key: &String) -> (b: bool)
        ensures
            b == self@.contains_key(key@),
    {
        proof {
            use_type_invariant(self);
        }
        match self.position(key) {
            Some(i) => {
                proof {
                    lemma_pairs_map_at(self.entries@, i as int);
                }
                true
            },
            None => false,
        }
    }

    /// Stores `value` under `key`; gives back the value it replaces.
    pub fn insert(&mut self, key: String, value: String) -> (previous: Option<String>)
        ensures
            final(self)@ == old(self)@.insert(key@, value@),
            match previous {
                Some(v) => old(self)@.contains_key(key@) && v@ == old(self)@[key@],
                None => !old(self)@.contains_key(key@),
            },
    {
        proof {
            use_type_invariant(&*self);
        }
        match self.position(&key) {
            Some(i) => {
                let ghost old_entries = self.entries@;
                proof {
                    lemma_pairs_map_at(old_entries, i as int);
                    lemma_pairs_map_update(old_entries, i as int, value);
                }
                let k = self.entries[i].0.clone();
                let prev = self.entries[i].1.clone();
                let mut entries: Vec<(String, String)> = Vec::new();
                std::mem::swap(&mut entries, &mut self.entries);
                entries.set(i, (k, value));
                assert(entries@ =~= old_entries.update(i as int, (old_entries[i as int].0, value)));
                self.entries = entries;
                Some(prev)
            },
            None => {
                proof {
                    lemma_pairs_map_push(self.entries@, key, value);
                }
                let mut entries: Vec<(String, String)> = Vec::new();
                std::mem::swap(&mut entries, &mut self.entries);
                entries.push((key, value));
                self.entries = entries;
                None
            },
        }
    }

    /// Removes `key`; gives back the value it held.
    pub fn remove(&mut self, key: &String) -> (previous: Option<String>)
        ensures
            final(self)@ == old(self)@.remove(key@),
            match previous {
                Some(v) => old(self)@.contains_key(key@) && v@ == old(self)@[key@],
                None => !old(self)@.contains_key(key@),
            },
    {
        proof {
            use_type_invariant(&*self);
        }
        match self.position(key) {
            Some(i) => {
                proof {
                    lemma_pairs_map_at(self.entries@, i as int);
                    lemma_pairs_map_remove(self.entries@, i as int);
                }
                let mut entries: Vec<(String, String)> = Vec::new();
                std::mem::swap(&mut entries, &mut self.entries);
                let (_, v) = entries.remove(i);
                self.entries = entries;
                Some(v)
            },
            None => {
                assert(old(self)@.remove(key@) =~= old(self)@);
                None
            },
        }
    }

    /// Number of stored keys.
    pub fn len(&self) -> (n: usize)
        ensures
            n == self@.dom().len(),
    {
        proof {
            use_type_invariant(self);
            lemma_pairs_map_len(self.entries@);
        }
        self.entries.len()
    }

    /// The stored pairs, each key once.
    pub fn to_pairs(&self) -> (pairs: Vec<(String, String)>)
        ensures
            keys_distinct(pairs@),
            pairs_map(pairs@) == self@,
    {
        proof {
            use_type_invariant(self);
        }
        let mut out: Vec<(String, String)> = Vec::new();
        let mut i: usize = 0;
        while i < self.entries.len()
            invariant
                i <= self.entries@.len(),
                out@.len() == i,
                keys_distinct(self.entries@),
                forall|j: int|
                    0 <= j < i ==> (#[trigger] out@[j]).0@ == self.entries@[j].0@ && out@[j].1@
                        == self.entries@[j].1@,
            decreases self.entries@.len() - i,
        {
            let k = self.entries[i].0.clone();
            let v = self.entries[i].1.clone();
            out.push((k, v));
            i = i + 1;
        }
        proof {
            lemma_pairs_map_same_views(out@, self.entries@);
        }
        out
    }

    /// A store holding `pairs`; where a key occurs twice the later pair wins.
    pub fn from_pairs(pairs: &Vec<(String, String)>) -> (store: Self)
        ensures
            store@ == fold_pairs(pairs@),
    {
        let mut store = KvStore::new();
        let mut i: usize = 0;
        while i < pairs.len()
            invariant
                i <= pairs@.len(),
                store@ == fold_pairs(pairs@.take(i as int)),
            decreases pairs@.len() - i,
        {
            let k = pairs[i].0.clone();
            let v = pairs[i].1.clone();
            store.insert(k, v);
            proof {
                assert(pairs@.take(i + 1).drop_last() =~= pairs@.take(i as int));
            }
            i = i + 1;
        }
        assert(pairs@.take(pairs@.len() as int) =~= pairs@);
        store
    }
}

/// The map that inserting the pairs one after another, from first to last, gives.
pub open spec fn fold_pairs(pairs: Seq<(String, String)>) -> Map<Seq<char>, Seq<char>>
    decreases pairs.len(),
{
    if pairs.len() == 0 {
        Map::empty()
    } else {
        fold_pairs(pairs.drop_last()).insert(pairs.last().0@, pairs.last().1@)
    }
}

proof fn lemma_pairs_map_same_views(a: Seq<(String, String)>, b: Seq<(String, String)>)
    requires
        a.len() == b.len(),
        forall|j: int| 0 <= j < a.len() ==> (#[trigger] a[j]).0@ == b[j].0@ && a[j].1@ == b[j].1@,
        keys_distinct(b),
    ensures
        keys_distinct(a),
        pairs_map(a) == pairs_map(b),
{
    assert forall|i: int, j: int|
        0 <= i < a.len() && 0 <= j < a.len() && i != j implies (#[trigger] a[i]).0@
        != (#[trigger] a[j]).0@ by {
        assert(b[i].0@ != b[j].0@);
    }
    assert forall|key: Seq<char>| #[trigger]
        pairs_map(a).contains_key(key) == pairs_map(b).contains_key(key) by {
        if holds_key(a, key) {
            let i = choose|i: int| 0 <= i < a.len() && (#[trigger] a[i]).0@ == key;
            assert(b[i].0@ == key);
        }
        if holds_key(b, key) {
            let i = choose|i: int| 0 <= i < b.len() && (#[trigger] b[i]).0@ == key;
            assert(a[i].0@ == key);
        }
    }
    assert forall|key: Seq<char>| #[trigger] pairs_map(a).contains_key(key) implies pairs_map(a)[key]
        == pairs_map(b)[key] by {
        let i = choose|i: int| 0 <= i < a.len() && (#[trigger] a[i]).0@ == key;
        lemma_pairs_map_at(a, i);
        lemma_pairs_map_at(b, i);
    }
    assert(pairs_map(a) =~= pairs_map(b));
}

proof fn lemma_pairs_map_len(pairs: Seq<(String, String)>)
    requires
        keys_distinct(pairs),
    ensures
        pairs_map(pairs).dom().finite(),
        pairs_map(pairs).dom().len() == pairs.len(),
    decreases pairs.len(),
{
    if pairs.len() == 0 {
        assert(pairs_map(pairs).dom() =~= Set::<Seq<char>>::empty());
    } else {
        let init = pairs.drop_last();
        let last = pairs.last();
        assert(keys_distinct(init)) by {
            assert forall|i: int, j: int|
                0 <= i < init.len() && 0 <= j < init.len() && i != j implies (#[trigger] init[i]).0@
                != (#[trigger] init[j]).0@ by {
                assert(init[i] == pairs[i] && init[j] == pairs[j]);
            }
        }
        lemma_pairs_map_len(init);
        assert(!holds_key(init, last.0@)) by {
            if holds_key(init, last.0@) {
                let i = choose|i: int| 0 <= i < init.len() && (#[trigger] init[i]).0@ == last.0@;
                assert(pairs[i] == init[i]);
                assert(pairs[pairs.len() - 1] == last);
            }
        }
        lemma_pairs_map_push(init, last.0, last.1);
        assert(init.push((last.0, last.1)) =~= pairs);
    }
}

/// Storing, one after another, the pairs a store gives out rebuilds that store:
/// for pairs with distinct keys, inserting them in order gives the map they
/// stand for. So `KvStore::from_pairs(&store.to_pairs())` holds what `store` holds.
pub proof fn lemma_pairs_round_trip(pairs: Seq<(String, String)>)
    requires
        keys_distinct(pairs),
    ensures
        fold_pairs(pairs) == pairs_map(pairs),
    decreases pairs.len(),
{
    if pairs.len() == 0 {
        assert(pairs_map(pairs) =~= Map::<Seq<char>, Seq<char>>::empty());
    } else {
        let init = pairs.drop_last();
        let last = pairs.last();
        assert(keys_distinct(init)) by {
            assert forall|i: int, j: int|
                0 <= i < init.len() && 0 <= j < init.len() && i != j implies (#[trigger] init[i]).0@
                != (#[trigger] init[j]).0@ by {
                assert(init[i] == pairs[i] && init[j] == pairs[j]);
            }
        }
        lemma_pairs_round_trip(init);
        assert(!holds_key(init, last.0@)) by {
            if holds_key(init, last.0@) {
                let i = choose|i: int| 0 <= i < init.len() && (#[trigger] init[i]).0@ == last.0@;
                assert(pairs[i] == init[i]);
                assert(pairs[pairs.len() - 1] == last);
            }
        }
        lemma_pairs_map_push(init, last.0, last.1);
        assert(init.push((last.0, last.1)) =~= pairs);
    }
}

} // verus!
