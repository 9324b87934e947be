use vstd::prelude::*;

verus! {

/// Whether two strings hold the same characters.
pub fn same_text(a: &str, b: &str) -> (r: bool)
    ensures
        r == (a@ == b@),
{
    let n = a.unicode_len();
    if n != b.unicode_len() {
        return false;
    }
    let mut i: usize = 0;
    while i < n
        invariant
            n == a@.len() == b@.len(),
            i <= n,
            a@.take(i as int) == b@.take(i as int),
        decreases n - i,
    {
        if a.get_char(i) != b.get_char(i) {
            assert(a@[i as int] != b@[i as int]);
            return false;
        }
        i = i + 1;
        assert(a@.take(i as int) =~= b@.take(i as int)) by {
            assert(a@.take(i as int) =~= a@.take(i - 1).push(a@[i - 1]));
            assert(b@.take(i as int) =~= b@.take(i - 1).push(b@[i - 1]));
        }
    }
    assert(a@ =~= a@.take(n as int));
    assert(b@ =~= b@.take(n as int));
    true
}

/// A finite map from names to values, kept as two parallel vectors with
/// each name present at most once.
pub struct Table<V> {
    keys: Vec<String>,
    vals: Vec<V>,
}

impl<V: View> View for Table<V> {
    type V = Map<Seq<char>, V::V>;

    closed spec fn view(&self) -> Map<Seq<char>, V::V> {
        Map::new(
            |k: Seq<char>| exists|i: int| 0 <= i < self.keys@.len() && #[trigger] self.keys@[i]@ == k,
            |k: Seq<char>| self.vals@[self.index_of(k)]@,
        )
    }
}

impl<V: View> Table<V> {
    /// The two vectors have one length and no name occurs twice.
    pub closed spec fn wf(&self) -> bool {
        &&& self.keys@.len() == self.vals@.len()
        &&& forall|i: int, j: int|
            0 <= i < j < self.keys@.len() ==> #[trigger] self.keys@[i]@ != #[trigger] self.keys@[j]@
    }

    closed spec fn index_of(&self, k: Seq<char>) -> int {
        choose|i: int| 0 <= i < self.keys@.len() && #[trigger] self.keys@[i]@ == k
    }

    proof fn lemma_index(&self, k: Seq<char>, j: int)
        requires
            self.wf(),
            0 <= j < self.keys@.len(),
            self.keys@[j]@ == k,
        ensures
            self.index_of(k) == j,
            self@.contains_key(k),
            self@[k] == self.vals@[j]@,
    {
        let i = self.index_of(k);
        assert(0 <= i < self.keys@.len() && self.keys@[i]@ == k);
        if i < j {
            assert(self.keys@[i]@ != self.keys@[j]@);
        } else if j < i {
            assert(self.keys@[j]@ != self.keys@[i]@);
        }
    }

    /// An empty table.
    pub fn new() -> (r: Table<V>)
        ensures
            r.wf(),
            r@ == Map::<Seq<char>, V::V>::empty(),
    {
        let r = Table { keys: Vec::new(), vals: Vec::new() };
        assert(r@ =~= Map::<Seq<char>, V::V>::empty());
        r
    }

    fn find(&self, key: &str) -> (r: Option<usize>)
        requires
            self.wf(),
        ensures
            match r {
                Some(i) => i < self.keys@.len() && self.keys@[i as int]@ == key@,
                None => !self@.contains_key(key@),
            },
    {
        let mut i: usize = 0;
        while i < self.keys.len()
            invariant
                i <= self.keys@.len(),
                forall|j: int| 0 <= j < i ==> #[trigger] self.keys@[j]@ != key@,
            decreases self.keys@.len() - i,
        {
            if same_text(self.keys[i].as_str(), key) {
                return Some(i);
            }
            i = i + 1;
        }
        None
    }

    /// The value bound to `key`, if any.
    pub fn get(&self, key: &str) -> (r: Option<&V>)
        requires
            self.wf(),
        ensures
            match r {
                Some(v) => self@.contains_key(key@) && v@ == self@[key@],
                None => !self@.contains_key(key@),
            },
    {
        match self.find(key) {
            Some(i) => {
                proof {
                    self.lemma_index(key@, i as int);
                }
                Some(&self.vals[i])
            },
            None => None,
        }
    }

    /// Binds `key` to `v`, in place of what it was bound to.
    pub fn insert(&mut self, key: String, v: V)
        requires
            old(self).wf(),
        ensures
            final(self).wf(),
            final(self)@ == old(self)@.insert(key@, v@),
    {
        let ghost pre = *self;
        match self.find(key.as_str()) {
            Some(i) => {
                self.vals.set(i, v);
                proof {
                    assert forall|k: Seq<char>| #[trigger] self@.contains_key(k) implies self@[k]
                        == pre@.insert(key@, v@)[k] by {
                        let j = self.index_of(k);
                        self.lemma_index(k, j);
                        pre.lemma_index(k, j);
                    }
                    assert forall|k: Seq<char>| #[trigger] pre@.insert(key@, v@).contains_key(k) implies self@.contains_key(k) by {
                        if k != key@ {
                            let j = pre.index_of(k);
                            assert(self.keys@[j]@ == k);
                        } else {
                            assert(self.keys@[i as int]@ == k);
                        }
                    }
                    assert(self@ =~= pre@.insert(key@, v@));
                }
            },
            None => {
                let ghost n = self.keys@.len();
                self.keys.push(key);
                self.vals.push(v);
                proof {
                    assert forall|a: int, b: int| 0 <= a < b < self.keys@.len() implies #[trigger] self.keys@[a]@ != #[trigger] self.keys@[b]@ by {
                        if b == n {
                            assert(pre.keys@[a]@ == self.keys@[a]@);
                        } else {
                            assert(pre.keys@[a]@ != pre.keys@[b]@);
                        }
                    }
                    assert forall|k: Seq<char>| #[trigger] self@.contains_key(k) implies self@[k]
                        == pre@.insert(key@, v@)[k] by {
                        let j = self.index_of(k);
                        self.lemma_index(k, j);
                        if j < n {
                            pre.lemma_index(k, j);
                        }
                    }
                    assert forall|k: Seq<char>| #[trigger] pre@.insert(key@, v@).contains_key(k) implies self@.contains_key(k) by {
                        if k != key@ {
                            let j = pre.index_of(k);
                            assert(self.keys@[j]@ == k);
                        } else {
                            assert(self.keys@[n as int]@ == k);
                        }
                    }
                    assert(self@ =~= pre@.insert(key@, v@));
                }
            },
        }
    }

    /// Unbinds `key`, and returns what it was bound to.
    pub fn remove(&mut self, key: &str) -> (r: Option<V>)
        requires
            old(self).wf(),
        ensures
            final(self).wf(),
            final(self)@ == old(self)@.remove(key@),
            match r {
                Some(v) => old(self)@.contains_key(key@) && v@ == old(self)@[key@],
                None => !old(self)@.contains_key(key@),
            },
    {
        let ghost pre = *self;
        match self.find(key) {
            Some(i) => {
                self.keys.remove(i);
                let v = self.vals.remove(i);
                proof {
                    pre.lemma_index(key@, i as int);
                    assert forall|a: int, b: int| 0 <= a < b < self.keys@.len() implies #[trigger] self.keys@[a]@ != #[trigger] self.keys@[b]@ by {
                        let a0 = if a < i { a } else { a + 1 };
                        let b0 = if b < i { b } else { b + 1 };
                        assert(self.keys@[a] == pre.keys@[a0]);
                        assert(self.keys@[b] == pre.keys@[b0]);
                        assert(pre.keys@[a0]@ != pre.keys@[b0]@);
                    }
                    assert forall|k: Seq<char>| #[trigger] self@.contains_key(k) implies self@[k]
                        == pre@.remove(key@)[k] && k != key@ by {
                        let j = self.index_of(k);
                        self.lemma_index(k, j);
                        let j0 = if j < i { j } else { j + 1 };
                        assert(self.keys@[j] == pre.keys@[j0]);
                        pre.lemma_index(k, j0);
                        if k == key@ {
                            assert(pre.keys@[j0]@ == pre.keys@[i as int]@);
                        }
                    }
                    assert forall|k: Seq<char>| #[trigger] pre@.remove(key@).contains_key(k) implies self@.contains_key(k) by {
                        let j = pre.index_of(k);
                        assert(j != i);
                        let j1 = if j < i { j } else { j - 1 };
                        assert(self.keys@[j1] == pre.keys@[j]);
                    }
                    assert(self@ =~= pre@.remove(key@));
                }
                Some(v)
            },
            None => {
                assert(self@ =~= pre@.remove(key@));
                None
            },
        }
    }
}

} // verus!
