//! The in-memory index: each key with the offset of its latest record.
use vstd::prelude::*;

verus! {

/// Whether two byte strings are equal.
pub fn bytes_eq(a: &[u8], b: &[u8]) -> (r: bool)
    ensures
        r == (a@ == b@),
{
    if a.len() != b.len() {
        return false;
    }
    let mut i: usize = 0;
    while i < a.len()
        invariant
            a@.len() == b@.len(),
            i <= a@.len(),
            a@.subrange(0, i as int) == b@.subrange(0, i as int),
        decreases a@.len() - i,
    {
        if a[i] != b[i] {
            assert(a@[i as int] != b@[i as int]);
            return false;
        }
        assert(a@.subrange(0, i + 1) =~= a@.subrange(0, i as int).push(a@[i as int]));
        assert(b@.subrange(0, i + 1) =~= b@.subrange(0, i as int).push(b@[i as int]));
        i = i + 1;
    }
    assert(a@ =~= a@.subrange(0, i as int));
    assert(b@ =~= b@.subrange(0, i as int));
    true
}

/// Whether no key occurs twice in a list of entries.
pub open spec fn keys_unique(s: Seq<(Seq<u8>, u64)>) -> bool {
    forall|i: int, j: int|
        0 <= i < s.len() && 0 <= j < s.len() && #[trigger] s[i].0 == #[trigger] s[j].0 ==> i == j
}

/// Whether `key` occurs in a list of entries.
pub open spec fn has_key(s: Seq<(Seq<u8>, u64)>, key: Seq<u8>) -> bool {
    exists|i: int| 0 <= i < s.len() && #[trigger] s[i].0 == key
}

/// The map that a list of entries with unique keys stands for.
pub open spec fn map_of(s: Seq<(Seq<u8>, u64)>) -> Map<Seq<u8>, u64> {
    Map::new(
        |k: Seq<u8>| has_key(s, k),
        |k: Seq<u8>| s[choose|i: int| 0 <= i < s.len() && #[trigger] s[i].0 == k].1,
    )
}

/// A map from keys (byte strings) to log offsets.
#[derive(Debug)]
pub struct KeyIndex {
    entries: Vec<(Vec<u8>, u64)>,
}

impl View for KeyIndex {
    type V = Map<Seq<u8>, u64>;

    /// The key to offset mapping.
    closed spec fn view(&self) -> Map<Seq<u8>, u64> {
        map_of(self.pairs())
    }
}

impl KeyIndex {
    /// The entries, with each key as a sequence.
    pub closed spec fn pairs(&self) -> Seq<(Seq<u8>, u64)> {
        self.entries@.map_values(|e: (Vec<u8>, u64)| (e.0@, e.1))
    }

    /// No key is held twice.
    pub closed spec fn wf(&self) -> bool {
        keys_unique(self.pairs())
    }

    proof fn lemma_lookup(&self, i: int)
        requires
            self.wf(),
            0 <= i < self.pairs().len(),
        ensures
            self.view().contains_key(self.pairs()[i].0),
            self.view()[self.pairs()[i].0] == self.pairs()[i].1,
    {
        let s = self.pairs();
        let k = s[i].0;
        assert(has_key(s, k));
        let j = choose|j: int| 0 <= j < s.len() && #[trigger] s[j].0 == k;
        assert(s[j].0 == s[i].0);
    }

    /// An empty index.
    pub fn new() -> (r: Self)
        ensures
            r.wf(),
            r.view() == Map::<Seq<u8>, u64>::empty(),
    {
        let r = KeyIndex { entries: Vec::new() };
        assert(r.view() =~= Map::<Seq<u8>, u64>::empty());
        r
    }

    /// Where `key` stands among the entries, if it does.
    fn position(&self, key: &[u8]) -> (r: Option<usize>)
        requires
            self.wf(),
        ensures
            match r {
                Some(i) => i < self.pairs().len() && self.pairs()[i as int].0 == key@,
                None => !self.view().contains_key(key@),
            },
    {
        let mut i: usize = 0;
        while i < self.entries.len()
            invariant
                i <= self.entries@.len(),
                self.pairs().len() == self.entries@.len(),
                forall|j: int| 0 <= j < i ==> #[trigger] self.pairs()[j].0 != key@,
            decreases self.entries@.len() - i,
        {
            if bytes_eq(self.entries[i].0.as_slice(), key) {
                return Some(i);
            }
            i = i + 1;
        }
        None
    }

    /// The offset recorded for `key`.
    pub fn get(&self, key: &[u8]) -> (r: Option<u64>)
        requires
            self.wf(),
        ensures
            r == (if self.view().contains_key(key@) {
                Some(self.view()[key@])
            } else {
                None::<u64>
            }),
    {
        match self.position(key) {
            Some(i) => {
                proof {
                    self.lemma_lookup(i as int);
                }
                Some(self.entries[i].1)
            },
            None => None,
        }
    }

    /// Number of keys held.
    pub fn len(&self) -> (r: usize)
        requires
            self.wf(),
        ensures
            r == self.view().len(),
    {
        proof {
            let s = self.pairs();
            let ks = s.map_values(|e: (Seq<u8>, u64)| e.0);
            assert forall|k: Seq<u8>| self.view().dom().contains(k) <==> #[trigger] ks.contains(
                k,
            ) by {
                if ks.contains(k) {
                    let i = choose|i: int| 0 <= i < ks.len() && ks[i] == k;
                    assert(s[i].0 == k);
                }
                if has_key(s, k) {
                    let i = choose|i: int| 0 <= i < s.len() && #[trigger] s[i].0 == k;
                    assert(ks[i] == k);
                }
            }
            assert(self.view().dom() =~= ks.to_set());
            assert(ks.no_duplicates()) by {
                assert forall|i: int, j: int|
                    0 <= i < ks.len() && 0 <= j < ks.len() && i != j implies ks[i] != ks[j] by {
                    assert(s[i].0 == ks[i] && s[j].0 == ks[j]);
                }
            }
            ks.unique_seq_to_set();
        }
        self.entries.len()
    }

    /// Records `offset` for `key`, replacing any earlier offset.
    pub fn insert(&mut self, key: &[u8], offset: u64)
        requires
            old(self).wf(),
        ensures
            final(self).wf(),
            final(self).view() == old(self).view().insert(key@, offset),
    {
        let ghost s0 = self.pairs();
        let k = vstd::slice::slice_to_vec(key);
        match self.position(key) {
            Some(i) => {
                self.entries.set(i, (k, offset));
                proof {
                    let s = self.pairs();
                    assert(s =~= s0.update(i as int, (key@, offset)));
                    assert(self.wf());
                    assert forall|kk: Seq<u8>| #[trigger]
                        self.view().contains_key(kk) == old(self).view().insert(
                            key@,
                            offset,
                        ).contains_key(kk) by {
                        if has_key(s0, kk) {
                            let j = choose|j: int| 0 <= j < s0.len() && #[trigger] s0[j].0 == kk;
                            assert(s[j].0 == kk);
                        }
                        if has_key(s, kk) {
                            let j = choose|j: int| 0 <= j < s.len() && #[trigger] s[j].0 == kk;
                            assert(s0[j].0 == kk);
                        }
                    }
                    assert forall|kk: Seq<u8>| #[trigger]
                        self.view().contains_key(kk) implies self.view()[kk]
                        == old(self).view().insert(key@, offset)[kk] by {
                        let j = choose|j: int| 0 <= j < s.len() && #[trigger] s[j].0 == kk;
                        self.lemma_lookup(j);
                        if j != i {
                            old(self).lemma_lookup(j);
                        }
                    }
                    assert(self.view() =~= old(self).view().insert(key@, offset));
                }
            },
            None => {
                self.entries.push((k, offset));
                proof {
                    let s = self.pairs();
                    assert(s =~= s0.push((key@, offset)));
                    assert(self.wf());
                    assert forall|kk: Seq<u8>| #[trigger]
                        self.view().contains_key(kk) == old(self).view().insert(
                            key@,
                            offset,
                        ).contains_key(kk) by {
                        if has_key(s0, kk) {
                            let j = choose|j: int| 0 <= j < s0.len() && #[trigger] s0[j].0 == kk;
                            assert(s[j].0 == kk);
                        }
                        if has_key(s, kk) && kk != key@ {
                            let j = choose|j: int| 0 <= j < s.len() && #[trigger] s[j].0 == kk;
                            assert(s0[j].0 == kk);
                        }
                        if kk == key@ {
                            assert(s[s0.len() as int].0 == kk);
                        }
                    }
                    assert forall|kk: Seq<u8>| #[trigger]
                        self.view().contains_key(kk) implies self.view()[kk]
                        == old(self).view().insert(key@, offset)[kk] by {
                        let j = choose|j: int| 0 <= j < s.len() && #[trigger] s[j].0 == kk;
                        self.lemma_lookup(j);
                        if j != s0.len() {
                            old(self).lemma_lookup(j);
                        }
                    }
                    assert(self.view() =~= old(self).view().insert(key@, offset));
                }
            },
        }
    }
}

} // verus!
