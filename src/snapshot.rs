//! Snapshots: the mapping from file key to fingerprint that one run observed,
//! kept as a list of entries with distinct keys in order of first insertion.
use vstd::prelude::*;
use vstd::set_lib::lemma_subset_equality;

verus! {

/// The mapping that a list of (key, fingerprint) entries stands for; a later
/// entry for a key replaces an earlier one.
pub open spec fn map_of(entries: Seq<(String, String)>) -> Map<Seq<char>, Seq<char>>
    decreases entries.len(),
{
    if entries.len() == 0 {
        Map::empty()
    } else {
        map_of(entries.drop_last()).insert(entries.last().0@, entries.last().1@)
    }
}

/// No two entries share a key.
pub open spec fn keys_distinct(entries: Seq<(String, String)>) -> bool {
    forall|i: int, j: int|
        0 <= i < j < entries.len() ==> #[trigger] entries[i].0@ != #[trigger] entries[j].0@
}

/// What the mapping of a list holds: the keys of its entries, each with the
/// fingerprint of its entry when keys are distinct.
pub proof fn lemma_map_of_entries(entries: Seq<(String, String)>)
    ensures
        map_of(entries).dom().finite(),
        forall|k: Seq<char>|
            #[trigger] map_of(entries).contains_key(k) <==> exists|i: int|
                0 <= i < entries.len() && #[trigger] entries[i].0@ == k,
        keys_distinct(entries) ==> forall|i: int|
            0 <= i < entries.len() ==> #[trigger] map_of(entries)[entries[i].0@]
                == entries[i].1@,
        keys_distinct(entries) ==> map_of(entries).dom().len() == entries.len(),
    decreases entries.len(),
{
    if entries.len() > 0 {
        let init = entries.drop_last();
        lemma_map_of_entries(init);
        let last = entries.last();
        assert forall|k: Seq<char>|
            #[trigger] map_of(entries).contains_key(k) <==> exists|i: int|
                0 <= i < entries.len() && #[trigger] entries[i].0@ == k by {
            if map_of(entries).contains_key(k) && k != last.0@ {
                let i = choose|i: int| 0 <= i < init.len() && #[trigger] init[i].0@ == k;
                assert(entries[i].0@ == k);
            }
            if exists|i: int| 0 <= i < entries.len() && #[trigger] entries[i].0@ == k {
                let i = choose|i: int| 0 <= i < entries.len() && #[trigger] entries[i].0@ == k;
                if i < init.len() {
                    assert(init[i].0@ == k);
                }
            }
        }
        if keys_distinct(entries) {
            assert(keys_distinct(init)) by {
                assert forall|i: int, j: int|
                    0 <= i < j < init.len() implies #[trigger] init[i].0@ != #[trigger] init[j].0@ by {
                    assert(entries[i].0@ != entries[j].0@);
                }
            }
            assert forall|i: int| 0 <= i < entries.len() implies #[trigger] map_of(
                entries,
            )[entries[i].0@] == entries[i].1@ by {
                if i < init.len() {
                    assert(init[i] == entries[i]);
                    assert(entries[i].0@ != entries[entries.len() - 1].0@);
                }
            }
            assert(!map_of(init).contains_key(last.0@)) by {
                if map_of(init).contains_key(last.0@) {
                    let i = choose|i: int| 0 <= i < init.len() && #[trigger] init[i].0@ == last.0@;
                    assert(entries[i].0@ != entries[entries.len() - 1].0@);
                }
            }
        }
    }
}

/// Entry `i` of `a` has the key and fingerprint of some entry of `b`.
pub open spec fn entry_in(a: Seq<(String, String)>, i: int, b: Seq<(String, String)>) -> bool {
    exists|j: int| 0 <= j < b.len() && b[j].0@ == a[i].0@ && #[trigger] b[j].1@ == a[i].1@
}

/// Storing a snapshot and loading it again gives the same snapshot, whatever
/// order the store keeps the entries in: two lists of distinct keys that
/// hold the same (key, fingerprint) pairs stand for the same mapping.
pub proof fn lemma_reload_same_snapshot(saved: Seq<(String, String)>, loaded: Seq<(String, String)>)
    requires
        keys_distinct(saved),
        keys_distinct(loaded),
        forall|i: int| 0 <= i < saved.len() ==> #[trigger] entry_in(saved, i, loaded),
        forall|i: int| 0 <= i < loaded.len() ==> #[trigger] entry_in(loaded, i, saved),
    ensures
        map_of(loaded) == map_of(saved),
{
    lemma_map_of_entries(saved);
    lemma_map_of_entries(loaded);
    assert forall|k: Seq<char>| #[trigger] map_of(saved).contains_key(k) implies map_of(
        loaded,
    ).contains_key(k) && map_of(loaded)[k] == map_of(saved)[k] by {
        let i = choose|i: int| 0 <= i < saved.len() && #[trigger] saved[i].0@ == k;
        assert(entry_in(saved, i, loaded));
        let j = choose|j: int|
            0 <= j < loaded.len() && loaded[j].0@ == saved[i].0@ && #[trigger] loaded[j].1@
                == saved[i].1@;
        assert(loaded[j].0@ == k);
    }
    assert forall|k: Seq<char>| #[trigger] map_of(loaded).contains_key(k) implies map_of(
        saved,
    ).contains_key(k) by {
        let i = choose|i: int| 0 <= i < loaded.len() && #[trigger] loaded[i].0@ == k;
        assert(entry_in(loaded, i, saved));
        let j = choose|j: int|
            0 <= j < saved.len() && saved[j].0@ == loaded[i].0@ && #[trigger] saved[j].1@
                == loaded[i].1@;
        assert(saved[j].0@ == k);
    }
    assert(map_of(loaded) =~= map_of(saved));
}

/// A snapshot of fingerprints, keyed by file key.
#[derive(Debug)]
pub struct Snapshot {
    entries: Vec<(String, String)>,
}

impl View for Snapshot {
    type V = Map<Seq<char>, Seq<char>>;

    closed spec fn view(&self) -> Map<Seq<char>, Seq<char>> {
        map_of(self.entries@)
    }
}

impl Snapshot {
    /// The entries keep distinct keys.
    pub closed spec fn wf(&self) -> bool {
        keys_distinct(self.entries@)
    }

    /// The snapshot of a first run: no key at all.
    pub fn new() -> (r: Snapshot)
        ensures
            r.wf(),
            r@ == Map::<Seq<char>, Seq<char>>::empty(),
    {
        Snapshot { entries: Vec::new() }
    }

    /// The position of `key` among the entries, if it is there.
    fn position(&self, key: &String) -> (r: Option<usize>)
        requires
            self.wf(),
        ensures
            match r {
                Some(i) => i < self.entries@.len() && self.entries@[i as int].0@ == key@,
                None => !self@.contains_key(key@),
            },
    {
        proof {
            lemma_map_of_entries(self.entries@);
        }
        let mut i: usize = 0;
        while i < self.entries.len()
            invariant
                i <= self.entries@.len(),
                forall|j: int| 0 <= j < i ==> #[trigger] self.entries@[j].0@ != key@,
            decreases self.entries@.len() - i,
        {
            if self.entries[i].0 == *key {
                return Some(i);
            }
            i = i + 1;
        }
        None
    }

    /// The fingerprint recorded for `key`.
    pub fn get(&self, key: &String) -> (r: Option<&String>)
        requires
            self.wf(),
        ensures
            match r {
                Some(v) => self@.contains_key(key@) && v@ == self@[key@],
                None => !self@.contains_key(key@),
            },
    {
        proof {
            lemma_map_of_entries(self.entries@);
        }
        match self.position(key) {
            Some(i) => Some(&self.entries[i].1),
            None => None,
        }
    }

    /// Records `digest` for `key`, replacing what was recorded for it.
    pub fn insert(&mut self, key: String, digest: String)
        requires
            old(self).wf(),
        ensures
            final(self).wf(),
            final(self)@ == old(self)@.insert(key@, digest@),
    {
        proof {
            lemma_map_of_entries(self.entries@);
        }
        match self.position(&key) {
            Some(i) => {
                let ghost before = self.entries@;
                let ghost k = key@;
                let ghost v = digest@;
                self.entries.set(i, (key, digest));
                proof {
                    let after = self.entries@;
                    assert(keys_distinct(after)) by {
                        assert forall|a: int, b: int|
                            0 <= a < b < after.len() implies #[trigger] after[a].0@
                            != #[trigger] after[b].0@ by {
                            assert(before[a].0@ != before[b].0@);
                        }
                    }
                    lemma_map_of_entries(after);
                    assert forall|kk: Seq<char>|
                        #[trigger] map_of(after).contains_key(kk)
                            == map_of(before).insert(k, v).contains_key(kk) by {
                        if map_of(before).contains_key(kk) {
                            let j = choose|j: int|
                                0 <= j < before.len() && #[trigger] before[j].0@ == kk;
                            assert(after[j].0@ == kk);
                        }
                        if map_of(after).contains_key(kk) {
                            let j = choose|j: int|
                                0 <= j < after.len() && #[trigger] after[j].0@ == kk;
                            assert(before[j].0@ == kk);
                        }
                    }
                    assert forall|kk: Seq<char>| #[trigger]
                        map_of(after).contains_key(kk) implies map_of(after)[kk] == map_of(
                        before,
                    ).insert(k, v)[kk] by {
                        let j = choose|j: int|
                            0 <= j < after.len() && #[trigger] after[j].0@ == kk;
                        if j != i {
                            assert(before[j] == after[j]);
                        }
                    }
                    assert(map_of(after) =~= map_of(before).insert(k, v));
                }
            },
            None => {
                let ghost before = self.entries@;
                self.entries.push((key, digest));
                proof {
                    let after = self.entries@;
                    assert(after.drop_last() =~= before);
                    assert forall|a: int, b: int|
                        0 <= a < b < after.len() implies #[trigger] after[a].0@
                        != #[trigger] after[b].0@ by {
                        if b == after.len() - 1 {
                            assert(map_of(before).contains_key(before[a].0@));
                        } else {
                            assert(before[a].0@ != before[b].0@);
                        }
                    }
                }
            },
        }
    }

    /// The number of keys.
    pub fn len(&self) -> (r: usize)
        requires
            self.wf(),
        ensures
            r == self@.dom().len(),
    {
        proof {
            lemma_map_of_entries(self.entries@);
        }
        self.entries.len()
    }

    /// The (key, fingerprint) pairs, each key once, in order of first insertion.
    pub fn entries(&self) -> (r: Vec<(String, String)>)
        requires
            self.wf(),
        ensures
            keys_distinct(r@),
            map_of(r@) == self@,
    {
        let mut out: Vec<(String, String)> = Vec::new();
        let mut i: usize = 0;
        while i < self.entries.len()
            invariant
                i <= self.entries@.len(),
                out@ =~= self.entries@.subrange(0, i as int),
            decreases self.entries@.len() - i,
        {
            let k = self.entries[i].0.clone();
            let v = self.entries[i].1.clone();
            out.push((k, v));
            i = i + 1;
        }
        assert(out@ =~= self.entries@);
        out
    }

    /// The snapshot that a list of entries stands for; a later entry for a key
    /// replaces an earlier one.
    pub fn from_entries(entries: &Vec<(String, String)>) -> (r: Snapshot)
        ensures
            r.wf(),
            r@ == map_of(entries@),
    {
        let mut snap = Snapshot::new();
        let mut i: usize = 0;
        while i < entries.len()
            invariant
                i <= entries@.len(),
                snap.wf(),
                snap@ == map_of(entries@.subrange(0, i as int)),
            decreases entries@.len() - i,
        {
            let k = entries[i].0.clone();
            let v = entries[i].1.clone();
            snap.insert(k, v);
            proof {
                assert(entries@.subrange(0, i + 1).drop_last() =~= entries@.subrange(0, i as int));
            }
            i = i + 1;
        }
        assert(entries@.subrange(0, entries@.len() as int) =~= entries@);
        snap
    }

    /// Whether two snapshots hold the same keys with the same fingerprints.
    pub fn same_as(&self, other: &Snapshot) -> (r: bool)
        requires
            self.wf(),
            other.wf(),
        ensures
            r == (self@ == other@),
    {
        proof {
            lemma_map_of_entries(self.entries@);
            lemma_map_of_entries(other.entries@);
        }
        if self.entries.len() != other.entries.len() {
            return false;
        }
        let mut i: usize = 0;
        while i < self.entries.len()
            invariant
                i <= self.entries@.len(),
                self.wf(),
                other.wf(),
                forall|j: int|
                    0 <= j < i ==> #[trigger] other@.contains_key(self.entries@[j].0@)
                        && other@[self.entries@[j].0@] == self.entries@[j].1@,
            decreases self.entries@.len() - i,
        {
            proof {
                lemma_map_of_entries(self.entries@);
            }
            match other.get(&self.entries[i].0) {
                Some(v) => {
                    if *v != self.entries[i].1 {
                        assert(self@[self.entries@[i as int].0@] == self.entries@[i as int].1@);
                        return false;
                    }
                },
                None => {
                    assert(self@.contains_key(self.entries@[i as int].0@));
                    return false;
                },
            }
            i = i + 1;
        }
        proof {
            assert forall|k: Seq<char>| #[trigger] self@.contains_key(k) implies other@.contains_key(k)
                && other@[k] == self@[k] by {
                let j = choose|j: int| 0 <= j < self.entries@.len() && #[trigger] self.entries@[j].0@ == k;
                assert(other@.contains_key(self.entries@[j].0@));
            }
            lemma_subset_equality(self@.dom(), other@.dom());
            assert(self@ =~= other@);
        }
        true
    }
}

} // verus!
