//! Stored content hashes of the corpus files, and when the dictionary is stale.
use vstd::prelude::*;

use crate::chars::str_views;

verus! {

/// The map of `names[i] -> hashes[i]`, later entries overriding earlier ones.
pub open spec fn to_map(names: Seq<Seq<char>>, hashes: Seq<Seq<char>>) -> Map<Seq<char>, Seq<char>>
    decreases names.len(),
{
    if names.len() == 0 {
        Map::empty()
    } else {
        to_map(names.drop_last(), hashes.drop_last()).insert(names.last(), hashes.last())
    }
}

/// `m` after recording, in order, each `names[i]` with the hash `hashes[i]`.
pub open spec fn saved(m: Map<Seq<char>, Seq<char>>, names: Seq<Seq<char>>, hashes: Seq<Seq<char>>) -> Map<Seq<char>, Seq<char>>
    decreases names.len(),
{
    if names.len() == 0 {
        m
    } else {
        saved(m, names.drop_last(), hashes.drop_last()).insert(names.last(), hashes.last())
    }
}

/// Some file has no record in `m`, or a record that differs from its current hash.
pub open spec fn stale(m: Map<Seq<char>, Seq<char>>, names: Seq<Seq<char>>, hashes: Seq<Seq<char>>) -> bool {
    exists|i: int| 0 <= i < names.len() && !(#[trigger] m.contains_key(names[i]) && m[names[i]] == hashes[i])
}

/// Records of the last known content hash of each corpus file, keyed by file name.
pub struct HashStore {
    names: Vec<String>,
    hashes: Vec<String>,
}

impl View for HashStore {
    type V = Map<Seq<char>, Seq<char>>;

    closed spec fn view(&self) -> Map<Seq<char>, Seq<char>> {
        to_map(str_views(self.names@), str_views(self.hashes@))
    }
}

proof fn lemma_to_map_index(names: Seq<Seq<char>>, hashes: Seq<Seq<char>>, j: int)
    requires
        names.len() == hashes.len(),
        0 <= j < names.len(),
        forall|a: int, b: int| 0 <= a < b < names.len() ==> names[a] != names[b],
    ensures
        to_map(names, hashes).contains_key(names[j]),
        to_map(names, hashes)[names[j]] == hashes[j],
    decreases names.len(),
{
    if j < names.len() - 1 {
        lemma_to_map_index(names.drop_last(), hashes.drop_last(), j);
    }
}

proof fn lemma_to_map_absent(names: Seq<Seq<char>>, hashes: Seq<Seq<char>>, k: Seq<char>)
    requires
        names.len() == hashes.len(),
        forall|a: int| 0 <= a < names.len() ==> names[a] != k,
    ensures
        !to_map(names, hashes).contains_key(k),
    decreases names.len(),
{
    if names.len() > 0 {
        lemma_to_map_absent(names.drop_last(), hashes.drop_last(), k);
    }
}

proof fn lemma_to_map_update(names: Seq<Seq<char>>, hashes: Seq<Seq<char>>, j: int, h: Seq<char>)
    requires
        names.len() == hashes.len(),
        0 <= j < names.len(),
        forall|a: int, b: int| 0 <= a < b < names.len() ==> names[a] != names[b],
    ensures
        to_map(names, hashes.update(j, h)) == to_map(names, hashes).insert(names[j], h),
    decreases names.len(),
{
    let n = names.len();
    if j == n - 1 {
        assert(hashes.update(j, h).drop_last() =~= hashes.drop_last());
        assert(to_map(names, hashes.update(j, h)) =~= to_map(names, hashes).insert(names[j], h));
    } else {
        lemma_to_map_update(names.drop_last(), hashes.drop_last(), j, h);
        assert(hashes.update(j, h).drop_last() =~= hashes.drop_last().update(j, h));
        assert(to_map(names, hashes.update(j, h)) =~= to_map(names, hashes).insert(names[j], h));
    }
}

impl HashStore {
    /// The store is consistent: one hash per name, and no name recorded twice.
    pub closed spec fn wf(&self) -> bool {
        &&& self.names@.len() == self.hashes@.len()
        &&& forall|a: int, b: int| 0 <= a < b < self.names@.len() ==> self.names@[a]@ != self.names@[b]@
    }

    /// An empty store.
    pub fn new() -> (r: HashStore)
        ensures
            r.wf(),
            r@ == Map::<Seq<char>, Seq<char>>::empty(),
    {
        HashStore { names: Vec::new(), hashes: Vec::new() }
    }

    fn position(&self, name: &str) -> (r: Option<usize>)
        requires
            self.wf(),
        ensures
            r matches Some(j) ==> j < self.names@.len() && self.names@[j as int]@ == name@,
            r is None ==> forall|a: int| 0 <= a < self.names@.len() ==> self.names@[a]@ != name@,
    {
        let key = String::from_str(name);
        let mut j: usize = 0;
        while j < self.names.len()
            invariant
                0 <= j <= self.names@.len(),
                key@ == name@,
                forall|a: int| 0 <= a < j ==> self.names@[a]@ != name@,
            decreases self.names@.len() - j,
        {
            if self.names[j] == key {
                return Some(j);
            }
            j = j + 1;
        }
        None
    }

    /// The hash recorded for `name`, if any.
    pub fn get(&self, name: &str) -> (r: Option<String>)
        requires
            self.wf(),
        ensures
            r is Some <==> self@.contains_key(name@),
            r matches Some(h) ==> h@ == self@[name@],
    {
        let ghost ns = str_views(self.names@);
        let ghost hs = str_views(self.hashes@);
        match self.position(name) {
            Some(j) => {
                proof {
                    lemma_to_map_index(ns, hs, j as int);
                }
                Some(self.hashes[j].clone())
            },
            None => {
                proof {
                    lemma_to_map_absent(ns, hs, name@);
                }
                None
            },
        }
    }

    /// Records `hash` for `name`, replacing any earlier record of that name.
    pub fn set(&mut self, name: &str, hash: &str)
        requires
            old(self).wf(),
        ensures
            final(self).wf(),
            final(self)@ == old(self)@.insert(name@, hash@),
    {
        let ghost ns = str_views(self.names@);
        let ghost hs = str_views(self.hashes@);
        match self.position(name) {
            Some(j) => {
                proof {
                    lemma_to_map_update(ns, hs, j as int, hash@);
                }
                self.hashes.set(j, String::from_str(hash));
                assert(str_views(self.hashes@) =~= hs.update(j as int, hash@));
            },
            None => {
                self.names.push(String::from_str(name));
                self.hashes.push(String::from_str(hash));
                assert(str_views(self.names@).drop_last() =~= ns);
                assert(str_views(self.hashes@).drop_last() =~= hs);
            },
        }
    }

    /// Records the current hash of each corpus file, in order (after a rebuild of the
    /// dictionary from those files).
    pub fn save_hashes(&mut self, filenames: &[String], file_hashes: &[String])
        requires
            old(self).wf(),
            filenames@.len() == file_hashes@.len(),
        ensures
            final(self).wf(),
            final(self)@ == saved(old(self)@, str_views(filenames@), str_views(file_hashes@)),
    {
        let ghost ns = str_views(filenames@);
        let ghost hs = str_views(file_hashes@);
        let ghost start = self@;
        let mut i: usize = 0;
        while i < filenames.len()
            invariant
                0 <= i <= filenames@.len(),
                filenames@.len() == file_hashes@.len(),
                ns == str_views(filenames@),
                hs == str_views(file_hashes@),
                self.wf(),
                self@ == saved(start, ns.take(i as int), hs.take(i as int)),
            decreases filenames@.len() - i,
        {
            assert(ns.take(i + 1).drop_last() =~= ns.take(i as int));
            assert(hs.take(i + 1).drop_last() =~= hs.take(i as int));
            self.set(filenames[i].as_str(), file_hashes[i].as_str());
            i = i + 1;
        }
        assert(ns.take(filenames@.len() as int) =~= ns);
        assert(hs.take(filenames@.len() as int) =~= hs);
    }
}

/// Whether the dictionary must be rebuilt: some corpus file has no stored hash, or a
/// stored hash that differs from the file's current one.
pub fn are_dictionaries_updated(store: &HashStore, filenames: &[String], current_hashes: &[String]) -> (r: bool)
    requires
        store.wf(),
        filenames@.len() == current_hashes@.len(),
    ensures
        r == stale(store@, str_views(filenames@), str_views(current_hashes@)),
{
    let ghost ns = str_views(filenames@);
    let ghost hs = str_views(current_hashes@);
    let mut i: usize = 0;
    while i < filenames.len()
        invariant
            0 <= i <= filenames@.len(),
            filenames@.len() == current_hashes@.len(),
            ns == str_views(filenames@),
            hs == str_views(current_hashes@),
            store.wf(),
            forall|k: int| 0 <= k < i ==> #[trigger] store@.contains_key(ns[k]) && store@[ns[k]] == hs[k],
        decreases filenames@.len() - i,
    {
        match store.get(filenames[i].as_str()) {
            None => {
                assert(!store@.contains_key(ns[i as int]));
                return true;
            },
            Some(h) => {
                if h != current_hashes[i] {
                    assert(store@[ns[i as int]] != hs[i as int]);
                    return true;
                }
            },
        }
        i = i + 1;
    }
    false
}

proof fn lemma_saved_lookup(m: Map<Seq<char>, Seq<char>>, names: Seq<Seq<char>>, hashes: Seq<Seq<char>>, j: int)
    requires
        names.len() == hashes.len(),
        0 <= j < names.len(),
        forall|a: int, b: int| 0 <= a < names.len() && 0 <= b < names.len() && names[a] == names[b] ==> hashes[a] == hashes[b],
    ensures
        saved(m, names, hashes).contains_key(names[j]),
        saved(m, names, hashes)[names[j]] == hashes[j],
    decreases names.len(),
{
    let n = names.len();
    if j < n - 1 && names[j] != names[n - 1] {
        lemma_saved_lookup(m, names.drop_last(), hashes.drop_last(), j);
    }
}

/// Right after the hashes of the corpus files are saved, the corpus is not stale;
/// and it is stale as soon as the current hash of any of its files differs from the
/// saved one. (One file name stands for one file, so a name that is listed twice
/// comes with the same hash.)
pub proof fn lemma_staleness_after_save(
    m: Map<Seq<char>, Seq<char>>,
    names: Seq<Seq<char>>,
    hashes: Seq<Seq<char>>,
    later: Seq<Seq<char>>,
)
    requires
        names.len() == hashes.len(),
        later.len() == hashes.len(),
        forall|a: int, b: int| 0 <= a < names.len() && 0 <= b < names.len() && names[a] == names[b] ==> hashes[a] == hashes[b],
    ensures
        !stale(saved(m, names, hashes), names, hashes),
        (exists|i: int| 0 <= i < later.len() && later[i] != hashes[i]) ==> stale(saved(m, names, hashes), names, later),
{
    let s = saved(m, names, hashes);
    assert forall|i: int| 0 <= i < names.len() implies #[trigger] s.contains_key(names[i]) && s[names[i]] == hashes[i] by {
        lemma_saved_lookup(m, names, hashes, i);
    }
    if exists|i: int| 0 <= i < later.len() && later[i] != hashes[i] {
        let i = choose|i: int| 0 <= i < later.len() && later[i] != hashes[i];
        lemma_saved_lookup(m, names, hashes, i);
        assert(!(s.contains_key(names[i]) && s[names[i]] == later[i]));
    }
}

} // verus!
