use vstd::prelude::*;
use crate::content_type::{mime_essence, resolve};
use crate::paths::{asset_key, joined};
use crate::order::{path_le, path_le_exec, lemma_bytes_le_total};
use vstd::utf8::encode_utf8;
use vstd::multiset::Multiset;
use crate::laws::{distinct_keys, lemma_order_independent};

verus! {

/// A file found under the root, by its path relative to the root, with the
/// outcome of reading it: its bytes, or the message of the read error.
pub struct FileRead {
    pub path: String,
    pub contents: Result<Vec<u8>, String>,
}

/// The abstract value of a [`FileRead`].
pub type ReadView = (Seq<char>, Result<Seq<u8>, Seq<char>>);

impl View for FileRead {
    type V = ReadView;

    open spec fn view(&self) -> ReadView {
        (
            self.path@,
            match self.contents {
                Ok(b) => Ok(b@),
                Err(e) => Err(e@),
            },
        )
    }
}

/// A loaded file: its store key, its bytes and its content type.
pub struct TypedAsset {
    pub key: String,
    pub bytes: Vec<u8>,
    pub content_type: String,
}

/// What the store holds for a key: bytes and content type.
pub type AssetView = (Seq<u8>, Seq<char>);

impl TypedAsset {
    pub open spec fn asset(&self) -> AssetView {
        (self.bytes@, self.content_type@)
    }
}

/// A file left out of the store: its key and why it could not be read.
pub struct Skipped {
    pub path: String,
    pub error: String,
}

/// The reads of a sequence of [`FileRead`]s.
pub open spec fn reads_of(files: Seq<FileRead>) -> Seq<ReadView> {
    files.map_values(|f: FileRead| f@)
}

/// The store built from `files` under `root`, read in order: each file read
/// successfully is entered under its root-joined key with the content type
/// of that key, a later entry replacing an earlier one under the same key;
/// failed reads are left out.
pub open spec fn store_of(root: Seq<char>, files: Seq<ReadView>) -> Map<Seq<char>, AssetView>
    decreases files.len(),
{
    if files.len() == 0 {
        Map::empty()
    } else {
        let prev = store_of(root, files.drop_last());
        let f = files.last();
        match f.1 {
            Ok(bytes) => {
                let k = joined(root, f.0);
                prev.insert(k, (bytes, mime_essence(k)))
            },
            Err(_) => prev,
        }
    }
}

/// The failed reads of `files`, in order, by key and error message.
pub open spec fn skipped_of(root: Seq<char>, files: Seq<ReadView>) -> Seq<(Seq<char>, Seq<char>)>
    decreases files.len(),
{
    if files.len() == 0 {
        Seq::empty()
    } else {
        let prev = skipped_of(root, files.drop_last());
        let f = files.last();
        match f.1 {
            Ok(_) => prev,
            Err(e) => prev.push((joined(root, f.0), e)),
        }
    }
}

/// The immutable mapping from key to asset that requests are served from.
pub struct AssetStore {
    assets: Vec<TypedAsset>,
}

impl AssetStore {
    /// No two assets share a key.
    pub closed spec fn wf(&self) -> bool {
        forall|i: int, j: int|
            0 <= i < j < self.assets@.len() ==> self.assets@[i].key@ != self.assets@[j].key@
    }

    pub closed spec fn has_key(&self, k: Seq<char>) -> bool {
        exists|i: int| 0 <= i < self.assets@.len() && self.assets@[i].key@ == k
    }

    pub closed spec fn index_of(&self, k: Seq<char>) -> int {
        choose|i: int| 0 <= i < self.assets@.len() && self.assets@[i].key@ == k
    }
}

impl View for AssetStore {
    type V = Map<Seq<char>, AssetView>;

    closed spec fn view(&self) -> Map<Seq<char>, AssetView> {
        Map::new(|k: Seq<char>| self.has_key(k), |k: Seq<char>| self.assets@[self.index_of(k)].asset())
    }
}

impl AssetStore {
    /// An empty store.
    pub fn new() -> (r: AssetStore)
        ensures
            r.wf(),
            r@ == Map::<Seq<char>, AssetView>::empty(),
    {
        let r = AssetStore { assets: Vec::new() };
        assert(r@ =~= Map::<Seq<char>, AssetView>::empty());
        r
    }

    /// The number of assets held.
    pub fn len(&self) -> (r: usize)
        requires
            self.wf(),
        ensures
            r == self@.len(),
    {
        proof {
            self.lemma_len();
        }
        self.assets.len()
    }

    proof fn lemma_len(&self)
        requires
            self.wf(),
        ensures
            self@.dom().finite(),
            self@.len() == self.assets@.len(),
    {
        let keys = self.assets@.map_values(|a: TypedAsset| a.key@);
        assert(self@.dom() =~= keys.to_set()) by {
            assert forall|k: Seq<char>| self@.dom().contains(k) implies keys.to_set().contains(k) by {
                let i = self.index_of(k);
                assert(keys[i] == k);
            }
            assert forall|k: Seq<char>| keys.to_set().contains(k) implies self@.dom().contains(k) by {
                let i = choose|i: int| 0 <= i < keys.len() && keys[i] == k;
                assert(self.assets@[i].key@ == k);
            }
        }
        assert(keys.no_duplicates()) by {
            assert forall|i: int, j: int| 0 <= i < keys.len() && 0 <= j < keys.len() && i != j
                implies keys[i] != keys[j] by {
                if i < j {
                    assert(self.assets@[i].key@ != self.assets@[j].key@);
                } else {
                    assert(self.assets@[j].key@ != self.assets@[i].key@);
                }
            }
        }
        keys.unique_seq_to_set();
    }

    /// The asset stored under `key`, if any.
    pub fn lookup(&self, key: &String) -> (r: Option<&TypedAsset>)
        requires
            self.wf(),
        ensures
            match r {
                Some(a) => self@.contains_key(key@) && self@[key@] == a.asset() && a.key@ == key@,
                None => !self@.contains_key(key@),
            },
    {
        let mut i: usize = 0;
        while i < self.assets.len()
            invariant
                self.wf(),
                i <= self.assets@.len(),
                forall|j: int| 0 <= j < i ==> self.assets@[j].key@ != key@,
            decreases self.assets@.len() - i,
        {
            if self.assets[i].key == *key {
                proof {
                    assert(self.has_key(key@));
                    let c = self.index_of(key@);
                    assert(c == i as int) by {
                        if c < i {
                        } else if c > i {
                            assert(self.assets@[i as int].key@ != self.assets@[c].key@);
                        }
                    }
                }
                return Some(&self.assets[i]);
            }
            i += 1;
        }
        None
    }

    /// Enters `asset` under its key, replacing what was there.
    pub fn insert(&mut self, asset: TypedAsset)
        requires
            old(self).wf(),
        ensures
            final(self).wf(),
            final(self)@ == old(self)@.insert(asset.key@, asset.asset()),
    {
        let ghost k = asset.key@;
        let ghost v = asset.asset();
        let ghost before = self@;
        let mut i: usize = 0;
        while i < self.assets.len()
            invariant
                self.wf(),
                self@ == before,
                before == old(self)@,
                k == asset.key@,
                v == asset.asset(),
                i <= self.assets@.len(),
                forall|j: int| 0 <= j < i ==> self.assets@[j].key@ != k,
            decreases self.assets@.len() - i,
        {
            if self.assets[i].key == asset.key {
                let ghost olds = self.assets@;
                self.assets.set(i, asset);
                proof {
                    let news = self.assets@;
                    assert(news == olds.update(i as int, asset));
                    assert forall|a: int, b: int| 0 <= a < b < news.len()
                        implies news[a].key@ != news[b].key@ by {
                        assert(olds[a].key@ != olds[b].key@);
                    }
                    assert forall|key: Seq<char>| #[trigger] self.has_key(key)
                        == (key == k || before.contains_key(key)) by {
                        if key != k && self.has_key(key) {
                            let c = self.index_of(key);
                            assert(olds[c].key@ == key);
                        }
                        if key != k && before.contains_key(key) {
                            let c = choose|c: int| 0 <= c < olds.len() && olds[c].key@ == key;
                            assert(news[c].key@ == key);
                        }
                        if key == k {
                            assert(news[i as int].key@ == k);
                        }
                    }
                    assert forall|key: Seq<char>| self.has_key(key)
                        implies #[trigger] self@[key] == before.insert(k, v)[key] by {
                        let c = self.index_of(key);
                        if key == k {
                            if c != i as int {
                                if c < i {
                                    assert(news[c].key@ != news[i as int].key@);
                                } else {
                                    assert(news[i as int].key@ != news[c].key@);
                                }
                            }
                        } else {
                            let d = choose|d: int| 0 <= d < olds.len() && olds[d].key@ == key;
                            assert(c == d) by {
                                if c < d {
                                    assert(olds[c].key@ != olds[d].key@);
                                } else if d < c {
                                    assert(olds[d].key@ != olds[c].key@);
                                }
                            }
                        }
                    }
                    assert(self@ =~= before.insert(k, v));
                }
                return;
            }
            i += 1;
        }
        let ghost olds = self.assets@;
        self.assets.push(asset);
        proof {
            let news = self.assets@;
            let n = olds.len() as int;
            assert forall|a: int, b: int| 0 <= a < b < news.len()
                implies news[a].key@ != news[b].key@ by {
                if b < n {
                    assert(olds[a].key@ != olds[b].key@);
                }
            }
            assert forall|key: Seq<char>| #[trigger] self.has_key(key)
                == (key == k || before.contains_key(key)) by {
                if key != k && self.has_key(key) {
                    let c = self.index_of(key);
                    assert(olds[c].key@ == key);
                }
                if before.contains_key(key) {
                    let c = choose|c: int| 0 <= c < olds.len() && olds[c].key@ == key;
                    assert(news[c].key@ == key);
                }
                if key == k {
                    assert(news[n].key@ == k);
                }
            }
            assert forall|key: Seq<char>| self.has_key(key)
                implies #[trigger] self@[key] == before.insert(k, v)[key] by {
                let c = self.index_of(key);
                if key != k {
                    let d = choose|d: int| 0 <= d < olds.len() && olds[d].key@ == key;
                    assert(c == d) by {
                        if c < d {
                            assert(news[c].key@ != news[d].key@);
                        } else if d < c {
                            assert(news[d].key@ != news[c].key@);
                        }
                    }
                }
            }
            assert(self@ =~= before.insert(k, v));
        }
    }
}

} // verus!

verus! {

/// The outcome of loading: the store, and the files left out of it.
pub struct LoadReport {
    pub store: AssetStore,
    pub skipped: Vec<Skipped>,
}

/// Key and error message of each skipped file.
pub open spec fn skipped_view(s: Seq<Skipped>) -> Seq<(Seq<char>, Seq<char>)> {
    s.map_values(|x: Skipped| (x.path@, x.error@))
}

/// Builds the store from the reads of the files under `root`, in the order
/// given: each file read successfully is entered under its root-joined key
/// with the content type of that key; each failed read is reported in
/// `skipped` and left out, and never stops the load.
pub fn read_paths(root: &str, files: Vec<FileRead>) -> (r: LoadReport)
    ensures
        r.store.wf(),
        r.store@ == store_of(root@, reads_of(files@)),
        skipped_view(r.skipped@) == skipped_of(root@, reads_of(files@)),
{
    let ghost all = files@;
    let ghost n = all.len();
    // Reversed, so that popping hands the files out in order.
    let mut pending = files;
    let mut stack: Vec<FileRead> = Vec::new();
    while pending.len() > 0
        invariant
            n == all.len(),
            pending@.len() + stack@.len() == n,
            forall|j: int| 0 <= j < pending@.len() ==> pending@[j] == all[j],
            forall|j: int| 0 <= j < stack@.len() ==> stack@[j] == all[n - 1 - j],
        decreases pending@.len(),
    {
        if let Some(f) = pending.pop() {
            stack.push(f);
        }
    }
    let mut store = AssetStore::new();
    let mut skipped: Vec<Skipped> = Vec::new();
    assert(reads_of(all.take(0)) =~= Seq::<ReadView>::empty());
    assert(skipped_view(skipped@) =~= Seq::empty());
    while stack.len() > 0
        invariant
            n == all.len(),
            stack@.len() <= n,
            forall|j: int| 0 <= j < stack@.len() ==> stack@[j] == all[n - 1 - j],
            store.wf(),
            store@ == store_of(root@, reads_of(all.take(n - stack@.len()))),
            skipped_view(skipped@) == skipped_of(root@, reads_of(all.take(n - stack@.len()))),
        decreases stack@.len(),
    {
        let ghost done = n - stack@.len();
        if let Some(f) = stack.pop() {
            let ghost fv = f@;
            assert(f == all[done]);
            let FileRead { path, contents } = f;
            let key = asset_key(root, path.as_str());
            let ghost prev_skipped = skipped@;
            match contents {
                Ok(bytes) => {
                    let content_type = resolve(key.as_str());
                    store.insert(TypedAsset { key, bytes, content_type });
                },
                Err(error) => {
                    skipped.push(Skipped { path: key, error });
                    assert(skipped_view(skipped@) =~= skipped_view(prev_skipped).push(
                        (joined(root@, fv.0), fv.1->Err_0),
                    ));
                },
            }
            assert(reads_of(all.take(done + 1)).drop_last() =~= reads_of(all.take(done)));
            assert(reads_of(all.take(done + 1)).last() == fv);
        }
    }
    assert(all.take(n as int) =~= all);
    LoadReport { store, skipped }
}

} // verus!

verus! {

/// Each file's path is no greater than the next one's.
pub open spec fn sorted_by_path(s: Seq<FileRead>) -> bool {
    forall|i: int| 0 <= i < s.len() - 1 ==> path_le(#[trigger] s[i].path@, s[i + 1].path@)
}

/// Orders the files by path string, keeping every file.
pub fn sort_by_path(files: Vec<FileRead>) -> (r: Vec<FileRead>)
    ensures
        r@.to_multiset() == files@.to_multiset(),
        sorted_by_path(r@),
{
    broadcast use vstd::seq_lib::group_to_multiset_ensures;

    let ghost all = files@;
    let mut pending = files;
    let mut sorted: Vec<FileRead> = Vec::new();
    assert(sorted@.to_multiset() =~= Multiset::empty());
    while pending.len() > 0
        invariant
            sorted@.to_multiset().add(pending@.to_multiset()) == all.to_multiset(),
            sorted_by_path(sorted@),
        decreases pending@.len(),
    {
        let ghost before = pending@;
        if let Some(f) = pending.pop() {
            assert(before =~= pending@.push(f));
            let mut j: usize = 0;
            while j < sorted.len() && path_le_exec(sorted[j].path.as_str(), f.path.as_str())
                invariant
                    j <= sorted@.len(),
                    j > 0 ==> path_le(sorted@[j - 1].path@, f.path@),
                decreases sorted@.len() - j,
            {
                j += 1;
            }
            let ghost old_sorted = sorted@;
            proof {
                if j < old_sorted.len() {
                    lemma_bytes_le_total(
                        encode_utf8(f.path@),
                        encode_utf8(old_sorted[j as int].path@),
                    );
                }
            }
            sorted.insert(j, f);
            proof {
                let s = sorted@;
                assert(s == old_sorted.insert(j as int, f));
                vstd::seq_lib::to_multiset_insert(old_sorted, j as int, f);
                vstd::seq_lib::to_multiset_build(pending@, f);
                assert(s.to_multiset().add(pending@.to_multiset()) =~= old_sorted.to_multiset().add(
                    before.to_multiset(),
                ));
                assert forall|i: int| 0 <= i < s.len() - 1 implies path_le(
                    #[trigger] s[i].path@,
                    s[i + 1].path@,
                ) by {
                    if i + 1 < j {
                        assert(s[i] == old_sorted[i] && s[i + 1] == old_sorted[i + 1]);
                    } else if i + 1 == j {
                    } else if i == j {
                    } else {
                        assert(s[i] == old_sorted[i - 1] && s[i + 1] == old_sorted[i]);
                    }
                }
            }
        }
    }
    assert(pending@ =~= Seq::empty());
    sorted
}

/// Loads what was found under `root`: orders the files by path, so that
/// loading and its reports go the same way on every run, then builds the
/// store from them.
pub fn load_dir(root: &str, files: Vec<FileRead>) -> (r: LoadReport)
    ensures
        r.store.wf(),
        exists|s: Seq<FileRead>|
            s.to_multiset() == files@.to_multiset() && sorted_by_path(s) && r.store@ == store_of(
                root@,
                reads_of(s),
            ) && skipped_view(r.skipped@) == skipped_of(root@, reads_of(s)),
        distinct_keys(root@, reads_of(files@)) ==> r.store@ == store_of(root@, reads_of(files@)),
{
    let ghost given = files@;
    let sorted = sort_by_path(files);
    proof {
        broadcast use vstd::seq_lib::group_to_multiset_ensures;

        let s = sorted@;
        let ra = reads_of(given);
        let rb = reads_of(s);
        assert forall|x: ReadView| ra.contains(x) <==> rb.contains(x) by {
            if ra.contains(x) {
                let i = choose|i: int| 0 <= i < ra.len() && ra[i] == x;
                assert(given.contains(given[i]));
                assert(s.to_multiset().count(given[i]) > 0);
                let j = choose|j: int| 0 <= j < s.len() && s[j] == given[i];
                assert(rb[j] == x);
            }
            if rb.contains(x) {
                let j = choose|j: int| 0 <= j < rb.len() && rb[j] == x;
                assert(s.contains(s[j]));
                assert(given.to_multiset().count(s[j]) > 0);
                let i = choose|i: int| 0 <= i < given.len() && given[i] == s[j];
                assert(ra[i] == x);
            }
        }
        if distinct_keys(root@, ra) {
            lemma_order_independent(root@, ra, rb);
        }
    }
    read_paths(root, sorted)
}

} // verus!
