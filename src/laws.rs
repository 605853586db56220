use vstd::prelude::*;
use crate::content_type::mime_essence;
use crate::paths::{joined, request_key, strip_separator, SEPARATOR};
use crate::request::{response_for, Status};
use crate::store::{store_of, AssetView, ReadView};

verus! {

/// Entry `i` of `files` was read successfully and has key `k` under `root`.
pub open spec fn ok_key_at(root: Seq<char>, files: Seq<ReadView>, i: int, k: Seq<char>) -> bool {
    0 <= i < files.len() && files[i].1 is Ok && joined(root, files[i].0) == k
}

/// What entry `i` of `files` puts in the store under key `k`.
pub open spec fn entry_value(files: Seq<ReadView>, i: int, k: Seq<char>) -> AssetView {
    (files[i].1->Ok_0, mime_essence(k))
}

/// No two entries of `files` join onto `root` as the same key.
pub open spec fn distinct_keys(root: Seq<char>, files: Seq<ReadView>) -> bool {
    forall|i: int, j: int|
        0 <= i < files.len() && 0 <= j < files.len() && i != j ==> joined(root, files[i].0)
            != joined(root, files[j].0)
}

/// The number of entries of `files` read successfully.
pub open spec fn ok_count(files: Seq<ReadView>) -> nat
    decreases files.len(),
{
    if files.len() == 0 {
        0
    } else {
        ok_count(files.drop_last()) + if files.last().1 is Ok {
            1nat
        } else {
            0nat
        }
    }
}

/// The store holds a key exactly when some successful read has that key,
/// and what it holds there is the bytes of such a read with the content
/// type of the key.
pub proof fn lemma_store_entries(root: Seq<char>, files: Seq<ReadView>)
    ensures
        forall|k: Seq<char>|
            #[trigger] store_of(root, files).contains_key(k) <==> exists|i: int|
                ok_key_at(root, files, i, k),
        forall|k: Seq<char>|
            #[trigger] store_of(root, files).contains_key(k) ==> exists|i: int|
                ok_key_at(root, files, i, k) && store_of(root, files)[k] == entry_value(
                    files,
                    i,
                    k,
                ),
    decreases files.len(),
{
    if files.len() > 0 {
        let p = files.drop_last();
        let n = p.len() as int;
        lemma_store_entries(root, p);
        let m = store_of(root, files);
        assert forall|k: Seq<char>| #[trigger] m.contains_key(k) implies exists|i: int|
            ok_key_at(root, files, i, k) && m[k] == entry_value(files, i, k) by {
            if ok_key_at(root, files, n, k) {
                assert(m[k] == entry_value(files, n, k));
            } else {
                let i = choose|i: int| ok_key_at(root, p, i, k) && store_of(root, p)[k] == entry_value(p, i, k);
                assert(p[i] == files[i]);
                assert(ok_key_at(root, files, i, k) && m[k] == entry_value(files, i, k));
            }
        }
        assert forall|k: Seq<char>| (exists|i: int| ok_key_at(root, files, i, k)) implies #[trigger] m.contains_key(k) by {
            let i = choose|i: int| ok_key_at(root, files, i, k);
            assert(files.last() == files[n]);
            if i < n {
                assert(p[i] == files[i]);
                assert(ok_key_at(root, p, i, k));
                assert(store_of(root, p).contains_key(k));
            }
        }
    }
}

/// With distinct keys, each successful read is in the store under its key
/// with its bytes and the content type of the key, and each failed read is
/// absent: a failure never takes another file with it.
pub proof fn lemma_completeness(root: Seq<char>, files: Seq<ReadView>)
    requires
        distinct_keys(root, files),
    ensures
        forall|i: int|
            0 <= i < files.len() && files[i].1 is Ok ==> {
                let k = #[trigger] joined(root, files[i].0);
                store_of(root, files).contains_key(k) && store_of(root, files)[k] == entry_value(files, i, k)
            },
        forall|i: int|
            0 <= i < files.len() && files[i].1 is Err ==> !store_of(root, files).contains_key(
                #[trigger] joined(root, files[i].0),
            ),
{
    lemma_store_entries(root, files);
    let m = store_of(root, files);
    assert forall|i: int| 0 <= i < files.len() && files[i].1 is Ok implies {
        let k = #[trigger] joined(root, files[i].0);
        m.contains_key(k) && m[k] == entry_value(files, i, k)
    } by {
        let k = joined(root, files[i].0);
        assert(ok_key_at(root, files, i, k));
        assert(m.contains_key(k));
        let j = choose|j: int| ok_key_at(root, files, j, k) && m[k] == entry_value(files, j, k);
        assert(j == i);
    }
    assert forall|i: int| 0 <= i < files.len() && files[i].1 is Err implies !m.contains_key(
        #[trigger] joined(root, files[i].0),
    ) by {
        let k = joined(root, files[i].0);
        if m.contains_key(k) {
            let j = choose|j: int| ok_key_at(root, files, j, k);
            assert(j != i);
        }
    }
}

/// With distinct keys, the order in which the files come does not change the
/// store: any two sequences of the same reads build the same store.
pub proof fn lemma_order_independent(root: Seq<char>, a: Seq<ReadView>, b: Seq<ReadView>)
    requires
        distinct_keys(root, a),
        forall|x: ReadView| a.contains(x) <==> b.contains(x),
    ensures
        store_of(root, a) == store_of(root, b),
{
    lemma_store_entries(root, a);
    lemma_store_entries(root, b);
    let ma = store_of(root, a);
    let mb = store_of(root, b);
    assert forall|k: Seq<char>| ma.contains_key(k) <==> mb.contains_key(k) by {
        if ma.contains_key(k) {
            let i = choose|i: int| ok_key_at(root, a, i, k);
            assert(a.contains(a[i]));
            let j = choose|j: int| 0 <= j < b.len() && b[j] == a[i];
            assert(ok_key_at(root, b, j, k));
        }
        if mb.contains_key(k) {
            let j = choose|j: int| ok_key_at(root, b, j, k);
            assert(b.contains(b[j]));
            let i = choose|i: int| 0 <= i < a.len() && a[i] == b[j];
            assert(ok_key_at(root, a, i, k));
        }
    }
    assert forall|k: Seq<char>| ma.contains_key(k) implies ma[k] == mb[k] by {
        let i = choose|i: int| ok_key_at(root, a, i, k) && ma[k] == entry_value(a, i, k);
        let j = choose|j: int| ok_key_at(root, b, j, k) && mb[k] == entry_value(b, j, k);
        assert(b.contains(b[j]));
        let i2 = choose|i2: int| 0 <= i2 < a.len() && a[i2] == b[j];
        assert(ok_key_at(root, a, i2, k));
        assert(i2 == i);
    }
    assert(ma =~= mb);
}

/// With distinct keys, the store holds exactly one entry per successful
/// read: `n` readable files and any number of unreadable ones give `n`
/// entries.
pub proof fn lemma_store_size(root: Seq<char>, files: Seq<ReadView>)
    requires
        distinct_keys(root, files),
    ensures
        store_of(root, files).dom().finite(),
        store_of(root, files).len() == ok_count(files),
    decreases files.len(),
{
    if files.len() > 0 {
        let p = files.drop_last();
        let n = p.len() as int;
        assert(distinct_keys(root, p)) by {
            assert forall|i: int, j: int| 0 <= i < p.len() && 0 <= j < p.len() && i != j
                implies joined(root, p[i].0) != joined(root, p[j].0) by {
                assert(p[i] == files[i] && p[j] == files[j]);
            }
        }
        lemma_store_size(root, p);
        if files.last().1 is Ok {
            let k = joined(root, files[n].0);
            lemma_store_entries(root, p);
            if store_of(root, p).contains_key(k) {
                let i = choose|i: int| ok_key_at(root, p, i, k);
                assert(p[i] == files[i]);
            }
        }
    }
}

/// A request for `/` followed by the key's path relative to the root finds
/// that key's asset, and a request whose key is not in the store gets
/// not-found with no body and no content type.
pub proof fn lemma_lookup(store: Map<Seq<char>, AssetView>, root: Seq<char>, rel: Seq<char>, url: Seq<char>)
    ensures
        store.contains_key(joined(root, rel)) ==> response_for(
            store,
            root,
            seq![SEPARATOR] + rel,
        ) == (Status::Found, Some(store[joined(root, rel)].0), Some(store[joined(root, rel)].1)),
        !store.contains_key(request_key(root, url)) ==> response_for(store, root, url) == (
            Status::NotFound,
            None::<Seq<u8>>,
            None::<Seq<char>>,
        ),
{
    assert(strip_separator(seq![SEPARATOR] + rel) =~= rel);
}

} // verus!
