use std::collections::HashMap;
use std::hash::Hash;

use vstd::prelude::*;
use vstd::std_specs::hash::{obeys_key_model, spec_keys_iter};
use vstd::std_specs::iter::IteratorSpec;

use crate::error::{IdxError, IdxResult, IndexingError};
use crate::lookup::{keys_of, names_under, texts, Lookup};
use crate::names::{is_valid_name, ObjectName, ObjectNameBuf};

verus! {

broadcast use vstd::std_specs::hash::group_hash_axioms;

/// Picks the arrivals whose key is `k`.
pub open spec fn has_key<K>(k: K) -> spec_fn((K, Seq<char>)) -> bool {
    |p: (K, Seq<char>)| p.0 == k
}

/// The name of an arrival.
pub open spec fn name_of<K>() -> spec_fn((K, Seq<char>)) -> Seq<char> {
    |p: (K, Seq<char>)| p.1
}

/// The names that a run of (key, name) arrivals files under `k`, in order of
/// arrival.
pub open spec fn bucket<K>(arrivals: Seq<(K, Seq<char>)>, k: K) -> Seq<Seq<char>> {
    arrivals.filter(has_key(k)).map_values(name_of())
}

/// `k` is the key of some arrival.
pub open spec fn arrived<K>(arrivals: Seq<(K, Seq<char>)>, k: K) -> bool {
    exists|i: int| 0 <= i < arrivals.len() && (#[trigger] arrivals[i]).0 == k
}

/// The index that a run of (key, name) arrivals builds: every key that
/// arrived, with the names filed under it.
pub open spec fn index_of<K>(arrivals: Seq<(K, Seq<char>)>) -> Map<K, Seq<Seq<char>>> {
    Map::new(|k: K| arrived(arrivals, k), |k: K| bucket(arrivals, k))
}

/// Every keymap outcome is a success.
pub open spec fn all_succeeded<T>(results: Seq<(Result<T, IndexingError>, ObjectNameBuf)>) -> bool {
    forall|i: int| 0 <= i < results.len() ==> (#[trigger] results[i]).0 is Ok
}

/// The outcome at `i` is the first that failed.
pub open spec fn is_first_failure<T>(
    results: Seq<(Result<T, IndexingError>, ObjectNameBuf)>,
    i: int,
) -> bool {
    &&& 0 <= i < results.len()
    &&& results[i].0 is Err
    &&& forall|j: int| 0 <= j < i ==> (#[trigger] results[j]).0 is Ok
}

/// The error that the first failed outcome carries, wrapped as the index
/// build reports it.
pub open spec fn first_failure_is<T>(
    results: Seq<(Result<T, IndexingError>, ObjectNameBuf)>,
    e: IdxError,
) -> bool {
    exists|i: int|
        is_first_failure(results, i) && e == IdxError::IndexingError(
            (#[trigger] results[i]).0->Err_0,
        )
}

/// The (key, name) arrivals of single-key outcomes that all succeeded.
pub open spec fn keyed<K>(results: Seq<(Result<K, IndexingError>, ObjectNameBuf)>) -> Seq<
    (K, Seq<char>),
> {
    results.map_values(|r: (Result<K, IndexingError>, ObjectNameBuf)| (r.0->Ok_0, r.1@))
}

/// The arrivals for one object with keys `ks` and name `n`: one per key, in
/// order.
pub open spec fn fan_out<K>(ks: Seq<K>, n: Seq<char>) -> Seq<(K, Seq<char>)> {
    ks.map_values(|k: K| (k, n))
}

/// The arrivals of a run of objects, each given as its keys and its name.
pub open spec fn spread<K>(objects: Seq<(Seq<K>, Seq<char>)>) -> Seq<(K, Seq<char>)>
    decreases objects.len(),
{
    if objects.len() == 0 {
        Seq::empty()
    } else {
        spread(objects.drop_last()) + fan_out(objects.last().0, objects.last().1)
    }
}

/// The (keys, name) pairs of multi-key outcomes that all succeeded.
pub open spec fn multi_keyed<K>(results: Seq<(Result<Vec<K>, IndexingError>, ObjectNameBuf)>) -> Seq<
    (Seq<K>, Seq<char>),
> {
    results.map_values(|r: (Result<Vec<K>, IndexingError>, ObjectNameBuf)| (r.0->Ok_0@, r.1@))
}

/// The texts of a list of owned names.
pub open spec fn owned_texts(v: Seq<ObjectNameBuf>) -> Seq<Seq<char>> {
    v.map_values(|n: ObjectNameBuf| n@)
}

/// The texts of a list of strings.
pub open spec fn string_texts(v: Seq<String>) -> Seq<Seq<char>> {
    v.map_values(|s: String| s@)
}

/// Takes an owned, validated copy of each name of a store's listing, in
/// order. An invalid name means the store misbehaves: it aborts the whole
/// listing.
pub fn validate_listing(listing: &Vec<String>) -> (r: IdxResult<Vec<ObjectNameBuf>>)
    ensures
        r is Ok <==> forall|i: int| 0 <= i < listing.len() ==> is_valid_name(#[trigger] listing@[i]@),
        r matches Ok(v) ==> owned_texts(v@) == string_texts(listing@),
        r matches Err(e) ==> e is StorageError,
{
    let mut names: Vec<ObjectNameBuf> = Vec::with_capacity(listing.len());
    for i in 0..listing.len()
        invariant
            forall|j: int| 0 <= j < i ==> is_valid_name(#[trigger] listing@[j]@),
            owned_texts(names@) == string_texts(listing@.take(i as int)),
    {
        let name = ObjectNameBuf::from_str(listing[i].as_str())?;
        names.push(name);
        assert(string_texts(listing@.take(i + 1)) =~= string_texts(listing@.take(i as int)).push(
            listing@[i as int]@,
        ));
        assert(owned_texts(names@) =~= string_texts(listing@.take(i + 1)));
    }
    assert(listing@.take(listing.len() as int) =~= listing@);
    Ok(names)
}

/// An index over a store: each key with the names of the objects that the
/// keymap gave that key, in the order in which the outcomes arrived.
pub struct HashTableIndexer<K: Eq + Hash> {
    map: HashMap<K, Vec<ObjectNameBuf>>,
}

impl<K: Eq + Hash> View for HashTableIndexer<K> {
    type V = Map<K, Seq<Seq<char>>>;

    closed spec fn view(&self) -> Map<K, Seq<Seq<char>>> {
        self.map@.map_values(|v: Vec<ObjectNameBuf>| v@.map_values(|n: ObjectNameBuf| n@))
    }
}

proof fn lemma_bucket_absent<K>(arrivals: Seq<(K, Seq<char>)>, k: K)
    requires
        !arrived(arrivals, k),
    ensures
        bucket(arrivals, k) == Seq::<Seq<char>>::empty(),
{
    let f = arrivals.filter(has_key(k));
    if f.len() > 0 {
        arrivals.lemma_filter_pred(has_key(k), 0);
        arrivals.lemma_filter_contains_rev(has_key(k), f[0]);
    }
    assert(bucket(arrivals, k) =~= Seq::<Seq<char>>::empty());
}

proof fn lemma_bucket_present<K>(arrivals: Seq<(K, Seq<char>)>, k: K)
    requires
        arrived(arrivals, k),
    ensures
        bucket(arrivals, k).len() > 0,
{
    let i = choose|i: int| 0 <= i < arrivals.len() && (#[trigger] arrivals[i]).0 == k;
    arrivals.lemma_filter_contains(has_key(k), i);
}

/// Filing one more arrival appends its name to its key's bucket.
proof fn lemma_index_of_push<K>(arrivals: Seq<(K, Seq<char>)>, k: K, n: Seq<char>)
    ensures
        index_of(arrivals.push((k, n))) == index_of(arrivals).insert(
            k,
            names_under(index_of(arrivals), k).push(n),
        ),
{
    let more = arrivals.push((k, n));
    assert forall|k2: K| #[trigger] bucket(more, k2) == if k2 == k {
        bucket(arrivals, k2).push(n)
    } else {
        bucket(arrivals, k2)
    } by {
        arrivals.lemma_filter_push((k, n), has_key(k2));
        if k2 == k {
            assert(arrivals.filter(has_key(k2)).push((k, n)).map_values(name_of()) =~= bucket(
                arrivals,
                k2,
            ).push(n));
        }
    }
    assert forall|k2: K| #[trigger] arrived(more, k2) == (arrived(arrivals, k2) || k2 == k) by {
        if arrived(arrivals, k2) {
            let i = choose|i: int| 0 <= i < arrivals.len() && (#[trigger] arrivals[i]).0 == k2;
            assert(more[i] == arrivals[i]);
        }
        if k2 == k {
            assert(more[arrivals.len() as int].0 == k);
        }
        if arrived(more, k2) && k2 != k {
            let i = choose|i: int| 0 <= i < more.len() && (#[trigger] more[i]).0 == k2;
            assert(arrivals[i] == more[i]);
        }
    }
    if !arrived(arrivals, k) {
        lemma_bucket_absent(arrivals, k);
    }
    assert(index_of(more) =~= index_of(arrivals).insert(
        k,
        names_under(index_of(arrivals), k).push(n),
    ));
}

/// No key of a built index holds an empty bucket.
proof fn lemma_buckets_nonempty<K>(arrivals: Seq<(K, Seq<char>)>)
    ensures
        forall|k: K| #[trigger]
            index_of(arrivals).contains_key(k) ==> index_of(arrivals)[k].len() > 0,
{
    assert forall|k: K| #[trigger]
        index_of(arrivals).contains_key(k) implies index_of(arrivals)[k].len() > 0 by {
        lemma_bucket_present(arrivals, k);
    }
}

/// The keys of a run of arrivals, in order.
pub open spec fn arrival_keys<K>(arrivals: Seq<(K, Seq<char>)>) -> Seq<K> {
    arrivals.map_values(|p: (K, Seq<char>)| p.0)
}

/// A bucket holds a name exactly when that name arrived with that key.
proof fn lemma_bucket_contains<K>(arrivals: Seq<(K, Seq<char>)>, k: K, n: Seq<char>)
    ensures
        bucket(arrivals, k).contains(n) <==> arrivals.contains((k, n)),
{
    let f = arrivals.filter(has_key(k));
    if bucket(arrivals, k).contains(n) {
        let x = choose|x: int| 0 <= x < bucket(arrivals, k).len() && bucket(arrivals, k)[x] == n;
        arrivals.lemma_filter_pred(has_key(k), x);
        arrivals.lemma_filter_contains_rev(has_key(k), f[x]);
        assert(f[x] == (k, n));
    }
    if arrivals.contains((k, n)) {
        let i = choose|i: int| 0 <= i < arrivals.len() && arrivals[i] == (k, n);
        arrivals.lemma_filter_contains(has_key(k), i);
        let x = choose|x: int| 0 <= x < f.len() && f[x] == arrivals[i];
        assert(bucket(arrivals, k)[x] == n);
    }
}

/// Every object lands in the index: the bucket of its key holds its name.
pub proof fn lemma_index_complete<K>(arrivals: Seq<(K, Seq<char>)>)
    ensures
        forall|i: int|
            0 <= i < arrivals.len() ==> {
                let (k, n) = #[trigger] arrivals[i];
                &&& index_of(arrivals).contains_key(k)
                &&& index_of(arrivals)[k].contains(n)
            },
{
    assert forall|i: int| 0 <= i < arrivals.len() implies {
        let (k, n) = #[trigger] arrivals[i];
        &&& index_of(arrivals).contains_key(k)
        &&& index_of(arrivals)[k].contains(n)
    } by {
        let (k, n) = arrivals[i];
        assert(arrivals.contains((k, n)));
        lemma_bucket_contains(arrivals, k, n);
    }
}

/// Objects that share a key share its bucket: it holds exactly their names,
/// one entry per object.
pub proof fn lemma_shared_key<K>(arrivals: Seq<(K, Seq<char>)>, k: K)
    ensures
        names_under(index_of(arrivals), k).len() == arrivals.filter(has_key(k)).len(),
        forall|n: Seq<char>| #[trigger]
            names_under(index_of(arrivals), k).contains(n) <==> arrivals.contains((k, n)),
{
    if !arrived(arrivals, k) {
        lemma_bucket_absent(arrivals, k);
    }
    assert forall|n: Seq<char>| #[trigger]
        names_under(index_of(arrivals), k).contains(n) <==> arrivals.contains((k, n)) by {
        lemma_bucket_contains(arrivals, k, n);
        if arrivals.contains((k, n)) {
            let i = choose|i: int| 0 <= i < arrivals.len() && arrivals[i] == (k, n);
            assert(arrivals[i].0 == k);
        }
    }
}

/// With pairwise distinct keys, the index holds one key per object and each
/// bucket holds that object's name alone: N objects give N entries.
pub proof fn lemma_distinct_keys<K>(arrivals: Seq<(K, Seq<char>)>)
    requires
        arrival_keys(arrivals).no_duplicates(),
    ensures
        index_of(arrivals).dom() == arrival_keys(arrivals).to_set(),
        index_of(arrivals).dom().len() == arrivals.len(),
        forall|i: int|
            0 <= i < arrivals.len() ==> index_of(arrivals)[(#[trigger] arrivals[i]).0] == seq![
                arrivals[i].1,
            ],
    decreases arrivals.len(),
{
    let ks = arrival_keys(arrivals);
    ks.unique_seq_to_set();
    if arrivals.len() == 0 {
        assert(index_of(arrivals).dom() =~= ks.to_set());
    } else {
        let rest = arrivals.drop_last();
        let (k, n) = arrivals.last();
        assert(arrival_keys(rest) =~= ks.drop_last());
        lemma_distinct_keys(rest);
        assert(rest.push((k, n)) =~= arrivals);
        lemma_index_of_push(rest, k, n);
        assert(!index_of(rest).dom().contains(k)) by {
            if arrival_keys(rest).to_set().contains(k) {
                let j = choose|j: int| 0 <= j < rest.len() && arrival_keys(rest)[j] == k;
                assert(ks[j] == ks[arrivals.len() - 1]);
            }
        }
        assert(ks =~= arrival_keys(rest).push(k));
        assert forall|x: K| #[trigger] ks.to_set().contains(x) <==> arrival_keys(
            rest,
        ).to_set().insert(k).contains(x) by {
            if ks.contains(x) && x != k {
                let j = choose|j: int| 0 <= j < ks.len() && ks[j] == x;
                assert(arrival_keys(rest)[j] == x);
            }
            if arrival_keys(rest).contains(x) {
                let j = choose|j: int| 0 <= j < rest.len() && arrival_keys(rest)[j] == x;
                assert(ks[j] == x);
            }
            if x == k {
                assert(ks[arrivals.len() - 1] == k);
            }
        }
        assert(index_of(arrivals).dom() =~= ks.to_set());
        assert forall|i: int| 0 <= i < arrivals.len() implies index_of(arrivals)[(
        #[trigger] arrivals[i]).0] == seq![arrivals[i].1] by {
            if i < arrivals.len() - 1 {
                assert(arrivals[i] == rest[i]);
                assert(ks[i] != ks[arrivals.len() - 1]);
            } else {
                assert(Seq::<Seq<char>>::empty().push(n) =~= seq![n]);
            }
        }
    }
}

/// The keys whose buckets hold the name `n`.
pub open spec fn buckets_holding<K>(m: Map<K, Seq<Seq<char>>>, n: Seq<char>) -> Set<K> {
    Set::new(|k: K| m.contains_key(k) && m[k].contains(n))
}

/// An arrival of the spread pairs a key and a name of one same object.
proof fn lemma_spread_contains<K>(objects: Seq<(Seq<K>, Seq<char>)>, k: K, n: Seq<char>)
    ensures
        spread(objects).contains((k, n)) <==> exists|j: int|
            0 <= j < objects.len() && (#[trigger] objects[j]).1 == n && objects[j].0.contains(k),
    decreases objects.len(),
{
    if objects.len() > 0 {
        let rest = objects.drop_last();
        let last = objects.len() - 1;
        let (ks, m) = objects.last();
        lemma_spread_contains(rest, k, n);
        let tail = fan_out(ks, m);
        let whole = spread(objects);
        let front = spread(rest);
        assert(whole == front + tail);
        if whole.contains((k, n)) {
            let x = choose|x: int| 0 <= x < whole.len() && whole[x] == (k, n);
            if x < front.len() {
                assert(front[x] == (k, n));
                assert(front.contains((k, n)));
                let j = choose|j: int|
                    0 <= j < rest.len() && (#[trigger] rest[j]).1 == n && rest[j].0.contains(k);
                assert(objects[j] == rest[j]);
            } else {
                assert(tail[x - front.len()] == (k, n));
                assert(ks[x - front.len()] == k);
                assert(objects[last].1 == n && objects[last].0.contains(k));
            }
        }
        if exists|j: int|
            0 <= j < objects.len() && (#[trigger] objects[j]).1 == n && objects[j].0.contains(k) {
            let j = choose|j: int|
                0 <= j < objects.len() && (#[trigger] objects[j]).1 == n && objects[j].0.contains(k);
            if j < last {
                assert(rest[j] == objects[j]);
                let x = choose|x: int| 0 <= x < front.len() && front[x] == (k, n);
                assert(whole[x] == (k, n));
            } else {
                let x = choose|x: int| 0 <= x < ks.len() && ks[x] == k;
                assert(tail[x] == (k, n));
                assert(whole[front.len() + x] == (k, n));
            }
        }
    }
}

/// An object whose keymap gave K distinct keys has its name in exactly K
/// buckets, one per key, provided no other object bears its name.
pub proof fn lemma_fan_out<K>(objects: Seq<(Seq<K>, Seq<char>)>, i: int)
    requires
        0 <= i < objects.len(),
        objects[i].0.no_duplicates(),
        forall|j: int| 0 <= j < objects.len() && j != i ==> (#[trigger] objects[j]).1 != objects[i].1,
    ensures
        buckets_holding(index_of(spread(objects)), objects[i].1) == objects[i].0.to_set(),
        buckets_holding(index_of(spread(objects)), objects[i].1).len() == objects[i].0.len(),
{
    let a = spread(objects);
    let (ks, n) = objects[i];
    assert forall|k: K| #[trigger] buckets_holding(index_of(a), n).contains(k) <==> ks.to_set().contains(k) by {
        lemma_bucket_contains(a, k, n);
        lemma_spread_contains(objects, k, n);
        if ks.contains(k) {
            let x = choose|x: int| 0 <= x < a.len() && a[x] == (k, n);
            assert(arrived(a, k));
        }
    }
    assert(buckets_holding(index_of(a), n) =~= ks.to_set());
    ks.unique_seq_to_set();
}

/// One failed keymap outcome is enough for the whole build to fail.
pub proof fn lemma_failure_aborts<K: Eq + Hash>(
    results: Vec<(Result<K, IndexingError>, ObjectNameBuf)>,
    i: int,
    r: IdxResult<HashTableIndexer<K>>,
)
    requires
        0 <= i < results.len(),
        results@[i].0 is Err,
        call_ensures(HashTableIndexer::<K>::from_results, (results,), r),
    ensures
        r is Err,
{
}

/// One failed multi-key outcome is enough for the whole build to fail.
pub proof fn lemma_multi_failure_aborts<K: Eq + Hash>(
    results: Vec<(Result<Vec<K>, IndexingError>, ObjectNameBuf)>,
    i: int,
    r: IdxResult<HashTableIndexer<K>>,
)
    requires
        0 <= i < results.len(),
        results@[i].0 is Err,
        call_ensures(HashTableIndexer::<K>::from_multi_results, (results,), r),
    ensures
        r is Err,
{
}

impl<K: Eq + Hash> HashTableIndexer<K> {
    /// The key type hashes and compares as a map key must, and no key holds
    /// an empty bucket.
    pub open spec fn wf(&self) -> bool {
        &&& obeys_key_model::<K>()
        &&& forall|k: K| #[trigger] self@.contains_key(k) ==> self@[k].len() > 0
    }

    fn file_under(&mut self, key: K, name: ObjectNameBuf)
        requires
            obeys_key_model::<K>(),
        ensures
            final(self)@ == old(self)@.insert(key, names_under(old(self)@, key).push(name@)),
    {
        let ghost before = self@;
        let ghost old_map = self.map@;
        match self.map.remove(&key) {
            Some(names) => {
                let mut names = names;
                assert(names@.map_values(|n: ObjectNameBuf| n@) == before[key]);
                names.push(name);
                assert(names@.map_values(|n: ObjectNameBuf| n@) =~= before[key].push(name@));
                self.map.insert(key, names);
                assert(self.map@ =~= old_map.insert(key, names));
            },
            None => {
                let mut names = Vec::new();
                names.push(name);
                assert(names@.map_values(|n: ObjectNameBuf| n@) =~= Seq::empty().push(name@));
                self.map.insert(key, names);
                assert(self.map@ =~= old_map.insert(key, names));
            },
        }
        assert(self@ =~= before.insert(key, names_under(before, key).push(name@)));
    }

    /// Builds the index from one keymap outcome per object, in order of
    /// arrival. The first failed outcome aborts the build.
    pub fn from_results(results: Vec<(Result<K, IndexingError>, ObjectNameBuf)>) -> (r: IdxResult<
        Self,
    >)
        requires
            obeys_key_model::<K>(),
        ensures
            r is Ok <==> all_succeeded(results@),
            r matches Ok(ix) ==> ix.wf() && ix@ == index_of(keyed(results@)),
            r matches Err(e) ==> first_failure_is(results@, e),
    {
        let ghost all = results@;
        let mut ix = Self { map: HashMap::new() };
        proof {
            assert(ix@ =~= index_of(keyed(all.take(0))));
        }
        for item in it: results.into_iter()
            invariant
                it.seq() == all,
                obeys_key_model::<K>(),
                all_succeeded(all.take(it.index())),
                ix@ == index_of(keyed(all.take(it.index()))),
        {
            let ghost i = it.index();
            let (res, name) = item;
            match res {
                Ok(key) => {
                    proof {
                        lemma_index_of_push(keyed(all.take(i)), key, name@);
                        assert(keyed(all.take(i + 1)) =~= keyed(all.take(i)).push((key, name@)));
                    }
                    ix.file_under(key, name);
                    proof {
                        assert forall|j: int| 0 <= j < i + 1 implies (#[trigger] all.take(
                            i + 1,
                        )[j]).0 is Ok by {
                            if j < i {
                                assert(all.take(i)[j] == all.take(i + 1)[j]);
                            }
                        }
                    }
                },
                Err(e) => {
                    proof {
                        assert forall|j: int| 0 <= j < i implies (#[trigger] all[j]).0 is Ok by {
                            assert(all.take(i)[j] == all[j]);
                        }
                        assert(is_first_failure(all, i));
                    }
                    return Err(IdxError::IndexingError(e));
                },
            }
        }
        proof {
            assert(all.take(all.len() as int) =~= all);
            lemma_buckets_nonempty(keyed(all));
        }
        Ok(ix)
    }

    /// Builds the index from one multi-key outcome per object, in order of
    /// arrival: the object's name is filed under each of its keys. The first
    /// failed outcome aborts the build.
    pub fn from_multi_results(
        results: Vec<(Result<Vec<K>, IndexingError>, ObjectNameBuf)>,
    ) -> (r: IdxResult<Self>)
        requires
            obeys_key_model::<K>(),
        ensures
            r is Ok <==> all_succeeded(results@),
            r matches Ok(ix) ==> ix.wf() && ix@ == index_of(spread(multi_keyed(results@))),
            r matches Err(e) ==> first_failure_is(results@, e),
    {
        let ghost all = results@;
        let mut ix = Self { map: HashMap::new() };
        proof {
            assert(ix@ =~= index_of(spread(multi_keyed(all.take(0)))));
        }
        for item in it: results.into_iter()
            invariant
                it.seq() == all,
                obeys_key_model::<K>(),
                all_succeeded(all.take(it.index())),
                ix@ == index_of(spread(multi_keyed(all.take(it.index())))),
        {
            let ghost i = it.index();
            let (res, name) = item;
            match res {
                Ok(keys) => {
                    let ghost done = spread(multi_keyed(all.take(i)));
                    let ghost ks = keys@;
                    proof {
                        assert(done + fan_out(ks.take(0), name@) =~= done);
                    }
                    for key in kit: keys.into_iter()
                        invariant
                            kit.seq() == ks,
                            obeys_key_model::<K>(),
                            ix@ == index_of(done + fan_out(ks.take(kit.index()), name@)),
                    {
                        let ghost j = kit.index();
                        proof {
                            lemma_index_of_push(done + fan_out(ks.take(j), name@), key, name@);
                            assert(done + fan_out(ks.take(j + 1), name@) =~= (done + fan_out(
                                ks.take(j),
                                name@,
                            )).push((key, name@)));
                        }
                        ix.file_under(key, name.copy());
                    }
                    proof {
                        assert(ks.take(ks.len() as int) =~= ks);
                        assert(multi_keyed(all.take(i + 1)).drop_last() =~= multi_keyed(
                            all.take(i),
                        ));
                        assert(multi_keyed(all.take(i + 1)).last() == (ks, name@));
                        assert forall|j: int| 0 <= j < i + 1 implies (#[trigger] all.take(
                            i + 1,
                        )[j]).0 is Ok by {
                            if j < i {
                                assert(all.take(i)[j] == all.take(i + 1)[j]);
                            }
                        }
                    }
                },
                Err(e) => {
                    proof {
                        assert forall|j: int| 0 <= j < i implies (#[trigger] all[j]).0 is Ok by {
                            assert(all.take(i)[j] == all[j]);
                        }
                        assert(is_first_failure(all, i));
                    }
                    return Err(IdxError::IndexingError(e));
                },
            }
        }
        proof {
            assert(all.take(all.len() as int) =~= all);
            lemma_buckets_nonempty(spread(multi_keyed(all)));
        }
        Ok(ix)
    }
}

impl<'a, K: 'a + Eq + Hash> Lookup<'a> for HashTableIndexer<K> {
    type Key = K;

    open spec fn contents(&self) -> Map<K, Seq<Seq<char>>> {
        self@
    }

    open spec fn ready(&self) -> bool {
        self.wf()
    }

    open spec fn infallible(&self) -> bool {
        true
    }

    fn get(&'a self, key: &K) -> (r: IdxResult<Vec<ObjectName<'a>>>) {
        match self.map.get(key) {
            Some(res) => {
                let mut rv: Vec<ObjectName<'a>> = Vec::with_capacity(res.len());
                for i in 0..res.len()
                    invariant
                        texts(rv@) == res@.take(i as int).map_values(|n: ObjectNameBuf| n@),
                {
                    rv.push(res[i].name());
                    assert(res@.take(i + 1).map_values(|n: ObjectNameBuf| n@) =~= res@.take(
                        i as int,
                    ).map_values(|n: ObjectNameBuf| n@).push(res@[i as int]@));
                    assert(texts(rv@) =~= res@.take(i + 1).map_values(|n: ObjectNameBuf| n@));
                }
                assert(res@.take(res@.len() as int) =~= res@);
                Ok(rv)
            },
            None => {
                let rv: Vec<ObjectName<'a>> = Vec::new();
                assert(texts(rv@) =~= Seq::empty());
                Ok(rv)
            },
        }
    }

    fn keys(&'a self) -> (r: Vec<&'a K>) {
        let mut rv: Vec<&'a K> = Vec::new();
        let ghost all = spec_keys_iter(&self.map).remaining();
        for k in it: self.map.keys()
            invariant
                it.seq() == all,
                rv@ == all.take(it.index()),
        {
            rv.push(k);
        }
        proof {
            assert(all.take(all.len() as int) =~= all);
            assert(keys_of(rv@) =~= all.unref());
            assert(self@.dom() =~= self.map@.dom());
        }
        rv
    }
}

} // verus!
