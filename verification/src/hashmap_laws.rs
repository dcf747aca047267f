//! What holds of the buckets of a chained map over runs of insertions.

use vstd::prelude::*;
use crate::hashmap::{
    all_pairs, bucket_of, buckets_wf, chain_pairs, chain_put, empty_buckets, find_hash, inserted,
    key_hash, lemma_find_hash, lemma_find_hash_bound, lemma_no_hash, pairs_from, Entry,
    BUCKET_COUNT,
};

verus! {

/// The entry that an insertion of `item` creates.
pub open spec fn entry_for(item: (Seq<char>, u32)) -> Entry {
    Entry { key: item.0, val: item.1, hash: key_hash(item.0) }
}

/// Whether some entry of the buckets has hash `hash`.
pub open spec fn has_hash(buckets: Seq<Seq<Entry>>, hash: u64) -> bool {
    find_hash(buckets[bucket_of(hash)], hash) < buckets[bucket_of(hash)].len()
}

/// The buckets after the keys of `items` are given their values, in order.
pub open spec fn inserted_all(buckets: Seq<Seq<Entry>>, items: Seq<(Seq<char>, u32)>) -> Seq<
    Seq<Entry>,
>
    decreases items.len(),
{
    if items.len() == 0 {
        buckets
    } else {
        inserted(inserted_all(buckets, items.drop_last()), items.last().0, items.last().1)
    }
}

/// No two keys of `items` have the same hash.
pub open spec fn distinct_hashes(items: Seq<(Seq<char>, u32)>) -> bool {
    forall|i: int, j: int|
        0 <= i < j < items.len() ==> key_hash((#[trigger] items[i]).0) != key_hash(
            (#[trigger] items[j]).0,
        )
}

/// The entries for those of `items` that belong in bucket `b`, the most
/// recent first.
pub open spec fn filed(items: Seq<(Seq<char>, u32)>, b: int) -> Seq<Entry>
    decreases items.len(),
{
    if items.len() == 0 {
        Seq::empty()
    } else if bucket_of(key_hash(items.last().0)) == b {
        seq![entry_for(items.last())] + filed(items.drop_last(), b)
    } else {
        filed(items.drop_last(), b)
    }
}

/// An insertion keeps the buckets well formed. It changes one bucket: where
/// the key's hash is there already, the number of entries stays; otherwise
/// it grows by one.
pub proof fn lemma_inserted(buckets: Seq<Seq<Entry>>, key: Seq<char>, val: u32)
    requires
        buckets_wf(buckets),
    ensures
        buckets_wf(inserted(buckets, key, val)),
        has_hash(inserted(buckets, key, val), key_hash(key)),
        all_pairs(inserted(buckets, key, val)).len() == all_pairs(buckets).len() + (if has_hash(
            buckets,
            key_hash(key),
        ) {
            0int
        } else {
            1int
        }),
{
    let hash = key_hash(key);
    let b = bucket_of(hash);
    let chain = buckets[b];
    let put = chain_put(chain, key, val);
    let after = inserted(buckets, key, val);
    let at = find_hash(chain, hash);
    lemma_find_hash_bound(chain, hash);
    if at < chain.len() {
        assert forall|j: int| 0 <= j < at implies (#[trigger] put[j]).hash != hash by {
            assert(chain[j].hash != chain[at].hash);
        }
        lemma_find_hash(put, hash, at);
    } else {
        lemma_no_hash(chain, hash);
        lemma_find_hash(put, hash, 0);
    }
    assert forall|c: int, j: int| 0 <= c < after.len() && 0 <= j < after[c].len() implies {
        &&& bucket_of((#[trigger] after[c][j]).hash) == c
        &&& after[c][j].hash == key_hash(after[c][j].key)
    } by {
        if c != b {
            assert(after[c][j] == buckets[c][j]);
        } else if at < chain.len() {
            assert(after[c][j].hash == buckets[c][j].hash);
            assert(after[c][j].key == buckets[c][j].key);
        } else if j > 0 {
            assert(after[c][j] == buckets[c][j - 1]);
        }
    }
    assert forall|c: int, p: int, q: int|
        0 <= c < after.len() && 0 <= p < q < after[c].len() implies (#[trigger] after[c][p]).hash
        != (#[trigger] after[c][q]).hash by {
        if c != b {
            assert(after[c][p] == buckets[c][p]);
            assert(after[c][q] == buckets[c][q]);
        } else if at < chain.len() {
            assert(after[c][p].hash == buckets[c][p].hash);
            assert(after[c][q].hash == buckets[c][q].hash);
        } else {
            assert(after[c][q] == buckets[c][q - 1]);
            if p > 0 {
                assert(after[c][p] == buckets[c][p - 1]);
            }
        }
    }
    lemma_pairs_len_update(buckets, b, put, 0);
}

/// Replacing one bucket changes the number of pairs by the difference of the
/// two chains' lengths.
pub proof fn lemma_pairs_len_update(
    buckets: Seq<Seq<Entry>>,
    b: int,
    chain: Seq<Entry>,
    from: int,
)
    requires
        0 <= b < buckets.len(),
        0 <= from <= buckets.len(),
    ensures
        pairs_from(buckets.update(b, chain), from).len() == pairs_from(buckets, from).len() + (
        if from <= b {
            chain.len() - buckets[b].len()
        } else {
            0
        }),
    decreases buckets.len() - from,
{
    if from < buckets.len() {
        lemma_pairs_len_update(buckets, b, chain, from + 1);
    }
}

/// The pair of every entry of every bucket from `from` on is among the pairs
/// from `from` on.
pub proof fn lemma_pairs_from_has(buckets: Seq<Seq<Entry>>, from: int, b: int, j: int)
    requires
        0 <= from <= b < buckets.len(),
        0 <= j < buckets[b].len(),
    ensures
        pairs_from(buckets, from).contains((buckets[b][j].key, buckets[b][j].val)),
    decreases b - from,
{
    let here = chain_pairs(buckets[from]);
    let rest = pairs_from(buckets, from + 1);
    let pair = (buckets[b][j].key, buckets[b][j].val);
    if from == b {
        assert(here[j] == pair);
        assert((here + rest)[j] == pair);
    } else {
        lemma_pairs_from_has(buckets, from + 1, b, j);
        let k = choose|k: int| 0 <= k < rest.len() && rest[k] == pair;
        assert((here + rest)[here.len() + k] == pair);
    }
}

/// Every pair among the pairs from `from` on is that of an entry of a bucket
/// from `from` on.
pub proof fn lemma_pairs_from_origin(buckets: Seq<Seq<Entry>>, from: int, pair: (Seq<char>, u32))
    requires
        0 <= from,
        pairs_from(buckets, from).contains(pair),
    ensures
        exists|b: int, j: int|
            from <= b < buckets.len() && 0 <= j < buckets[b].len() && pair == (
                (#[trigger] buckets[b][j]).key,
                buckets[b][j].val,
            ),
    decreases buckets.len() - from,
{
    if from < buckets.len() {
        let here = chain_pairs(buckets[from]);
        let rest = pairs_from(buckets, from + 1);
        let k = choose|k: int| 0 <= k < (here + rest).len() && (here + rest)[k] == pair;
        if k < here.len() {
            assert(pair == (buckets[from][k].key, buckets[from][k].val));
        } else {
            assert(rest[k - here.len()] == pair);
            lemma_pairs_from_origin(buckets, from + 1, pair);
        }
    }
}

/// Giving a value to a key and then another value to a key with the same
/// hash leaves what giving the second value to the first key would have
/// left: the second insertion overwrites, and adds no entry.
pub proof fn lemma_insert_overwrites(
    buckets: Seq<Seq<Entry>>,
    k1: Seq<char>,
    v1: u32,
    k2: Seq<char>,
    v2: u32,
)
    requires
        buckets_wf(buckets),
        key_hash(k1) == key_hash(k2),
    ensures
        inserted(inserted(buckets, k1, v1), k2, v2) == inserted(buckets, k1, v2),
        all_pairs(inserted(inserted(buckets, k1, v1), k2, v2)).len() == all_pairs(
            inserted(buckets, k1, v1),
        ).len(),
{
    let hash = key_hash(k1);
    let b = bucket_of(hash);
    let chain = buckets[b];
    let at = find_hash(chain, hash);
    let once = chain_put(chain, k1, v1);
    lemma_find_hash_bound(chain, hash);
    lemma_inserted(buckets, k1, v1);
    lemma_inserted(inserted(buckets, k1, v1), k2, v2);
    if at < chain.len() {
        assert forall|j: int| 0 <= j < at implies (#[trigger] once[j]).hash != hash by {
            assert(chain[j].hash != chain[at].hash);
        }
        lemma_find_hash(once, hash, at);
        assert(chain_put(once, k2, v2) =~= chain_put(chain, k1, v2));
    } else {
        lemma_find_hash(once, hash, 0);
        assert(chain_put(once, k2, v2) =~= chain_put(chain, k1, v2));
    }
    assert(inserted(inserted(buckets, k1, v1), k2, v2) =~= inserted(buckets, k1, v2));
}

/// The empty map is well formed and has no pairs.
pub proof fn lemma_empty_buckets(from: int)
    requires
        0 <= from,
    ensures
        buckets_wf(empty_buckets()),
        pairs_from(empty_buckets(), from) == Seq::<(Seq<char>, u32)>::empty(),
    decreases BUCKET_COUNT - from,
{
    if from < BUCKET_COUNT {
        lemma_empty_buckets(from + 1);
        assert(chain_pairs(empty_buckets()[from]) =~= Seq::<(Seq<char>, u32)>::empty());
        assert(pairs_from(empty_buckets(), from) =~= Seq::<(Seq<char>, u32)>::empty());
    }
}

/// A map that is given one value for a key and then another for the same key
/// holds that key once, with the second value.
pub proof fn lemma_insert_twice(key: Seq<char>, v1: u32, v2: u32)
    ensures
        all_pairs(inserted(inserted(empty_buckets(), key, v1), key, v2)) == seq![(key, v2)],
{
    let hash = key_hash(key);
    let b = bucket_of(hash);
    let twice = inserted(inserted(empty_buckets(), key, v1), key, v2);
    let once = inserted(empty_buckets(), key, v2);
    lemma_empty_buckets(0);
    lemma_insert_overwrites(empty_buckets(), key, v1, key, v2);
    lemma_inserted(empty_buckets(), key, v2);
    assert(once[b] =~= seq![Entry { key, val: v2, hash }]);
    lemma_pairs_from_has(once, 0, b, 0);
    let pairs = all_pairs(once);
    let k = choose|k: int| 0 <= k < pairs.len() && pairs[k] == (key, v2);
    assert(pairs =~= seq![(key, v2)]);
}

/// Every entry filed under a bucket is the entry for one of the items, and
/// that item's hash belongs in the bucket.
pub proof fn lemma_filed_origin(items: Seq<(Seq<char>, u32)>, b: int, j: int)
    requires
        0 <= j < filed(items, b).len(),
    ensures
        exists|i: int|
            0 <= i < items.len() && filed(items, b)[j] == entry_for(#[trigger] items[i])
                && bucket_of(key_hash(items[i].0)) == b,
    decreases items.len(),
{
    let init = items.drop_last();
    if bucket_of(key_hash(items.last().0)) == b && j == 0 {
        assert(filed(items, b)[j] == entry_for(items[items.len() - 1]));
    } else {
        let k = if bucket_of(key_hash(items.last().0)) == b {
            j - 1
        } else {
            j
        };
        lemma_filed_origin(init, b, k);
        let i = choose|i: int|
            0 <= i < init.len() && filed(init, b)[k] == entry_for(#[trigger] init[i]) && bucket_of(
                key_hash(init[i].0),
            ) == b;
        assert(init[i] == items[i]);
    }
}

/// The entry for every item is filed under the bucket of its hash.
pub proof fn lemma_filed_has(items: Seq<(Seq<char>, u32)>, i: int)
    requires
        0 <= i < items.len(),
    ensures
        exists|j: int|
            0 <= j < filed(items, bucket_of(key_hash(items[i].0))).len() && (#[trigger] filed(
                items,
                bucket_of(key_hash(items[i].0)),
            )[j]) == entry_for(items[i]),
    decreases items.len(),
{
    let b = bucket_of(key_hash(items[i].0));
    let init = items.drop_last();
    if i == items.len() - 1 {
        assert(filed(items, b)[0] == entry_for(items[i]));
    } else {
        lemma_filed_has(init, i);
        assert(init[i] == items[i]);
        let j = choose|j: int|
            0 <= j < filed(init, b).len() && (#[trigger] filed(init, b)[j]) == entry_for(init[i]);
        if bucket_of(key_hash(items.last().0)) == b {
            assert(filed(items, b)[j + 1] == entry_for(items[i]));
        } else {
            assert(filed(items, b)[j] == entry_for(items[i]));
        }
    }
}

/// Inserting keys with pairwise distinct hashes into the empty map files
/// each under the bucket of its hash, the most recent first, and makes one
/// entry for each.
pub proof fn lemma_distinct_inserts_filed(items: Seq<(Seq<char>, u32)>)
    requires
        distinct_hashes(items),
    ensures
        buckets_wf(inserted_all(empty_buckets(), items)),
        forall|b: int|
            0 <= b < BUCKET_COUNT ==> (#[trigger] inserted_all(empty_buckets(), items)[b]) == filed(
                items,
                b,
            ),
        all_pairs(inserted_all(empty_buckets(), items)).len() == items.len(),
    decreases items.len(),
{
    let after = inserted_all(empty_buckets(), items);
    lemma_empty_buckets(0);
    if items.len() == 0 {
        assert forall|b: int| 0 <= b < BUCKET_COUNT implies (#[trigger] after[b]) == filed(
            items,
            b,
        ) by {
            assert(after[b] =~= filed(items, b));
        }
    } else {
        let init = items.drop_last();
        let last = items.last();
        let before = inserted_all(empty_buckets(), init);
        let hash = key_hash(last.0);
        let home = bucket_of(hash);
        assert forall|i: int, j: int| 0 <= i < j < init.len() implies key_hash(
            (#[trigger] init[i]).0,
        ) != key_hash((#[trigger] init[j]).0) by {
            assert(init[i] == items[i] && init[j] == items[j]);
        }
        lemma_distinct_inserts_filed(init);
        assert(before[home] == filed(init, home));
        assert forall|j: int| 0 <= j < before[home].len() implies (#[trigger] before[home][j]).hash
            != hash by {
            lemma_filed_origin(init, home, j);
            let i = choose|i: int|
                0 <= i < init.len() && filed(init, home)[j] == entry_for(#[trigger] init[i])
                    && bucket_of(key_hash(init[i].0)) == home;
            assert(init[i] == items[i]);
            assert(last == items[items.len() - 1]);
        }
        lemma_find_hash(before[home], hash, before[home].len() as int);
        lemma_inserted(before, last.0, last.1);
        assert forall|b: int| 0 <= b < BUCKET_COUNT implies (#[trigger] after[b]) == filed(
            items,
            b,
        ) by {
            assert(before[b] == filed(init, b));
            assert(after[b] =~= filed(items, b));
        }
    }
}

/// Inserting `n` keys with pairwise distinct hashes into the empty map and
/// then iterating yields `n` pairs: each inserted key with its value, and
/// nothing else.
pub proof fn lemma_distinct_inserts(items: Seq<(Seq<char>, u32)>)
    requires
        distinct_hashes(items),
    ensures
        all_pairs(inserted_all(empty_buckets(), items)).len() == items.len(),
        forall|i: int|
            0 <= i < items.len() ==> all_pairs(inserted_all(empty_buckets(), items)).contains(
                #[trigger] items[i],
            ),
        forall|pair: (Seq<char>, u32)|
            #[trigger] all_pairs(inserted_all(empty_buckets(), items)).contains(pair)
                ==> items.contains(pair),
{
    let after = inserted_all(empty_buckets(), items);
    lemma_distinct_inserts_filed(items);
    assert forall|i: int| 0 <= i < items.len() implies all_pairs(after).contains(
        #[trigger] items[i],
    ) by {
        let b = bucket_of(key_hash(items[i].0));
        lemma_filed_has(items, i);
        let j = choose|j: int|
            0 <= j < filed(items, b).len() && (#[trigger] filed(items, b)[j]) == entry_for(
                items[i],
            );
        assert(after[b] == filed(items, b));
        lemma_pairs_from_has(after, 0, b, j);
    }
    assert forall|pair: (Seq<char>, u32)| #[trigger]
        all_pairs(after).contains(pair) implies items.contains(pair) by {
        lemma_pairs_from_origin(after, 0, pair);
        let (b, j) = choose|b: int, j: int|
            0 <= b < after.len() && 0 <= j < after[b].len() && pair == (
                (#[trigger] after[b][j]).key,
                after[b][j].val,
            );
        assert(after[b] == filed(items, b));
        lemma_filed_origin(items, b, j);
        let i = choose|i: int|
            0 <= i < items.len() && filed(items, b)[j] == entry_for(#[trigger] items[i])
                && bucket_of(key_hash(items[i].0)) == b;
        assert(items[i] == pair);
    }
}

} // verus!
