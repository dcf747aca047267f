//! A chained hash map from text keys to 32-bit integers over a fixed number
//! of buckets.
//!
//! Nodes live in one arena. The first [`BUCKET_COUNT`] nodes are the
//! buckets' heads, which carry no data; the entries follow in the order in
//! which they were created. A node's `next` is the arena index of its
//! successor in the chain, so a new entry is spliced in behind its bucket's
//! head in constant time.
//!
//! Two keys with the same hash are taken for the same key.

use vstd::prelude::*;
use vstd::utf8::encode_utf8;
use crate::hash::{fnv1a, Fnv1aHasher};

verus! {

/// Number of buckets.
pub const BUCKET_COUNT: usize = 1001;

/// What an entry of the map holds.
pub struct Entry {
    pub key: Seq<char>,
    pub val: u32,
    pub hash: u64,
}

/// The hash under which a key is filed: FNV-1a over its UTF-8 bytes.
pub open spec fn key_hash(key: Seq<char>) -> u64 {
    fnv1a(encode_utf8(key))
}

/// The bucket that holds the entries with hash `hash`.
pub open spec fn bucket_of(hash: u64) -> int {
    hash as int % BUCKET_COUNT as int
}

/// The position of the first entry of `chain` with hash `hash`, or the
/// chain's length if there is none.
pub open spec fn find_hash(chain: Seq<Entry>, hash: u64) -> int
    decreases chain.len(),
{
    if chain.len() == 0 {
        0
    } else if chain[0].hash == hash {
        0
    } else {
        1 + find_hash(chain.skip(1), hash)
    }
}

/// `chain` after `key` is given the value `val`: the entry with the key's
/// hash gets the new value and keeps its key and place; if there is none, a
/// new entry goes to the front.
pub open spec fn chain_put(chain: Seq<Entry>, key: Seq<char>, val: u32) -> Seq<Entry> {
    let hash = key_hash(key);
    let at = find_hash(chain, hash);
    if at < chain.len() {
        chain.update(at, Entry { val, ..chain[at] })
    } else {
        seq![Entry { key, val, hash }] + chain
    }
}

/// The buckets after `key` is given the value `val`.
pub open spec fn inserted(buckets: Seq<Seq<Entry>>, key: Seq<char>, val: u32) -> Seq<Seq<Entry>> {
    let b = bucket_of(key_hash(key));
    buckets.update(b, chain_put(buckets[b], key, val))
}

/// The keys and values of a chain, in chain order.
pub open spec fn chain_pairs(chain: Seq<Entry>) -> Seq<(Seq<char>, u32)> {
    Seq::new(chain.len(), |j: int| (chain[j].key, chain[j].val))
}

/// The keys and values of the buckets from `from` on: bucket by bucket, each
/// in chain order.
pub open spec fn pairs_from(buckets: Seq<Seq<Entry>>, from: int) -> Seq<(Seq<char>, u32)>
    decreases buckets.len() - from,
{
    if 0 <= from < buckets.len() {
        chain_pairs(buckets[from]) + pairs_from(buckets, from + 1)
    } else {
        Seq::empty()
    }
}

/// All keys and values, in iteration order.
pub open spec fn all_pairs(buckets: Seq<Seq<Entry>>) -> Seq<(Seq<char>, u32)> {
    pairs_from(buckets, 0)
}

/// There are [`BUCKET_COUNT`] buckets, every entry lies in the bucket of its
/// hash, its hash is that of its key, and no two entries of a bucket share a
/// hash.
pub open spec fn buckets_wf(buckets: Seq<Seq<Entry>>) -> bool {
    &&& buckets.len() == BUCKET_COUNT
    &&& forall|b: int, j: int|
        0 <= b < buckets.len() && 0 <= j < buckets[b].len() ==> {
            &&& bucket_of((#[trigger] buckets[b][j]).hash) == b
            &&& buckets[b][j].hash == key_hash(buckets[b][j].key)
        }
    &&& forall|b: int, i: int, j: int|
        0 <= b < buckets.len() && 0 <= i < j < buckets[b].len() ==> (#[trigger] buckets[b][i]).hash
            != (#[trigger] buckets[b][j]).hash
}

/// The buckets of a map without entries.
pub open spec fn empty_buckets() -> Seq<Seq<Entry>> {
    Seq::new(BUCKET_COUNT as nat, |b: int| Seq::<Entry>::empty())
}

/// A node of the arena: a bucket's head, or an entry.
pub struct Node {
    pub key: String,
    pub val: u32,
    pub hash: u64,
    /// Arena index of the next node of the chain.
    pub next: Option<usize>,
}

impl Node {
    /// A node without data and without successor, as the heads are.
    pub fn new() -> (n: Self)
        ensures
            n.key@ == Seq::<char>::empty(),
            n.val == 0,
            n.hash == 0,
            n.next == None::<usize>,
    {
        Node { key: String::new(), val: 0, hash: 0, next: None }
    }

    /// What the node holds, as an entry.
    pub open spec fn entry(self) -> Entry {
        Entry { key: self.key@, val: self.val, hash: self.hash }
    }
}

/// Every link leads to an entry, and an entry's link leads to an entry
/// created before it.
spec fn links_ok(nodes: Seq<Node>) -> bool {
    &&& nodes.len() >= BUCKET_COUNT
    &&& forall|i: int|
        0 <= i < nodes.len() ==> match (#[trigger] nodes[i]).next {
            Some(j) => BUCKET_COUNT <= j < nodes.len() && (i >= BUCKET_COUNT ==> j < i),
            None => true,
        }
}

/// The arena indices of the chain that starts at `cur`.
spec fn chain_indices(nodes: Seq<Node>, cur: Option<usize>) -> Seq<int>
    decreases
        match cur {
            Some(i) => i as int + 1,
            None => 0,
        },
{
    match cur {
        None => Seq::empty(),
        Some(i) => {
            if i < nodes.len() && (nodes[i as int].next matches Some(j) ==> j < i) {
                seq![i as int] + chain_indices(nodes, nodes[i as int].next)
            } else {
                Seq::empty()
            }
        },
    }
}

/// The entries of the chain that starts at `cur`.
spec fn chain_at(nodes: Seq<Node>, cur: Option<usize>) -> Seq<Entry> {
    let idx = chain_indices(nodes, cur);
    Seq::new(idx.len(), |j: int| nodes[idx[j]].entry())
}

/// The chains of all buckets.
spec fn buckets_of(nodes: Seq<Node>) -> Seq<Seq<Entry>> {
    Seq::new(BUCKET_COUNT as nat, |b: int| chain_at(nodes, nodes[b].next))
}

/// Whether `cur` is the end of a chain or the index of an entry.
spec fn is_link(nodes: Seq<Node>, cur: Option<usize>) -> bool {
    cur matches Some(i) ==> BUCKET_COUNT <= i < nodes.len()
}

/// A chain starts at its first node and goes on with that node's successor;
/// its indices are those of entries and fall strictly.
proof fn lemma_chain_indices(nodes: Seq<Node>, cur: Option<usize>)
    requires
        links_ok(nodes),
        is_link(nodes, cur),
    ensures
        cur is None ==> chain_indices(nodes, cur).len() == 0,
        cur matches Some(i) ==> {
            &&& chain_indices(nodes, cur).len() > 0
            &&& chain_indices(nodes, cur)[0] == i
            &&& chain_indices(nodes, cur).skip(1) == chain_indices(nodes, nodes[i as int].next)
            &&& is_link(nodes, nodes[i as int].next)
        },
        forall|j: int|
            0 <= j < chain_indices(nodes, cur).len() ==> BUCKET_COUNT <= (
            #[trigger] chain_indices(nodes, cur)[j]) < nodes.len(),
        forall|j: int|
            0 <= j < chain_indices(nodes, cur).len() ==> (cur matches Some(i) && (
            #[trigger] chain_indices(nodes, cur)[j]) <= i),
        forall|p: int, q: int|
            0 <= p < q < chain_indices(nodes, cur).len() ==> (#[trigger] chain_indices(nodes, cur)[p])
                > (#[trigger] chain_indices(nodes, cur)[q]),
    decreases
        match cur {
            Some(i) => i as int + 1,
            None => 0,
        },
{
    match cur {
        None => {},
        Some(i) => {
            let node = nodes[i as int];
            let rest = chain_indices(nodes, node.next);
            lemma_chain_indices(nodes, node.next);
            assert(chain_indices(nodes, cur) =~= seq![i as int] + rest);
            assert(chain_indices(nodes, cur).skip(1) =~= rest);
            assert forall|p: int, q: int|
                0 <= p < q < chain_indices(nodes, cur).len() implies (#[trigger] chain_indices(
                nodes,
                cur,
            )[p]) > (#[trigger] chain_indices(nodes, cur)[q]) by {
                assert(chain_indices(nodes, cur)[q] == rest[q - 1]);
                if p > 0 {
                    assert(chain_indices(nodes, cur)[p] == rest[p - 1]);
                }
            }
        },
    }
}

/// A chain is the same in two arenas that agree on the links of the first
/// arena's entries.
proof fn lemma_chain_frame(a: Seq<Node>, b: Seq<Node>, cur: Option<usize>)
    requires
        links_ok(a),
        a.len() <= b.len(),
        forall|k: int| BUCKET_COUNT <= k < a.len() ==> (#[trigger] b[k]).next == a[k].next,
        is_link(a, cur),
    ensures
        chain_indices(b, cur) == chain_indices(a, cur),
    decreases
        match cur {
            Some(i) => i as int + 1,
            None => 0,
        },
{
    match cur {
        None => {},
        Some(i) => {
            assert(b[i as int].next == a[i as int].next);
            lemma_chain_frame(a, b, a[i as int].next);
        },
    }
}

/// Where `chain[at]` is the first entry with hash `hash`, `find_hash` finds
/// it; where no entry has that hash, `find_hash` gives the chain's length.
pub proof fn lemma_find_hash(chain: Seq<Entry>, hash: u64, at: int)
    requires
        0 <= at <= chain.len(),
        forall|j: int| 0 <= j < at ==> (#[trigger] chain[j]).hash != hash,
        at < chain.len() ==> chain[at].hash == hash,
    ensures
        find_hash(chain, hash) == at,
    decreases chain.len(),
{
    if chain.len() > 0 && at > 0 {
        assert(chain[0].hash != hash);
        let rest = chain.skip(1);
        assert forall|j: int| 0 <= j < at - 1 implies (#[trigger] rest[j]).hash != hash by {
            assert(chain[j + 1].hash != hash);
        }
        lemma_find_hash(rest, hash, at - 1);
    }
}

/// Changing the value of the entry at place `pos` of bucket `b` changes that
/// entry in the buckets and nothing else.
proof fn lemma_overwritten(a: Seq<Node>, b: Seq<Node>, bucket: int, pos: int, val: u32)
    requires
        links_ok(a),
        buckets_wf(buckets_of(a)),
        0 <= bucket < BUCKET_COUNT,
        0 <= pos < chain_indices(a, a[bucket].next).len(),
        b.len() == a.len(),
        forall|k: int|
            0 <= k < a.len() && k != chain_indices(a, a[bucket].next)[pos] ==> #[trigger] b[k]
                == a[k],
        ({
            let i = chain_indices(a, a[bucket].next)[pos];
            b[i].key == a[i].key && b[i].hash == a[i].hash && b[i].next == a[i].next && b[i].val
                == val
        }),
    ensures
        links_ok(b),
        buckets_wf(buckets_of(b)),
        buckets_of(b) == buckets_of(a).update(
            bucket,
            buckets_of(a)[bucket].update(pos, Entry { val, ..buckets_of(a)[bucket][pos] }),
        ),
{
    let idx = chain_indices(a, a[bucket].next);
    let i = idx[pos];
    let old_b = buckets_of(a);
    let new_b = buckets_of(b);
    let want = old_b.update(bucket, old_b[bucket].update(pos, Entry { val, ..old_b[bucket][pos] }));
    lemma_chain_indices(a, a[bucket].next);
    assert(BUCKET_COUNT <= i < a.len());
    assert forall|k: int| 0 <= k < b.len() implies (#[trigger] b[k]).next == a[k].next by {}
    assert(links_ok(b));
    assert forall|c: int| 0 <= c < BUCKET_COUNT implies #[trigger] new_b[c] == want[c] by {
        let ci = chain_indices(a, a[c].next);
        lemma_chain_indices(a, a[c].next);
        lemma_chain_frame(a, b, a[c].next);
        assert(b[c].next == a[c].next);
        assert(chain_indices(b, b[c].next) == ci);
        assert forall|j: int| 0 <= j < ci.len() implies #[trigger] new_b[c][j] == want[c][j] by {
            assert(old_b[c][j] == a[ci[j]].entry());
            assert(new_b[c][j] == b[ci[j]].entry());
            if c != bucket {
                assert(bucket_of(old_b[c][j].hash) == c);
                assert(old_b[bucket][pos] == a[i].entry());
                assert(bucket_of(old_b[bucket][pos].hash) == bucket);
                assert(ci[j] != i);
            } else if j != pos {
                assert(ci[j] != i);
            }
        }
        assert(new_b[c] =~= want[c]);
    }
    assert(new_b =~= want);
    assert forall|c: int, j: int| 0 <= c < want.len() && 0 <= j < want[c].len() implies {
        &&& bucket_of((#[trigger] want[c][j]).hash) == c
        &&& want[c][j].hash == key_hash(want[c][j].key)
    } by {
        assert(want[c][j].hash == old_b[c][j].hash && want[c][j].key == old_b[c][j].key);
    }
    assert forall|c: int, p: int, q: int|
        0 <= c < want.len() && 0 <= p < q < want[c].len() implies (#[trigger] want[c][p]).hash != (
    #[trigger] want[c][q]).hash by {
        assert(want[c][p].hash == old_b[c][p].hash);
        assert(want[c][q].hash == old_b[c][q].hash);
    }
}

/// Appending an entry to the arena and linking it behind the head of bucket
/// `bucket` puts it in front of that bucket's chain and changes nothing
/// else.
proof fn lemma_prepended(a: Seq<Node>, b: Seq<Node>, bucket: int)
    requires
        links_ok(a),
        buckets_wf(buckets_of(a)),
        0 <= bucket < BUCKET_COUNT,
        b.len() == a.len() + 1,
        a.len() <= usize::MAX,
        forall|k: int| 0 <= k < a.len() && k != bucket ==> #[trigger] b[k] == a[k],
        b[bucket].next == Some(a.len() as usize),
        b[a.len() as int].next == a[bucket].next,
        bucket_of(b[a.len() as int].hash) == bucket,
        b[a.len() as int].hash == key_hash(b[a.len() as int].key@),
        find_hash(buckets_of(a)[bucket], b[a.len() as int].hash) == buckets_of(a)[bucket].len(),
    ensures
        links_ok(b),
        buckets_wf(buckets_of(b)),
        buckets_of(b) == buckets_of(a).update(
            bucket,
            seq![b[a.len() as int].entry()] + buckets_of(a)[bucket],
        ),
{
    let n = a.len() as int;
    let fresh = b[n];
    let old_b = buckets_of(a);
    let new_b = buckets_of(b);
    let want = old_b.update(bucket, seq![fresh.entry()] + old_b[bucket]);
    assert forall|k: int| 0 <= k < b.len() implies match (#[trigger] b[k]).next {
        Some(j) => BUCKET_COUNT <= j < b.len() && (k >= BUCKET_COUNT ==> j < k),
        None => true,
    } by {
        if k != bucket && k != n {
            assert(b[k] == a[k]);
        }
        if k == n {
            assert(is_link(a, a[bucket].next));
        }
    }
    assert(links_ok(b));
    assert forall|c: int| 0 <= c < BUCKET_COUNT implies #[trigger] new_b[c] == want[c] by {
        let ci = chain_indices(a, a[c].next);
        lemma_chain_indices(a, a[c].next);
        lemma_chain_frame(a, b, a[c].next);
        assert(chain_indices(b, a[c].next) == ci);
        assert forall|j: int| 0 <= j < ci.len() implies b[#[trigger] ci[j]] == a[ci[j]] by {}
        if c != bucket {
            assert(b[c] == a[c]);
            assert(new_b[c] =~= old_b[c]);
        } else {
            let at: Option<usize> = Some(n as usize);
            lemma_chain_indices(b, at);
            assert(chain_indices(b, at) =~= seq![n] + ci);
            assert(new_b[c] =~= seq![fresh.entry()] + old_b[c]);
        }
    }
    assert(new_b =~= want);
    lemma_no_hash(old_b[bucket], fresh.hash);
    assert forall|c: int, j: int| 0 <= c < want.len() && 0 <= j < want[c].len() implies {
        &&& bucket_of((#[trigger] want[c][j]).hash) == c
        &&& want[c][j].hash == key_hash(want[c][j].key)
    } by {
        if c == bucket && j > 0 {
            assert(want[c][j] == old_b[c][j - 1]);
        } else if c != bucket {
            assert(want[c][j] == old_b[c][j]);
        }
    }
    assert forall|c: int, p: int, q: int|
        0 <= c < want.len() && 0 <= p < q < want[c].len() implies (#[trigger] want[c][p]).hash != (
    #[trigger] want[c][q]).hash by {
        if c == bucket {
            assert(want[c][q] == old_b[c][q - 1]);
            if p > 0 {
                assert(want[c][p] == old_b[c][p - 1]);
            }
        } else {
            assert(want[c][p] == old_b[c][p]);
            assert(want[c][q] == old_b[c][q]);
        }
    }
}

/// Where `find_hash` gives the chain's length, no entry has the hash.
pub proof fn lemma_no_hash(chain: Seq<Entry>, hash: u64)
    requires
        find_hash(chain, hash) == chain.len(),
    ensures
        forall|j: int| 0 <= j < chain.len() ==> (#[trigger] chain[j]).hash != hash,
    decreases chain.len(),
{
    if chain.len() > 0 {
        lemma_find_hash_bound(chain.skip(1), hash);
        lemma_no_hash(chain.skip(1), hash);
        assert forall|j: int| 0 <= j < chain.len() implies (#[trigger] chain[j]).hash != hash by {
            if j > 0 {
                assert(chain.skip(1)[j - 1] == chain[j]);
            }
        }
    }
}

/// `find_hash` gives a position in the chain that holds the hash, or the
/// chain's length.
pub proof fn lemma_find_hash_bound(chain: Seq<Entry>, hash: u64)
    ensures
        0 <= find_hash(chain, hash) <= chain.len(),
        find_hash(chain, hash) < chain.len() ==> chain[find_hash(chain, hash)].hash == hash,
    decreases chain.len(),
{
    if chain.len() > 0 && chain[0].hash != hash {
        lemma_find_hash_bound(chain.skip(1), hash);
    }
}

/// A hash map with [`BUCKET_COUNT`] buckets and chaining.
pub struct HashMap {
    bucket: Vec<Node>,
}

impl View for HashMap {
    type V = Seq<Seq<Entry>>;

    closed spec fn view(&self) -> Seq<Seq<Entry>> {
        buckets_of(self.bucket@)
    }
}

impl HashMap {
    /// The arena is linked as it should be and the buckets are well formed.
    pub closed spec fn wf(&self) -> bool {
        &&& links_ok(self.bucket@)
        &&& buckets_wf(self@)
    }

    /// A well-formed map has well-formed buckets.
    pub proof fn lemma_wf_buckets(&self)
        requires
            self.wf(),
        ensures
            buckets_wf(self@),
    {
    }

    /// A map without entries.
    pub fn new() -> (m: Self)
        ensures
            m.wf(),
            m@ == empty_buckets(),
    {
        let mut bucket: Vec<Node> = Vec::new();
        let mut i: usize = 0;
        while i < BUCKET_COUNT
            invariant
                i <= BUCKET_COUNT,
                bucket@.len() == i,
                forall|k: int| 0 <= k < i ==> (#[trigger] bucket@[k]).next == None::<usize>,
            decreases BUCKET_COUNT - i,
        {
            bucket.push(Node::new());
            i = i + 1;
        }
        let m = HashMap { bucket };
        proof {
            assert forall|b: int| 0 <= b < BUCKET_COUNT implies #[trigger] m@[b]
                == Seq::<Entry>::empty() by {
                assert(m.bucket@[b].next == None::<usize>);
                assert(chain_indices(m.bucket@, None) =~= Seq::<int>::empty());
                assert(chain_at(m.bucket@, None) =~= Seq::<Entry>::empty());
            }
            assert(m@ =~= empty_buckets());
        }
        m
    }
    /// Gives `k` the value `v`. An entry whose hash is that of `k` keeps
    /// its key and its place and gets the new value; if there is none, a new
    /// entry becomes the first of its bucket.
    #[verifier::loop_isolation(false)]
    pub fn insert(&mut self, k: String, v: u32)
        requires
            old(self).wf(),
        ensures
            final(self).wf(),
            final(self)@ == inserted(old(self)@, k@, v),
    {
        let mut hasher = Fnv1aHasher::new();
        hasher.write(k.as_str().as_bytes());
        let hash: u64 = hasher.finish();
        let index: usize = (hash % (BUCKET_COUNT as u64)) as usize;
        let head: Option<usize> = self.bucket[index].next;
        let ghost nodes = self.bucket@;
        let ghost idx = chain_indices(nodes, head);
        let ghost chain = self@[index as int];
        let mut cur: Option<usize> = head;
        let ghost mut pos: int = 0;
        proof {
            assert(hash == key_hash(k@));
            assert(index == bucket_of(hash));
            assert(idx.skip(0) =~= idx);
        }
        while cur.is_some()
            invariant
                self.bucket@ == nodes,
                is_link(nodes, cur),
                0 <= pos <= idx.len(),
                chain_indices(nodes, cur) == idx.skip(pos),
                forall|j: int| 0 <= j < pos ==> (#[trigger] chain[j]).hash != hash,
            decreases
                match cur {
                    Some(i) => i as int + 1,
                    None => 0,
                },
        {
            let i: usize = cur.unwrap();
            proof {
                lemma_chain_indices(nodes, cur);
                assert(idx.skip(pos)[0] == idx[pos]);
                assert(chain[pos] == nodes[i as int].entry());
            }
            if self.bucket[i].hash == hash {
                self.bucket[i].val = v;
                proof {
                    lemma_find_hash(chain, hash, pos);
                    lemma_overwritten(nodes, self.bucket@, index as int, pos, v);
                }
                return ;
            }
            proof {
                assert(idx.skip(pos).skip(1) =~= idx.skip(pos + 1));
                pos = pos + 1;
            }
            cur = self.bucket[i].next;
        }
        proof {
            lemma_chain_indices(nodes, cur);
        }
        let at: usize = self.bucket.len();
        self.bucket.push(Node { key: k, val: v, hash, next: head });
        self.bucket[index].next = Some(at);
        proof {
            lemma_find_hash(chain, hash, chain.len() as int);
            lemma_prepended(nodes, self.bucket@, index as int);
        }
    }

    /// A single pass over the entries: bucket by bucket, each bucket from
    /// its most recently created entry to its oldest.
    pub fn iter(&self) -> (it: Iter<'_>)
        requires
            self.wf(),
        ensures
            it.wf(),
            it.remaining() == all_pairs(self@),
    {
        let it = Iter { map: self, bucket_iter: 0, current_node: None };
        proof {
            assert(chain_indices(self.bucket@, None) =~= Seq::<int>::empty());
            assert(it.remaining() =~= all_pairs(self@));
        }
        it
    }
}

/// A chain that starts at an entry is that entry followed by the chain of
/// its successor.
proof fn lemma_chain_step(nodes: Seq<Node>, i: usize)
    requires
        links_ok(nodes),
        BUCKET_COUNT <= i < nodes.len(),
    ensures
        is_link(nodes, nodes[i as int].next),
        chain_at(nodes, Some(i)) == seq![nodes[i as int].entry()] + chain_at(
            nodes,
            nodes[i as int].next,
        ),
        chain_pairs(chain_at(nodes, Some(i))) == seq![(nodes[i as int].key@, nodes[i as int].val)]
            + chain_pairs(chain_at(nodes, nodes[i as int].next)),
{
    let cur: Option<usize> = Some(i);
    lemma_chain_indices(nodes, cur);
    let rest = chain_at(nodes, nodes[i as int].next);
    assert(chain_indices(nodes, cur) =~= seq![i as int] + chain_indices(nodes, cur).skip(1));
    assert(chain_at(nodes, cur) =~= seq![nodes[i as int].entry()] + rest);
    assert(chain_pairs(chain_at(nodes, cur)) =~= seq![(nodes[i as int].key@, nodes[i as int].val)]
        + chain_pairs(rest));
}

/// A single pass over the entries of a [`HashMap`].
pub struct Iter<'a> {
    map: &'a HashMap,
    /// The next bucket to visit.
    bucket_iter: usize,
    /// The next entry of the chain under way.
    current_node: Option<usize>,
}

impl<'a> Iter<'a> {
    /// The iterator stands at a place in a well-formed map.
    pub closed spec fn wf(&self) -> bool {
        &&& self.map.wf()
        &&& self.bucket_iter <= BUCKET_COUNT
        &&& is_link(self.map.bucket@, self.current_node)
    }

    /// The keys and values still to come, in order.
    pub closed spec fn remaining(&self) -> Seq<(Seq<char>, u32)> {
        chain_pairs(chain_at(self.map.bucket@, self.current_node)) + pairs_from(
            self.map@,
            self.bucket_iter as int,
        )
    }

    /// Hands out the next key and value, or `None` once all have been
    /// handed out.
    #[verifier::loop_isolation(false)]
    pub fn next(&mut self) -> (r: Option<(&'a str, &'a u32)>)
        requires
            old(self).wf(),
        ensures
            final(self).wf(),
            match r {
                Some((k, v)) => {
                    &&& old(self).remaining().len() > 0
                    &&& (k@, *v) == old(self).remaining()[0]
                    &&& final(self).remaining() == old(self).remaining().skip(1)
                },
                None => old(self).remaining().len() == 0 && final(self).remaining().len() == 0,
            },
    {
        let map: &'a HashMap = self.map;
        let ghost nodes = map.bucket@;
        if let Some(i) = self.current_node {
            let node = &map.bucket[i];
            proof {
                lemma_chain_step(nodes, i);
            }
            self.current_node = node.next;
            proof {
                assert(self.remaining() =~= old(self).remaining().skip(1));
            }
            return Some((node.key.as_str(), &node.val));
        }
        proof {
            assert(chain_indices(nodes, None) =~= Seq::<int>::empty());
            assert(old(self).remaining() =~= pairs_from(map@, self.bucket_iter as int));
        }
        while self.bucket_iter < BUCKET_COUNT
            invariant
                self.map == map,
                self.current_node is None,
                self.bucket_iter <= BUCKET_COUNT,
                old(self).remaining() == pairs_from(map@, self.bucket_iter as int),
            decreases BUCKET_COUNT - self.bucket_iter,
        {
            let ghost b = self.bucket_iter as int;
            let head = &map.bucket[self.bucket_iter];
            self.bucket_iter = self.bucket_iter + 1;
            if let Some(i) = head.next {
                let node = &map.bucket[i];
                proof {
                    lemma_chain_step(nodes, i);
                    assert(map@[b] == chain_at(nodes, Some(i)));
                }
                self.current_node = node.next;
                proof {
                    assert(self.remaining() =~= old(self).remaining().skip(1));
                }
                return Some((node.key.as_str(), &node.val));
            }
            proof {
                assert(map@[b] =~= Seq::<Entry>::empty());
                assert(chain_pairs(map@[b]) =~= Seq::<(Seq<char>, u32)>::empty());
                assert(pairs_from(map@, b) =~= pairs_from(map@, b + 1));
            }
        }
        proof {
            assert(self.remaining() =~= Seq::<(Seq<char>, u32)>::empty());
        }
        None
    }
}

} // verus!
