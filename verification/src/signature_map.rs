//! The certified signature store.
//!
//! A Merkle set over `(seed hash, message hash)` pairs. Membership of a
//! pair is the certified statement; the store yields a single root
//! commitment over all entries and a succinct witness for each entry.
//! The store is kept in canonical form — seed buckets strictly sorted by
//! seed, messages strictly sorted within each bucket, no empty bucket —
//! so that the root commitment depends on the entry set alone and never
//! on the order in which entries were added or removed.

use vstd::prelude::*;
use crate::hashing::{
    empty_hash, fork_hash, hash_empty, hash_eq, hash_fork, hash_labeled, hash_leaf,
    hash_lt, hash_to_vec, labeled_hash, leaf_hash, lemma_lex_asym, lemma_lex_irrefl,
    lemma_lex_total, lemma_lex_trans, lex_lt, Digest,
};
use crate::hash_tree::{exposes_entry, exposes_msg, reconstruct, HashTree};

verus! {

/// One certified message under a seed, with its expiration.
#[derive(Clone, Copy)]
pub struct MsgEntry {
    /// Digest of the certified statement.
    pub msg: Digest,
    /// The moment after which the entry may be pruned.
    pub expiration: u64,
}

/// All entries sharing one seed, strictly sorted by message digest.
pub struct SeedBucket {
    /// Digest identifying the long-term identity.
    pub seed: Digest,
    /// The bucket's entries, strictly sorted and never empty.
    pub msgs: Vec<MsgEntry>,
}

/// Messages of a bucket are strictly sorted by their digest bytes.
pub open spec fn msgs_sorted(m: Seq<MsgEntry>) -> bool {
    forall|i: int, j: int|
        0 <= i < j < m.len() ==> lex_lt(m[i].msg@, m[j].msg@)
}

/// Buckets are strictly sorted by their seed digest bytes.
pub open spec fn seeds_sorted(s: Seq<SeedBucket>) -> bool {
    forall|i: int, j: int|
        0 <= i < j < s.len() ==> lex_lt(s[i].seed@, s[j].seed@)
}

/// A well-formed bucket: non-empty and sorted.
pub open spec fn bucket_wf(b: SeedBucket) -> bool {
    b.msgs@.len() > 0 && msgs_sorted(b.msgs@)
}

/// Whether some bucket of `s` carries the seed digest `seed`.
pub open spec fn has_seed(s: Seq<SeedBucket>, seed: Seq<u8>) -> bool {
    exists|i: int| 0 <= i < s.len() && s[i].seed@ == seed
}

/// The index of the bucket carrying `seed` (unique in a sorted sequence).
pub open spec fn seed_idx(s: Seq<SeedBucket>, seed: Seq<u8>) -> int {
    choose|i: int| 0 <= i < s.len() && s[i].seed@ == seed
}

/// Whether some entry of `m` carries the message digest `msg`.
pub open spec fn has_msg(m: Seq<MsgEntry>, msg: Seq<u8>) -> bool {
    exists|j: int| 0 <= j < m.len() && m[j].msg@ == msg
}

/// The index of the entry carrying `msg` (unique in a sorted sequence).
pub open spec fn msg_idx(m: Seq<MsgEntry>, msg: Seq<u8>) -> int {
    choose|j: int| 0 <= j < m.len() && m[j].msg@ == msg
}

/// In a strictly sorted bucket sequence a seed occurs at most once.
pub proof fn lemma_seed_unique(s: Seq<SeedBucket>, i: int, j: int)
    requires
        seeds_sorted(s),
        0 <= i < s.len(),
        0 <= j < s.len(),
        s[i].seed@ == s[j].seed@,
    ensures
        i == j,
{
    if i != j {
        lemma_lex_irrefl(s[i].seed@);
    }
}

/// In a strictly sorted entry sequence a message occurs at most once.
pub proof fn lemma_msg_unique(m: Seq<MsgEntry>, i: int, j: int)
    requires
        msgs_sorted(m),
        0 <= i < m.len(),
        0 <= j < m.len(),
        m[i].msg@ == m[j].msg@,
    ensures
        i == j,
{
    if i != j {
        lemma_lex_irrefl(m[i].msg@);
    }
}

/// The Merkle item a message entry contributes to its bucket's tree:
/// the message digest labels a leaf with empty contents.
pub open spec fn inner_items(m: Seq<MsgEntry>) -> Seq<(Seq<u8>, Seq<u8>)> {
    m.map(|j: int, e: MsgEntry| (e.msg@, hash_leaf(Seq::<u8>::empty())))
}

/// The digest of one bucket's inner tree.
pub open spec fn bucket_hash(b: SeedBucket) -> Seq<u8> {
    tree_hash(inner_items(b.msgs@))
}

/// The Merkle items the buckets contribute to the outer tree: each seed
/// digest labels its bucket's inner tree.
pub open spec fn outer_items(s: Seq<SeedBucket>) -> Seq<(Seq<u8>, Seq<u8>)> {
    s.map(|i: int, b: SeedBucket| (b.seed@, bucket_hash(b)))
}

/// The digest of a balanced Merkle tree over labeled items: an empty
/// sequence is the empty tree, a single item a labeled node, and a longer
/// sequence a fork of the two halves.
pub open spec fn tree_hash(items: Seq<(Seq<u8>, Seq<u8>)>) -> Seq<u8>
    decreases items.len(),
{
    if items.len() == 0 {
        hash_empty()
    } else if items.len() == 1 {
        hash_labeled(items[0].0, items[0].1)
    } else {
        let mid = (items.len() / 2) as int;
        hash_fork(tree_hash(items.take(mid)), tree_hash(items.skip(mid)))
    }
}

/// The number of entries over all buckets.
pub open spec fn total_entries(s: Seq<SeedBucket>) -> nat
    decreases s.len(),
{
    if s.len() == 0 {
        0
    } else {
        total_entries(s.drop_last()) + s.last().msgs@.len()
    }
}

/// The certified signature store.
pub struct SignatureMap {
    /// The seed buckets, in canonical sorted form.
    pub seeds: Vec<SeedBucket>,
}

impl SignatureMap {
    /// The canonical-form invariant.
    pub open spec fn wf(self) -> bool {
        &&& seeds_sorted(self.seeds@)
        &&& forall|i: int| 0 <= i < self.seeds@.len() ==> bucket_wf(#[trigger] self.seeds@[i])
    }

    /// Whether the pair `(seed, msg)` is a member of the store.
    pub open spec fn contains(self, seed: Seq<u8>, msg: Seq<u8>) -> bool {
        &&& has_seed(self.seeds@, seed)
        &&& has_msg(self.seeds@[seed_idx(self.seeds@, seed)].msgs@, msg)
    }

    /// The expiration recorded for a member pair.
    pub open spec fn expiration_of(self, seed: Seq<u8>, msg: Seq<u8>) -> u64 {
        let m = self.seeds@[seed_idx(self.seeds@, seed)].msgs@;
        m[msg_idx(m, msg)].expiration
    }

    /// The store's root commitment.
    pub open spec fn root_spec(self) -> Seq<u8> {
        tree_hash(outer_items(self.seeds@))
    }

    /// The number of entries in the store.
    pub open spec fn num_entries(self) -> nat {
        total_entries(self.seeds@)
    }

    /// Creates an empty store.
    pub fn new() -> (s: Self)
        ensures
            s.wf(),
            forall|seed: Seq<u8>, msg: Seq<u8>| !s.contains(seed, msg),
            s.root_spec() == hash_empty(),
            s.num_entries() == 0,
    {
        let s = SignatureMap { seeds: Vec::new() };
        proof {
            assert(outer_items(s.seeds@) =~= Seq::<(Seq<u8>, Seq<u8>)>::empty());
        }
        s
    }

    /// Finds the position of `seed` among the buckets: returns `(i, true)`
    /// when bucket `i` carries `seed`, else `(i, false)` with `i` the
    /// insertion point that keeps the buckets sorted.
    fn find_seed_pos(&self, seed: &Digest) -> (r: (usize, bool))
        requires
            self.wf(),
        ensures
            r.1 ==> r.0 < self.seeds@.len() && self.seeds@[r.0 as int].seed@ == seed@
                && has_seed(self.seeds@, seed@) && seed_idx(self.seeds@, seed@) == r.0 as int,
            !r.1 ==> !has_seed(self.seeds@, seed@),
            r.0 <= self.seeds@.len(),
            forall|j: int| 0 <= j < r.0 ==> lex_lt(#[trigger] self.seeds@[j].seed@, seed@),
            !r.1 && r.0 < self.seeds@.len() ==> lex_lt(seed@, self.seeds@[r.0 as int].seed@),
    {
        let n = self.seeds.len();
        let mut i: usize = 0;
        while i < n
            invariant
                self.wf(),
                n == self.seeds@.len(),
                i <= n,
                forall|j: int| 0 <= j < i ==> lex_lt(#[trigger] self.seeds@[j].seed@, seed@),
            decreases n - i,
        {
            if hash_eq(&self.seeds[i].seed, seed) {
                proof {
                    assert(self.seeds@[i as int].seed@ == seed@);
                    let k = seed_idx(self.seeds@, seed@);
                    lemma_seed_unique(self.seeds@, k, i as int);
                }
                return (i, true);
            }
            if !hash_lt(&self.seeds[i].seed, seed) {
                proof {
                    lemma_lex_total(self.seeds@[i as int].seed@, seed@);
                    assert(lex_lt(seed@, self.seeds@[i as int].seed@));
                    if has_seed(self.seeds@, seed@) {
                        let k = seed_idx(self.seeds@, seed@);
                        if k < i {
                            lemma_lex_irrefl(seed@);
                        } else if k > i {
                            // sorted: seeds[i] < seeds[k] == seed, but seed < seeds[i]
                            lemma_lex_asym(seed@, self.seeds@[i as int].seed@);
                        } else {
                            lemma_lex_irrefl(seed@);
                        }
                    }
                }
                return (i, false);
            }
            i = i + 1;
        }
        proof {
            if has_seed(self.seeds@, seed@) {
                let k = seed_idx(self.seeds@, seed@);
                lemma_lex_irrefl(seed@);
            }
        }
        (i, false)
    }

    /// Inserts the membership entry `(seed, msg)` with its expiration.
    /// Re-inserting a pair that is still present leaves the store — and
    /// its recorded expiration — unchanged.
    pub fn insert(&mut self, seed: Digest, msg: Digest, expiration: u64)
        requires
            old(self).wf(),
        ensures
            final(self).wf(),
            forall|s: Seq<u8>, m: Seq<u8>|
                final(self).contains(s, m) <==> (old(self).contains(s, m) || (s == seed@ && m
                    == msg@)),
            forall|s: Seq<u8>, m: Seq<u8>|
                old(self).contains(s, m) ==> final(self).expiration_of(s, m) == old(
                    self,
                ).expiration_of(s, m),
            !old(self).contains(seed@, msg@) ==> final(self).expiration_of(seed@, msg@)
                == expiration,
            final(self).num_entries() == old(self).num_entries() + (
            if old(self).contains(seed@, msg@) {
                0int
            } else {
                1int
            }),
    {
        let (i, found) = self.find_seed_pos(&seed);
        if found {
            let ghost old_seeds = old(self).seeds@;
            let mut bucket = self.seeds.remove(i);
            let (j, mfound) = find_msg_pos(&bucket.msgs, &msg);
            if mfound {
                // entry already present: put the bucket back unchanged
                self.seeds.insert(i, bucket);
                proof {
                    old_seeds.remove_ensures(i as int);
                    old_seeds.remove(i as int).insert_ensures(i as int, self.seeds@[i as int]);
                    assert(self.seeds@ =~= old_seeds);
                }
                return;
            }
            let ghost old_msgs = bucket.msgs@;
            bucket.msgs.insert(j, MsgEntry { msg, expiration });
            self.seeds.insert(i, bucket);
            proof {
                old_seeds.remove_ensures(i as int);
                old_seeds.remove(i as int).insert_ensures(i as int, self.seeds@[i as int]);
                old_msgs.insert_ensures(j as int, MsgEntry { msg, expiration });
                assert(forall|k: int|
                    0 <= k < self.seeds@.len() && k != i ==> self.seeds@[k] == old_seeds[k]);
                self.lemma_insert_existing_post(*old(self), seed@, msg@, expiration, i as int,
                    j as int);
            }
        } else {
            let mut msgs: Vec<MsgEntry> = Vec::new();
            msgs.push(MsgEntry { msg, expiration });
            let ghost old_seeds = old(self).seeds@;
            self.seeds.insert(i, SeedBucket { seed, msgs });
            proof {
                old_seeds.insert_ensures(i as int, self.seeds@[i as int]);
                self.lemma_insert_new_post(*old(self), seed@, msg@, expiration, i as int);
            }
        }
    }

    /// What `insert` establishes when it adds a message to an existing bucket.
    proof fn lemma_insert_existing_post(
        self,
        prev: Self,
        seed: Seq<u8>,
        msg: Seq<u8>,
        expiration: u64,
        i: int,
        j: int,
    )
        requires
            prev.wf(),
            0 <= i < prev.seeds@.len(),
            prev.seeds@[i].seed@ == seed,
            0 <= j <= prev.seeds@[i].msgs@.len(),
            forall|k: int| 0 <= k < j ==> lex_lt(#[trigger] prev.seeds@[i].msgs@[k].msg@, msg),
            j < prev.seeds@[i].msgs@.len() ==> lex_lt(msg, prev.seeds@[i].msgs@[j].msg@),
            !has_msg(prev.seeds@[i].msgs@, msg),
            self.seeds@.len() == prev.seeds@.len(),
            self.seeds@[i].seed@ == seed,
            self.seeds@[i].msgs@ == prev.seeds@[i].msgs@.insert(j, self.seeds@[i].msgs@[j]),
            self.seeds@[i].msgs@[j].msg@ == msg,
            self.seeds@[i].msgs@[j].expiration == expiration,
            forall|k: int|
                0 <= k < self.seeds@.len() && k != i ==> self.seeds@[k] == prev.seeds@[k],
        ensures
            self.wf(),
            forall|s: Seq<u8>, m: Seq<u8>|
                self.contains(s, m) <==> (prev.contains(s, m) || (s == seed && m == msg)),
            forall|s: Seq<u8>, m: Seq<u8>|
                prev.contains(s, m) ==> self.expiration_of(s, m) == prev.expiration_of(s, m),
            self.expiration_of(seed, msg) == expiration,
            self.num_entries() == prev.num_entries() + 1,
    {
        let pm = prev.seeds@[i].msgs@;
        let nm = self.seeds@[i].msgs@;
        pm.insert_ensures(j, nm[j]);
        // sortedness of the new bucket
        assert forall|a: int, b: int| 0 <= a < b < nm.len() implies lex_lt(
            nm[a].msg@,
            nm[b].msg@,
        ) by {
            let pa = if a < j { a } else { a - 1 };
            let pb = if b < j { b } else { b - 1 };
            if a == j {
                // nm[a].msg@ == msg, b > j so nm[b] == pm[b-1], b-1 >= j
                if pb == j {
                    assert(lex_lt(msg, pm[j].msg@));
                } else {
                    lemma_lex_trans(msg, pm[j].msg@, pm[pb].msg@);
                }
            } else if b == j {
                assert(lex_lt(pm[pa].msg@, msg));
            } else {
                assert(nm[a] == pm[pa]);
                assert(nm[b] == pm[pb]);
            }
        }
        assert(bucket_wf(self.seeds@[i]));
        assert forall|k: int| 0 <= k < self.seeds@.len() implies bucket_wf(
            #[trigger] self.seeds@[k],
        ) by {
            if k != i {
                assert(self.seeds@[k] == prev.seeds@[k]);
            }
        }
        assert(seeds_sorted(self.seeds@)) by {
            assert forall|a: int, b: int| 0 <= a < b < self.seeds@.len() implies lex_lt(
                self.seeds@[a].seed@,
                self.seeds@[b].seed@,
            ) by {
                assert(self.seeds@[a].seed@ == prev.seeds@[a].seed@);
                assert(self.seeds@[b].seed@ == prev.seeds@[b].seed@);
            }
        }
        // membership
        assert forall|s: Seq<u8>, m: Seq<u8>| self.contains(s, m) <==> (prev.contains(s, m) || (
        s == seed && m == msg)) by {
            self.lemma_membership_same_seeds(prev, i, j, seed, msg, s, m);
        }
        // expirations preserved
        assert forall|s: Seq<u8>, m: Seq<u8>| prev.contains(s, m) implies self.expiration_of(
            s,
            m,
        ) == prev.expiration_of(s, m) by {
            self.lemma_expiration_same_seeds(prev, i, j, seed, msg, s, m);
        }
        // the new entry's expiration
        assert(self.contains(seed, msg));
        let si = seed_idx(self.seeds@, seed);
        lemma_seed_unique(self.seeds@, si, i);
        let mi = msg_idx(nm, msg);
        lemma_msg_unique(nm, mi, j);
        // counts
        lemma_total_entries_update(prev.seeds@, self.seeds@, i, 1);
    }

    /// Membership in a store differing from `prev` only by one message
    /// inserted at `(i, j)`.
    proof fn lemma_membership_same_seeds(
        self,
        prev: Self,
        i: int,
        j: int,
        seed: Seq<u8>,
        msg: Seq<u8>,
        s: Seq<u8>,
        m: Seq<u8>,
    )
        requires
            prev.wf(),
            self.wf(),
            0 <= i < prev.seeds@.len(),
            self.seeds@.len() == prev.seeds@.len(),
            prev.seeds@[i].seed@ == seed,
            self.seeds@[i].seed@ == seed,
            0 <= j <= prev.seeds@[i].msgs@.len(),
            self.seeds@[i].msgs@ == prev.seeds@[i].msgs@.insert(j, self.seeds@[i].msgs@[j]),
            self.seeds@[i].msgs@[j].msg@ == msg,
            forall|k: int|
                0 <= k < self.seeds@.len() && k != i ==> self.seeds@[k] == prev.seeds@[k],
        ensures
            self.contains(s, m) <==> (prev.contains(s, m) || (s == seed && m == msg)),
    {
        let pm = prev.seeds@[i].msgs@;
        let nm = self.seeds@[i].msgs@;
        pm.insert_ensures(j, nm[j]);
        assert(forall|k: int|
            0 <= k < self.seeds@.len() ==> #[trigger] self.seeds@[k].seed@ == prev.seeds@[k].seed@);
        if prev.contains(s, m) {
            let si = seed_idx(prev.seeds@, s);
            assert(self.seeds@[si].seed@ == s);
            assert(has_seed(self.seeds@, s));
            let si2 = seed_idx(self.seeds@, s);
            lemma_seed_unique(self.seeds@, si2, si);
            let mi = msg_idx(prev.seeds@[si].msgs@, m);
            if si == i {
                let ni = if mi < j { mi } else { mi + 1 };
                assert(nm[ni] == pm[mi]);
                assert(has_msg(nm, m));
            } else {
                assert(self.seeds@[si] == prev.seeds@[si]);
            }
            assert(self.contains(s, m));
        }
        if s == seed && m == msg {
            assert(has_seed(self.seeds@, s));
            let si2 = seed_idx(self.seeds@, s);
            lemma_seed_unique(self.seeds@, si2, i);
            assert(nm[j].msg@ == msg);
            assert(has_msg(nm, m));
            assert(self.contains(s, m));
        }
        if self.contains(s, m) {
            let si = seed_idx(self.seeds@, s);
            assert(prev.seeds@[si].seed@ == s);
            assert(has_seed(prev.seeds@, s));
            let sip = seed_idx(prev.seeds@, s);
            lemma_seed_unique(prev.seeds@, sip, si);
            let mi = msg_idx(self.seeds@[si].msgs@, m);
            if si == i {
                if mi == j {
                    assert(s == seed && m == msg);
                } else {
                    let pi = if mi < j { mi } else { mi - 1 };
                    assert(pm[pi] == nm[mi]);
                    assert(has_msg(pm, m));
                    assert(prev.contains(s, m));
                }
            } else {
                assert(self.seeds@[si] == prev.seeds@[si]);
                assert(prev.contains(s, m));
            }
        }
    }

    /// Expirations of entries of `prev` are unchanged in a store differing
    /// only by one message inserted at `(i, j)`.
    proof fn lemma_expiration_same_seeds(
        self,
        prev: Self,
        i: int,
        j: int,
        seed: Seq<u8>,
        msg: Seq<u8>,
        s: Seq<u8>,
        m: Seq<u8>,
    )
        requires
            prev.wf(),
            self.wf(),
            0 <= i < prev.seeds@.len(),
            self.seeds@.len() == prev.seeds@.len(),
            prev.seeds@[i].seed@ == seed,
            self.seeds@[i].seed@ == seed,
            0 <= j <= prev.seeds@[i].msgs@.len(),
            self.seeds@[i].msgs@ == prev.seeds@[i].msgs@.insert(j, self.seeds@[i].msgs@[j]),
            self.seeds@[i].msgs@[j].msg@ == msg,
            !has_msg(prev.seeds@[i].msgs@, msg),
            forall|k: int|
                0 <= k < self.seeds@.len() && k != i ==> self.seeds@[k] == prev.seeds@[k],
            prev.contains(s, m),
        ensures
            self.expiration_of(s, m) == prev.expiration_of(s, m),
    {
        let pm = prev.seeds@[i].msgs@;
        let nm = self.seeds@[i].msgs@;
        pm.insert_ensures(j, nm[j]);
        assert(forall|k: int|
            0 <= k < self.seeds@.len() ==> #[trigger] self.seeds@[k].seed@ == prev.seeds@[k].seed@);
        let sip = seed_idx(prev.seeds@, s);
        assert(self.seeds@[sip].seed@ == s);
        assert(has_seed(self.seeds@, s));
        let sin = seed_idx(self.seeds@, s);
        lemma_seed_unique(self.seeds@, sin, sip);
        if sip == i {
            let mip = msg_idx(pm, m);
            let ni = if mip < j { mip } else { mip + 1 };
            assert(nm[ni] == pm[mip]);
            assert(has_msg(nm, m));
            let min = msg_idx(nm, m);
            lemma_msg_unique(nm, min, ni);
        } else {
            assert(self.seeds@[sip] == prev.seeds@[sip]);
            assert(has_msg(self.seeds@[sip].msgs@, m));
        }
    }

    /// What `insert` establishes when it creates a fresh bucket at `i`.
    proof fn lemma_insert_new_post(
        self,
        prev: Self,
        seed: Seq<u8>,
        msg: Seq<u8>,
        expiration: u64,
        i: int,
    )
        requires
            prev.wf(),
            0 <= i <= prev.seeds@.len(),
            !has_seed(prev.seeds@, seed),
            forall|k: int| 0 <= k < i ==> lex_lt(#[trigger] prev.seeds@[k].seed@, seed),
            i < prev.seeds@.len() ==> lex_lt(seed, prev.seeds@[i].seed@),
            self.seeds@ == prev.seeds@.insert(i, self.seeds@[i]),
            self.seeds@[i].seed@ == seed,
            self.seeds@[i].msgs@.len() == 1,
            self.seeds@[i].msgs@[0].msg@ == msg,
            self.seeds@[i].msgs@[0].expiration == expiration,
        ensures
            self.wf(),
            forall|s: Seq<u8>, m: Seq<u8>|
                self.contains(s, m) <==> (prev.contains(s, m) || (s == seed && m == msg)),
            forall|s: Seq<u8>, m: Seq<u8>|
                prev.contains(s, m) ==> self.expiration_of(s, m) == prev.expiration_of(s, m),
            self.expiration_of(seed, msg) == expiration,
            self.num_entries() == prev.num_entries() + 1,
    {
        let ns = self.seeds@;
        let ps = prev.seeds@;
        ps.insert_ensures(i, ns[i]);
        assert(ns.len() == ps.len() + 1);
        assert(forall|k: int| 0 <= k < i ==> ns[k] == ps[k]);
        assert(forall|k: int| i < k < ns.len() ==> ns[k] == ps[k - 1]);
        // sortedness
        assert forall|a: int, b: int| 0 <= a < b < ns.len() implies lex_lt(
            ns[a].seed@,
            ns[b].seed@,
        ) by {
            if a == i {
                if b - 1 == i {
                    assert(lex_lt(seed, ps[i].seed@));
                } else {
                    lemma_lex_trans(seed, ps[i].seed@, ps[b - 1].seed@);
                }
            } else if b == i {
                assert(lex_lt(ps[a].seed@, seed));
            } else {
                let pa = if a < i { a } else { a - 1 };
                let pb = if b < i { b } else { b - 1 };
                assert(ns[a] == ps[pa] && ns[b] == ps[pb]);
            }
        }
        assert forall|k: int| 0 <= k < ns.len() implies bucket_wf(#[trigger] ns[k]) by {
            if k != i {
                let pk = if k < i { k } else { k - 1 };
                assert(ns[k] == ps[pk]);
            } else {
                assert(msgs_sorted(ns[i].msgs@));
            }
        }
        // membership, both directions
        assert forall|s: Seq<u8>, m: Seq<u8>| self.contains(s, m) <==> (prev.contains(s, m) || (
        s == seed && m == msg)) by {
            if prev.contains(s, m) {
                let si = seed_idx(ps, s);
                let ni = if si < i { si } else { si + 1 };
                assert(ns[ni] == ps[si]);
                assert(has_seed(ns, s));
                let si2 = seed_idx(ns, s);
                lemma_seed_unique(ns, si2, ni);
                assert(self.contains(s, m));
            }
            if s == seed && m == msg {
                assert(ns[i].seed@ == s);
                assert(has_seed(ns, s));
                let si2 = seed_idx(ns, s);
                lemma_seed_unique(ns, si2, i);
                assert(ns[i].msgs@[0].msg@ == m);
                assert(has_msg(ns[i].msgs@, m));
                assert(self.contains(s, m));
            }
            if self.contains(s, m) {
                let si = seed_idx(ns, s);
                if si == i {
                    assert(s == seed);
                    let mi = msg_idx(ns[i].msgs@, m);
                    assert(mi == 0);
                    assert(m == msg);
                } else {
                    let pi = if si < i { si } else { si - 1 };
                    assert(ps[pi] == ns[si]);
                    assert(has_seed(ps, s));
                    let sip = seed_idx(ps, s);
                    lemma_seed_unique(ps, sip, pi);
                    assert(prev.contains(s, m));
                }
            }
        }
        // expirations preserved
        assert forall|s: Seq<u8>, m: Seq<u8>| prev.contains(s, m) implies self.expiration_of(
            s,
            m,
        ) == prev.expiration_of(s, m) by {
            let sip = seed_idx(ps, s);
            let ni = if sip < i { sip } else { sip + 1 };
            assert(ns[ni] == ps[sip]);
            assert(has_seed(ns, s));
            let sin = seed_idx(ns, s);
            lemma_seed_unique(ns, sin, ni);
        }
        // the new entry
        assert(self.contains(seed, msg));
        let si = seed_idx(ns, seed);
        lemma_seed_unique(ns, si, i);
        let mi = msg_idx(ns[i].msgs@, msg);
        assert(mi == 0);
        // counts
        lemma_total_entries_insert(ps, ns, i);
    }
}

/// Computes the digest of the inner Merkle tree over the entry range
/// `[lo, hi)` of one bucket.
fn inner_range_hash(msgs: &Vec<MsgEntry>, lo: usize, hi: usize) -> (h: Digest)
    requires
        lo <= hi <= msgs@.len(),
    ensures
        h@ == tree_hash(inner_items(msgs@).subrange(lo as int, hi as int)),
    decreases hi - lo,
{
    let ghost sub = inner_items(msgs@).subrange(lo as int, hi as int);
    if lo == hi {
        proof {
            assert(sub =~= Seq::<(Seq<u8>, Seq<u8>)>::empty());
        }
        empty_hash()
    } else if hi - lo == 1 {
        let ev: Vec<u8> = Vec::new();
        proof {
            assert(ev@ =~= Seq::<u8>::empty());
        }
        let lh = leaf_hash(ev.as_slice());
        let h = labeled_hash(msgs[lo].msg.as_slice(), &lh);
        proof {
            assert(sub[0] == inner_items(msgs@)[lo as int]);
        }
        h
    } else {
        let mid = lo + (hi - lo) / 2;
        let l = inner_range_hash(msgs, lo, mid);
        let r = inner_range_hash(msgs, mid, hi);
        let h = fork_hash(&l, &r);
        proof {
            assert(sub.take((sub.len() / 2) as int) =~= inner_items(msgs@).subrange(
                lo as int,
                mid as int,
            ));
            assert(sub.skip((sub.len() / 2) as int) =~= inner_items(msgs@).subrange(
                mid as int,
                hi as int,
            ));
        }
        h
    }
}

/// Computes the digest of the outer Merkle tree over the bucket range
/// `[lo, hi)`.
fn outer_range_hash(seeds: &Vec<SeedBucket>, lo: usize, hi: usize) -> (h: Digest)
    requires
        lo <= hi <= seeds@.len(),
    ensures
        h@ == tree_hash(outer_items(seeds@).subrange(lo as int, hi as int)),
    decreases hi - lo,
{
    let ghost sub = outer_items(seeds@).subrange(lo as int, hi as int);
    if lo == hi {
        proof {
            assert(sub =~= Seq::<(Seq<u8>, Seq<u8>)>::empty());
        }
        empty_hash()
    } else if hi - lo == 1 {
        let nm = seeds[lo].msgs.len();
        let bh = inner_range_hash(&seeds[lo].msgs, 0, nm);
        let h = labeled_hash(seeds[lo].seed.as_slice(), &bh);
        proof {
            assert(inner_items(seeds@[lo as int].msgs@).subrange(0, nm as int) =~= inner_items(
                seeds@[lo as int].msgs@,
            ));
            assert(sub[0] == outer_items(seeds@)[lo as int]);
        }
        h
    } else {
        let mid = lo + (hi - lo) / 2;
        let l = outer_range_hash(seeds, lo, mid);
        let r = outer_range_hash(seeds, mid, hi);
        let h = fork_hash(&l, &r);
        proof {
            assert(sub.take((sub.len() / 2) as int) =~= outer_items(seeds@).subrange(
                lo as int,
                mid as int,
            ));
            assert(sub.skip((sub.len() / 2) as int) =~= outer_items(seeds@).subrange(
                mid as int,
                hi as int,
            ));
        }
        h
    }
}

/// Builds the pruned inner tree for the entry range `[lo, hi)` of one
/// bucket, exposing the entry at `target`.
fn inner_witness(msgs: &Vec<MsgEntry>, lo: usize, hi: usize, target: usize) -> (t: HashTree)
    requires
        lo <= target < hi <= msgs@.len(),
    ensures
        reconstruct(t) == tree_hash(inner_items(msgs@).subrange(lo as int, hi as int)),
        exposes_msg(t, msgs@[target as int].msg@),
    decreases hi - lo,
{
    let ghost sub = inner_items(msgs@).subrange(lo as int, hi as int);
    if hi - lo == 1 {
        let label = hash_to_vec(&msgs[lo].msg);
        let ev: Vec<u8> = Vec::new();
        proof {
            assert(ev@ =~= Seq::<u8>::empty());
        }
        let t = HashTree::Labeled(label, Box::new(HashTree::Leaf(ev)));
        proof {
            assert(reconstruct(HashTree::Leaf(ev)) == hash_leaf(ev@));
            assert(sub[0] == inner_items(msgs@)[lo as int]);
        }
        t
    } else {
        let mid = lo + (hi - lo) / 2;
        proof {
            assert(sub.take((sub.len() / 2) as int) =~= inner_items(msgs@).subrange(
                lo as int,
                mid as int,
            ));
            assert(sub.skip((sub.len() / 2) as int) =~= inner_items(msgs@).subrange(
                mid as int,
                hi as int,
            ));
        }
        if target < mid {
            let l = inner_witness(msgs, lo, mid, target);
            let rh = inner_range_hash(msgs, mid, hi);
            proof {
                assert(reconstruct(HashTree::Pruned(rh)) == rh@);
            }
            HashTree::Fork(Box::new(l), Box::new(HashTree::Pruned(rh)))
        } else {
            let lh = inner_range_hash(msgs, lo, mid);
            let r = inner_witness(msgs, mid, hi, target);
            proof {
                assert(reconstruct(HashTree::Pruned(lh)) == lh@);
            }
            HashTree::Fork(Box::new(HashTree::Pruned(lh)), Box::new(r))
        }
    }
}

/// Builds the pruned outer tree for the bucket range `[lo, hi)`, exposing
/// entry `mi` of bucket `si`.
fn outer_witness(seeds: &Vec<SeedBucket>, lo: usize, hi: usize, si: usize, mi: usize) -> (t:
    HashTree)
    requires
        lo <= si < hi <= seeds@.len(),
        mi < seeds@[si as int].msgs@.len(),
    ensures
        reconstruct(t) == tree_hash(outer_items(seeds@).subrange(lo as int, hi as int)),
        exposes_entry(t, seeds@[si as int].seed@, seeds@[si as int].msgs@[mi as int].msg@),
    decreases hi - lo,
{
    let ghost sub = outer_items(seeds@).subrange(lo as int, hi as int);
    if hi - lo == 1 {
        let nm = seeds[lo].msgs.len();
        let label = hash_to_vec(&seeds[lo].seed);
        let inner = inner_witness(&seeds[lo].msgs, 0, nm, mi);
        let t = HashTree::Labeled(label, Box::new(inner));
        proof {
            assert(inner_items(seeds@[lo as int].msgs@).subrange(0, nm as int) =~= inner_items(
                seeds@[lo as int].msgs@,
            ));
            assert(sub[0] == outer_items(seeds@)[lo as int]);
        }
        t
    } else {
        let mid = lo + (hi - lo) / 2;
        proof {
            assert(sub.take((sub.len() / 2) as int) =~= outer_items(seeds@).subrange(
                lo as int,
                mid as int,
            ));
            assert(sub.skip((sub.len() / 2) as int) =~= outer_items(seeds@).subrange(
                mid as int,
                hi as int,
            ));
        }
        if si < mid {
            let l = outer_witness(seeds, lo, mid, si, mi);
            let rh = outer_range_hash(seeds, mid, hi);
            proof {
                assert(reconstruct(HashTree::Pruned(rh)) == rh@);
            }
            HashTree::Fork(Box::new(l), Box::new(HashTree::Pruned(rh)))
        } else {
            let lh = outer_range_hash(seeds, lo, mid);
            let r = outer_witness(seeds, mid, hi, si, mi);
            proof {
                assert(reconstruct(HashTree::Pruned(lh)) == lh@);
            }
            HashTree::Fork(Box::new(HashTree::Pruned(lh)), Box::new(r))
        }
    }
}

impl SignatureMap {
    /// Computes the current root commitment.
    pub fn root_hash(&self) -> (h: Digest)
        ensures
            h@ == self.root_spec(),
    {
        let n = self.seeds.len();
        let h = outer_range_hash(&self.seeds, 0, n);
        proof {
            assert(outer_items(self.seeds@).subrange(0, n as int) =~= outer_items(self.seeds@));
        }
        h
    }

    /// Returns a minimal proof path for the pair `(seed, msg)` when it is
    /// a member of the store: a pruned tree that recomputes to the current
    /// root commitment and exposes the entry. Returns `None` exactly when
    /// the pair is absent.
    pub fn witness(&self, seed: &Digest, msg: &Digest) -> (w: Option<HashTree>)
        requires
            self.wf(),
        ensures
            match w {
                Some(t) => self.contains(seed@, msg@) && reconstruct(t) == self.root_spec()
                    && exposes_entry(t, seed@, msg@),
                None => !self.contains(seed@, msg@),
            },
    {
        let (i, found) = self.find_seed_pos(seed);
        if !found {
            return None;
        }
        let (j, mfound) = find_msg_pos(&self.seeds[i].msgs, msg);
        if !mfound {
            return None;
        }
        let n = self.seeds.len();
        let t = outer_witness(&self.seeds, 0, n, i, j);
        proof {
            assert(outer_items(self.seeds@).subrange(0, n as int) =~= outer_items(self.seeds@));
        }
        Some(t)
    }
}

/// The domain label under which the root commitment is published for
/// external certification; distinct from every label inside the tree.
pub open spec fn sig_label() -> Seq<u8> {
    seq![115u8, 105u8, 103u8]
}

/// Builds the certification label as bytes.
fn sig_label_vec() -> (v: Vec<u8>)
    ensures
        v@ == sig_label(),
{
    let mut v: Vec<u8> = Vec::new();
    v.push(115);
    v.push(105);
    v.push(103);
    proof {
        assert(v@ =~= sig_label());
    }
    v
}

impl SignatureMap {
    /// The digest to hand to the external certification mechanism: the
    /// root commitment wrapped under the outer domain label, so that no
    /// inner sub-tree root can pass for the whole store's commitment.
    pub fn certified_data_hash(&self) -> (h: Digest)
        ensures
            h@ == hash_labeled(sig_label(), self.root_spec()),
    {
        let r = self.root_hash();
        let label = sig_label_vec();
        labeled_hash(label.as_slice(), &r)
    }

    /// Builds the tree a caller packages as signature bytes: the witness
    /// for `(seed, msg)` wrapped under the certification label. Recomputing
    /// its digest yields exactly the certified state digest.
    pub fn signature_tree(&self, seed: &Digest, msg: &Digest) -> (w: Option<HashTree>)
        requires
            self.wf(),
        ensures
            match w {
                Some(t) => self.contains(seed@, msg@) && reconstruct(t) == hash_labeled(
                    sig_label(),
                    self.root_spec(),
                ) && (t matches HashTree::Labeled(l, sub) && l@ == sig_label() && exposes_entry(
                    *sub,
                    seed@,
                    msg@,
                )),
                None => !self.contains(seed@, msg@),
            },
    {
        match self.witness(seed, msg) {
            None => None,
            Some(t) => {
                let label = sig_label_vec();
                Some(HashTree::Labeled(label, Box::new(t)))
            },
        }
    }
}

/// The entries that survive a pruning at time `now`.
pub open spec fn live(now: u64) -> spec_fn(MsgEntry) -> bool {
    |e: MsgEntry| e.expiration > now
}

/// One step of the prefix count: taking one more bucket adds its entries.
proof fn lemma_total_take_step(s: Seq<SeedBucket>, k: int)
    requires
        0 <= k < s.len(),
    ensures
        total_entries(s.take(k + 1)) == total_entries(s.take(k)) + s[k].msgs@.len(),
{
    assert(s.take(k + 1).drop_last() =~= s.take(k));
    assert(s.take(k + 1).last() == s[k]);
}

/// A prefix never holds more entries than the whole sequence.
proof fn lemma_total_take_le(s: Seq<SeedBucket>, k: int)
    requires
        0 <= k <= s.len(),
    ensures
        total_entries(s.take(k)) <= total_entries(s),
    decreases s.len() - k,
{
    if k == s.len() {
        assert(s.take(k) =~= s);
    } else {
        lemma_total_take_step(s, k);
        lemma_total_take_le(s, k + 1);
    }
}

/// Appending a bucket adds its entries to the count.
proof fn lemma_total_push(s: Seq<SeedBucket>, b: SeedBucket)
    ensures
        total_entries(s.push(b)) == total_entries(s) + b.msgs@.len(),
{
    assert(s.push(b).drop_last() =~= s);
    assert(s.push(b).last() == b);
}

impl SignatureMap {
    /// What pruning establishes: `cur` holds exactly the entries of `prev`
    /// whose expiration lies beyond `now`, with their expirations intact.
    proof fn lemma_prune_post(prev: Self, cur: Self, orig: Seq<int>, now: u64)
        requires
            prev.wf(),
            orig.len() == cur.seeds@.len(),
            forall|p: int| 0 <= p < orig.len() ==> 0 <= #[trigger] orig[p] < prev.seeds@.len(),
            forall|p: int, q: int| 0 <= p < q < orig.len() ==> orig[p] < orig[q],
            forall|p: int|
                0 <= p < cur.seeds@.len() ==> (#[trigger] cur.seeds@[p]).seed@
                    == prev.seeds@[orig[p]].seed@,
            forall|p: int|
                0 <= p < cur.seeds@.len() ==> (#[trigger] cur.seeds@[p]).msgs@
                    == prev.seeds@[orig[p]].msgs@.filter(live(now)),
            forall|p: int|
                0 <= p < cur.seeds@.len() ==> (#[trigger] cur.seeds@[p]).msgs@.len() > 0,
            forall|p: int| 0 <= p < cur.seeds@.len() ==> msgs_sorted((#[trigger] cur.seeds@[p]).msgs@),
            forall|q: int|
                0 <= q < prev.seeds@.len() && (#[trigger] prev.seeds@[q]).msgs@.filter(
                    live(now),
                ).len() > 0 ==> exists|p: int| 0 <= p < orig.len() && orig[p] == q,
        ensures
            cur.wf(),
            forall|s: Seq<u8>, m: Seq<u8>|
                cur.contains(s, m) <==> (prev.contains(s, m) && prev.expiration_of(s, m) > now),
            forall|s: Seq<u8>, m: Seq<u8>|
                cur.contains(s, m) ==> cur.expiration_of(s, m) == prev.expiration_of(s, m),
    {
        let cs = cur.seeds@;
        let ps = prev.seeds@;
        // canonical form
        assert forall|a: int, b: int| 0 <= a < b < cs.len() implies lex_lt(
            cs[a].seed@,
            cs[b].seed@,
        ) by {
            assert(cs[a].seed@ == ps[orig[a]].seed@);
            assert(cs[b].seed@ == ps[orig[b]].seed@);
        }
        assert(cur.wf());
        // each direction of membership, with expirations
        assert forall|s: Seq<u8>, m: Seq<u8>| cur.contains(s, m) implies (prev.contains(s, m)
            && prev.expiration_of(s, m) > now && cur.expiration_of(s, m) == prev.expiration_of(
            s,
            m,
        )) by {
            let p = seed_idx(cs, s);
            let q = orig[p];
            assert(ps[q].seed@ == s);
            assert(has_seed(ps, s));
            lemma_seed_unique(ps, seed_idx(ps, s), q);
            let mi = msg_idx(cs[p].msgs@, m);
            let e = cs[p].msgs@[mi];
            ps[q].msgs@.filter_lemma(live(now));
            assert(live(now)(e));
            assert(cs[p].msgs@.contains(e));
            ps[q].msgs@.lemma_filter_contains_rev(live(now), e);
            let oi = choose|oi: int| 0 <= oi < ps[q].msgs@.len() && ps[q].msgs@[oi] == e;
            assert(ps[q].msgs@[oi].msg@ == m);
            assert(has_msg(ps[q].msgs@, m));
            lemma_msg_unique(ps[q].msgs@, msg_idx(ps[q].msgs@, m), oi);
            lemma_msg_unique(cs[p].msgs@, msg_idx(cs[p].msgs@, m), mi);
        }
        assert forall|s: Seq<u8>, m: Seq<u8>|
            prev.contains(s, m) && prev.expiration_of(s, m) > now implies cur.contains(
            s,
            m,
        ) by {
            let q = seed_idx(ps, s);
            let oi = msg_idx(ps[q].msgs@, m);
            let e = ps[q].msgs@[oi];
            ps[q].msgs@.filter_lemma(live(now));
            assert(live(now)(e));
            assert(ps[q].msgs@.filter(live(now)).contains(e));
            let p = choose|p: int| 0 <= p < orig.len() && orig[p] == q;
            assert(cs[p].msgs@ == ps[q].msgs@.filter(live(now)));
            assert(cs[p].seed@ == s);
            assert(has_seed(cs, s));
            lemma_seed_unique(cs, seed_idx(cs, s), p);
            let ci = choose|ci: int| 0 <= ci < cs[p].msgs@.len() && cs[p].msgs@[ci] == e;
            assert(cs[p].msgs@[ci].msg@ == m);
            assert(has_msg(cs[p].msgs@, m));
        }
    }

    /// Removes every entry whose expiration is at or before `now`, and
    /// recomputes nothing eagerly: the commitment follows from the new
    /// canonical form. Returns the number of entries removed (exact
    /// whenever the store's entry count fits the machine word).
    pub fn prune(&mut self, now: u64) -> (count: usize)
        requires
            old(self).wf(),
        ensures
            final(self).wf(),
            forall|s: Seq<u8>, m: Seq<u8>|
                final(self).contains(s, m) <==> (old(self).contains(s, m) && old(
                    self,
                ).expiration_of(s, m) > now),
            forall|s: Seq<u8>, m: Seq<u8>|
                final(self).contains(s, m) ==> final(self).expiration_of(s, m) == old(
                    self,
                ).expiration_of(s, m),
            old(self).num_entries() <= usize::MAX ==> count == old(self).num_entries()
                - final(self).num_entries(),
    {
        let n = self.seeds.len();
        let mut kept_seeds: Vec<SeedBucket> = Vec::new();
        let mut count: usize = 0;
        let ghost mut orig: Seq<int> = Seq::empty();
        for k in 0..n
            invariant
                self.wf(),
                n == self.seeds@.len(),
                orig.len() == kept_seeds@.len(),
                forall|p: int| 0 <= p < orig.len() ==> 0 <= #[trigger] orig[p] < k,
                forall|p: int, q: int| 0 <= p < q < orig.len() ==> orig[p] < orig[q],
                forall|p: int|
                    0 <= p < kept_seeds@.len() ==> (#[trigger] kept_seeds@[p]).seed@
                        == self.seeds@[orig[p]].seed@,
                forall|p: int|
                    0 <= p < kept_seeds@.len() ==> (#[trigger] kept_seeds@[p]).msgs@
                        == self.seeds@[orig[p]].msgs@.filter(live(now)),
                forall|p: int|
                    0 <= p < kept_seeds@.len() ==> (#[trigger] kept_seeds@[p]).msgs@.len() > 0,
                forall|p: int|
                    0 <= p < kept_seeds@.len() ==> msgs_sorted(
                        (#[trigger] kept_seeds@[p]).msgs@,
                    ),
                forall|q: int|
                    0 <= q < k && (#[trigger] self.seeds@[q]).msgs@.filter(live(now)).len() > 0
                        ==> exists|p: int| 0 <= p < orig.len() && orig[p] == q,
                total_entries(self.seeds@) <= usize::MAX ==> count == total_entries(
                    self.seeds@.take(k as int),
                ) - total_entries(kept_seeds@),
                total_entries(kept_seeds@) <= total_entries(self.seeds@.take(k as int)),
        {
            let m = self.seeds[k].msgs.len();
            let mut kept: Vec<MsgEntry> = Vec::new();
            let ghost bm = self.seeds@[k as int].msgs@;
            proof {
                reveal(Seq::<_>::filter);
                assert(kept@ =~= bm.take(0));
            }
            let mut j: usize = 0;
            while j < m
                invariant
                    j <= m,
                    self.wf(),
                    n == self.seeds@.len(),
                    k < n,
                    bm == self.seeds@[k as int].msgs@,
                    m == bm.len(),
                    kept@ == bm.take(j as int).filter(live(now)),
                    msgs_sorted(kept@),
                    forall|p: int|
                        #![trigger kept@[p]]
                        0 <= p < kept@.len() ==> exists|oi: int|
                            0 <= oi < j && kept@[p] == #[trigger] bm[oi],
                    kept@.len() <= j,
                    total_entries(self.seeds@) <= usize::MAX ==> count == total_entries(
                        self.seeds@.take(k as int),
                    ) - total_entries(kept_seeds@),
                    total_entries(kept_seeds@) <= total_entries(self.seeds@.take(k as int)),
                decreases m - j,
            {
                let e = self.seeds[k].msgs[j];
                proof {
                    reveal(Seq::<_>::filter);
                    let tk = bm.take(j as int);
                    let tk1 = bm.take(j + 1);
                    assert(tk1.drop_last() =~= tk);
                    assert(tk1.last() == bm[j as int]);
                    tk.filter_lemma(live(now));
                }
                if e.expiration > now {
                    let ghost kept0 = kept@;
                    proof {
                        assert forall|p: int| 0 <= p < kept0.len() implies lex_lt(
                            kept0[p].msg@,
                            e.msg@,
                        ) by {
                            let oi = choose|oi: int| 0 <= oi < j && kept0[p] == #[trigger] bm[oi];
                            assert(lex_lt(bm[oi].msg@, bm[j as int].msg@));
                        }
                    }
                    kept.push(e);
                    proof {
                        assert forall|p: int|
                            #![trigger kept@[p]]
                            0 <= p < kept@.len() implies exists|oi: int|
                            0 <= oi < j + 1 && kept@[p] == #[trigger] bm[oi] by {
                            if p < kept0.len() {
                                assert(kept@[p] == kept0[p]);
                                let oi = choose|oi: int|
                                    0 <= oi < j && kept0[p] == #[trigger] bm[oi];
                                assert(kept@[p] == bm[oi]);
                            } else {
                                assert(kept@[p] == bm[j as int]);
                            }
                        }
                        assert(msgs_sorted(kept@)) by {
                            assert forall|a: int, b: int| 0 <= a < b < kept@.len() implies lex_lt(
                                kept@[a].msg@,
                                kept@[b].msg@,
                            ) by {
                                if b < kept0.len() {
                                    assert(kept@[a] == kept0[a] && kept@[b] == kept0[b]);
                                } else {
                                    assert(kept@[a] == kept0[a] && kept@[b] == e);
                                }
                            }
                        }
                    }
                } else {
                    proof {
                        assert forall|p: int|
                            #![trigger kept@[p]]
                            0 <= p < kept@.len() implies exists|oi: int|
                            0 <= oi < j + 1 && kept@[p] == #[trigger] bm[oi] by {
                            let oi = choose|oi: int| 0 <= oi < j && kept@[p] == #[trigger] bm[oi];
                            assert(kept@[p] == bm[oi]);
                        }
                    }
                }
                j = j + 1;
            }
            proof {
                assert(bm.take(m as int) =~= bm);
                lemma_total_take_step(self.seeds@, k as int);
                lemma_total_take_le(self.seeds@, k as int + 1);
                bm.filter_lemma(live(now));
            }
            let removed_here = m - kept.len();
            if kept.len() > 0 {
                let sd = self.seeds[k].seed;
                let ghost old_kept_seeds = kept_seeds@;
                let ghost orig0 = orig;
                kept_seeds.push(SeedBucket { seed: sd, msgs: kept });
                proof {
                    lemma_total_push(old_kept_seeds, kept_seeds@.last());
                    orig = orig.push(k as int);
                    assert forall|q: int|
                        0 <= q < k + 1 && (#[trigger] self.seeds@[q]).msgs@.filter(
                            live(now),
                        ).len() > 0 implies exists|p: int|
                        0 <= p < orig.len() && orig[p] == q by {
                        if q < k {
                            let p0 = choose|p0: int| 0 <= p0 < orig0.len() && orig0[p0] == q;
                            assert(orig[p0] == q);
                        } else {
                            assert(orig[orig.len() - 1] == q);
                        }
                    }
                }
            } else {
                proof {
                    assert(self.seeds@[k as int].msgs@.filter(live(now)).len() == 0);
                }
            }
            if count < usize::MAX - removed_here {
                count = count + removed_here;
            } else {
                count = usize::MAX;
            }
        }
        proof {
            assert(self.seeds@.take(n as int) =~= self.seeds@);
        }
        self.seeds = kept_seeds;
        proof {
            Self::lemma_prune_post(*old(self), *self, orig, now);
        }
        count
    }
}

/// Two strictly sorted bucket sequences carrying the same seeds have the
/// same seeds in the same positions.
proof fn lemma_sorted_buckets_align(x: Seq<SeedBucket>, y: Seq<SeedBucket>)
    requires
        seeds_sorted(x),
        seeds_sorted(y),
        forall|s: Seq<u8>| has_seed(x, s) <==> has_seed(y, s),
    ensures
        x.len() == y.len(),
        forall|i: int| 0 <= i < x.len() ==> x[i].seed@ == y[i].seed@,
    decreases x.len(),
{
    if x.len() == 0 {
        if y.len() > 0 {
            assert(has_seed(y, y[0].seed@));
        }
    } else if y.len() == 0 {
        assert(has_seed(x, x[0].seed@));
    } else {
        // the heads carry the same seed
        assert(has_seed(x, x[0].seed@));
        assert(has_seed(y, y[0].seed@));
        if x[0].seed@ != y[0].seed@ {
            let jy = choose|j: int| 0 <= j < y.len() && y[j].seed@ == x[0].seed@;
            let jx = choose|j: int| 0 <= j < x.len() && x[j].seed@ == y[0].seed@;
            assert(jy >= 1 && jx >= 1);
            assert(lex_lt(y[0].seed@, y[jy].seed@));
            assert(lex_lt(x[0].seed@, x[jx].seed@));
            lemma_lex_asym(x[0].seed@, y[0].seed@);
        }
        let xt = x.drop_first();
        let yt = y.drop_first();
        assert forall|a: int, b: int| 0 <= a < b < xt.len() implies lex_lt(
            xt[a].seed@,
            xt[b].seed@,
        ) by {
            assert(xt[a] == x[a + 1] && xt[b] == x[b + 1]);
        }
        assert forall|a: int, b: int| 0 <= a < b < yt.len() implies lex_lt(
            yt[a].seed@,
            yt[b].seed@,
        ) by {
            assert(yt[a] == y[a + 1] && yt[b] == y[b + 1]);
        }
        assert forall|s: Seq<u8>| has_seed(xt, s) <==> has_seed(yt, s) by {
            lemma_tail_has_seed(x, s);
            lemma_tail_has_seed(y, s);
        }
        lemma_sorted_buckets_align(xt, yt);
        assert forall|i: int| 0 <= i < x.len() implies x[i].seed@ == y[i].seed@ by {
            if i >= 1 {
                assert(xt[i - 1] == x[i] && yt[i - 1] == y[i]);
            }
        }
    }
}

/// A seed lies in the tail of a sorted bucket sequence exactly when it
/// lies in the sequence and differs from the head's seed.
proof fn lemma_tail_has_seed(x: Seq<SeedBucket>, s: Seq<u8>)
    requires
        seeds_sorted(x),
        x.len() >= 1,
    ensures
        has_seed(x.drop_first(), s) <==> (has_seed(x, s) && s != x[0].seed@),
{
    let xt = x.drop_first();
    if has_seed(xt, s) {
        let i = choose|i: int| 0 <= i < xt.len() && xt[i].seed@ == s;
        assert(xt[i] == x[i + 1]);
        assert(has_seed(x, s));
        if s == x[0].seed@ {
            lemma_seed_unique(x, 0, i + 1);
        }
    }
    if has_seed(x, s) && s != x[0].seed@ {
        let i = choose|i: int| 0 <= i < x.len() && x[i].seed@ == s;
        assert(i >= 1);
        assert(xt[i - 1] == x[i]);
        assert(has_seed(xt, s));
    }
}

/// Two strictly sorted entry sequences carrying the same messages have
/// the same messages in the same positions.
proof fn lemma_sorted_msgs_align(x: Seq<MsgEntry>, y: Seq<MsgEntry>)
    requires
        msgs_sorted(x),
        msgs_sorted(y),
        forall|m: Seq<u8>| has_msg(x, m) <==> has_msg(y, m),
    ensures
        x.len() == y.len(),
        forall|i: int| 0 <= i < x.len() ==> x[i].msg@ == y[i].msg@,
    decreases x.len(),
{
    if x.len() == 0 {
        if y.len() > 0 {
            assert(has_msg(y, y[0].msg@));
        }
    } else if y.len() == 0 {
        assert(has_msg(x, x[0].msg@));
    } else {
        assert(has_msg(x, x[0].msg@));
        assert(has_msg(y, y[0].msg@));
        if x[0].msg@ != y[0].msg@ {
            let jy = choose|j: int| 0 <= j < y.len() && y[j].msg@ == x[0].msg@;
            let jx = choose|j: int| 0 <= j < x.len() && x[j].msg@ == y[0].msg@;
            assert(jy >= 1 && jx >= 1);
            assert(lex_lt(y[0].msg@, y[jy].msg@));
            assert(lex_lt(x[0].msg@, x[jx].msg@));
            lemma_lex_asym(x[0].msg@, y[0].msg@);
        }
        let xt = x.drop_first();
        let yt = y.drop_first();
        assert forall|a: int, b: int| 0 <= a < b < xt.len() implies lex_lt(
            xt[a].msg@,
            xt[b].msg@,
        ) by {
            assert(xt[a] == x[a + 1] && xt[b] == x[b + 1]);
        }
        assert forall|a: int, b: int| 0 <= a < b < yt.len() implies lex_lt(
            yt[a].msg@,
            yt[b].msg@,
        ) by {
            assert(yt[a] == y[a + 1] && yt[b] == y[b + 1]);
        }
        assert forall|m: Seq<u8>| has_msg(xt, m) <==> has_msg(yt, m) by {
            lemma_tail_has_msg(x, m);
            lemma_tail_has_msg(y, m);
        }
        lemma_sorted_msgs_align(xt, yt);
        assert forall|i: int| 0 <= i < x.len() implies x[i].msg@ == y[i].msg@ by {
            if i >= 1 {
                assert(xt[i - 1] == x[i] && yt[i - 1] == y[i]);
            }
        }
    }
}

/// A message lies in the tail of a sorted entry sequence exactly when it
/// lies in the sequence and differs from the head's message.
proof fn lemma_tail_has_msg(x: Seq<MsgEntry>, m: Seq<u8>)
    requires
        msgs_sorted(x),
        x.len() >= 1,
    ensures
        has_msg(x.drop_first(), m) <==> (has_msg(x, m) && m != x[0].msg@),
{
    let xt = x.drop_first();
    if has_msg(xt, m) {
        let i = choose|i: int| 0 <= i < xt.len() && xt[i].msg@ == m;
        assert(xt[i] == x[i + 1]);
        assert(has_msg(x, m));
        if m == x[0].msg@ {
            lemma_msg_unique(x, 0, i + 1);
        }
    }
    if has_msg(x, m) && m != x[0].msg@ {
        let i = choose|i: int| 0 <= i < x.len() && x[i].msg@ == m;
        assert(i >= 1);
        assert(xt[i - 1] == x[i]);
        assert(has_msg(xt, m));
    }
}

/// Order independence of the root commitment: any two well-formed stores
/// holding the same entry set — however differently their histories of
/// inserts and prunes ran — have the same root commitment.
pub proof fn lemma_root_order_independence(a: SignatureMap, b: SignatureMap)
    requires
        a.wf(),
        b.wf(),
        forall|s: Seq<u8>, m: Seq<u8>| a.contains(s, m) <==> b.contains(s, m),
    ensures
        a.root_spec() == b.root_spec(),
{
    let xs = a.seeds@;
    let ys = b.seeds@;
    // same seeds are present
    assert forall|s: Seq<u8>| has_seed(xs, s) <==> has_seed(ys, s) by {
        if has_seed(xs, s) {
            let i = seed_idx(xs, s);
            assert(bucket_wf(xs[i]));
            assert(has_msg(xs[i].msgs@, xs[i].msgs@[0].msg@));
            assert(a.contains(s, xs[i].msgs@[0].msg@));
            assert(b.contains(s, xs[i].msgs@[0].msg@));
        }
        if has_seed(ys, s) {
            let i = seed_idx(ys, s);
            assert(bucket_wf(ys[i]));
            assert(has_msg(ys[i].msgs@, ys[i].msgs@[0].msg@));
            assert(b.contains(s, ys[i].msgs@[0].msg@));
            assert(a.contains(s, ys[i].msgs@[0].msg@));
        }
    }
    lemma_sorted_buckets_align(xs, ys);
    // bucket by bucket, the same messages are present
    assert forall|i: int| 0 <= i < xs.len() implies inner_items(xs[i].msgs@) =~= inner_items(
        ys[i].msgs@,
    ) by {
        let s = xs[i].seed@;
        assert(has_seed(xs, s));
        lemma_seed_unique(xs, seed_idx(xs, s), i);
        assert(has_seed(ys, s));
        lemma_seed_unique(ys, seed_idx(ys, s), i);
        assert(bucket_wf(xs[i]) && bucket_wf(ys[i]));
        assert forall|m: Seq<u8>| has_msg(xs[i].msgs@, m) <==> has_msg(ys[i].msgs@, m) by {
            if has_msg(xs[i].msgs@, m) {
                assert(a.contains(s, m));
                assert(b.contains(s, m));
            }
            if has_msg(ys[i].msgs@, m) {
                assert(b.contains(s, m));
                assert(a.contains(s, m));
            }
        }
        lemma_sorted_msgs_align(xs[i].msgs@, ys[i].msgs@);
    }
    assert(outer_items(xs) =~= outer_items(ys));
}

/// Pruning completeness: when every entry of a store has expired by
/// `now`, the state that `prune(now)` leaves behind holds no entry at
/// all, so no pruned entry can still be reached through `witness`.
pub proof fn lemma_prune_completeness(prev: SignatureMap, cur: SignatureMap, now: u64)
    requires
        forall|s: Seq<u8>, m: Seq<u8>|
            cur.contains(s, m) <==> (prev.contains(s, m) && prev.expiration_of(s, m) > now),
        forall|s: Seq<u8>, m: Seq<u8>|
            prev.contains(s, m) ==> prev.expiration_of(s, m) <= now,
    ensures
        forall|s: Seq<u8>, m: Seq<u8>| !cur.contains(s, m),
{
}

/// A well-formed store without a single member pair holds no entries at
/// all: every bucket is non-empty, so its count can only be zero when no
/// bucket remains.
pub proof fn lemma_no_entries_means_empty(m: SignatureMap)
    requires
        m.wf(),
        forall|s: Seq<u8>, msg: Seq<u8>| !m.contains(s, msg),
    ensures
        m.num_entries() == 0,
{
    if m.seeds@.len() > 0 {
        assert(bucket_wf(m.seeds@[0]));
        let s = m.seeds@[0].seed@;
        assert(has_seed(m.seeds@, s));
        lemma_seed_unique(m.seeds@, seed_idx(m.seeds@, s), 0);
        let msg = m.seeds@[0].msgs@[0].msg@;
        assert(has_msg(m.seeds@[0].msgs@, msg));
        assert(m.contains(s, msg));
    }
}

/// Finds the position of `msg` among a bucket's entries, as
/// `SignatureMap::find_seed_pos` does for seeds.
fn find_msg_pos(m: &Vec<MsgEntry>, msg: &Digest) -> (r: (usize, bool))
    requires
        msgs_sorted(m@),
    ensures
        r.1 ==> r.0 < m@.len() && m@[r.0 as int].msg@ == msg@ && has_msg(m@, msg@) && msg_idx(
            m@,
            msg@,
        ) == r.0 as int,
        !r.1 ==> !has_msg(m@, msg@),
        r.0 <= m@.len(),
        forall|j: int| 0 <= j < r.0 ==> lex_lt(#[trigger] m@[j].msg@, msg@),
        !r.1 && r.0 < m@.len() ==> lex_lt(msg@, m@[r.0 as int].msg@),
{
    let n = m.len();
    let mut i: usize = 0;
    while i < n
        invariant
            msgs_sorted(m@),
            n == m@.len(),
            i <= n,
            forall|j: int| 0 <= j < i ==> lex_lt(#[trigger] m@[j].msg@, msg@),
        decreases n - i,
    {
        if hash_eq(&m[i].msg, msg) {
            proof {
                let k = msg_idx(m@, msg@);
                lemma_msg_unique(m@, k, i as int);
            }
            return (i, true);
        }
        if !hash_lt(&m[i].msg, msg) {
            proof {
                lemma_lex_total(m@[i as int].msg@, msg@);
                assert(lex_lt(msg@, m@[i as int].msg@));
                if has_msg(m@, msg@) {
                    let k = msg_idx(m@, msg@);
                    if k < i {
                        lemma_lex_irrefl(msg@);
                    } else if k > i {
                        lemma_lex_asym(msg@, m@[i as int].msg@);
                    } else {
                        lemma_lex_irrefl(msg@);
                    }
                }
            }
            return (i, false);
        }
        i = i + 1;
    }
    proof {
        if has_msg(m@, msg@) {
            lemma_lex_irrefl(msg@);
        }
    }
    (i, false)
}

/// Replacing one bucket with a bucket holding `d` more entries raises the
/// total count by `d`.
proof fn lemma_total_entries_update(ps: Seq<SeedBucket>, ns: Seq<SeedBucket>, i: int, d: int)
    requires
        0 <= i < ps.len(),
        ns.len() == ps.len(),
        forall|k: int| 0 <= k < ns.len() && k != i ==> ns[k] == ps[k],
        ns[i].msgs@.len() == ps[i].msgs@.len() + d,
    ensures
        total_entries(ns) == total_entries(ps) + d,
    decreases ps.len(),
{
    if ps.len() > 0 {
        if i == ps.len() - 1 {
            assert(ns.drop_last() =~= ps.drop_last());
        } else {
            lemma_total_entries_update(ps.drop_last(), ns.drop_last(), i, d);
        }
    }
}

/// Inserting one single-entry bucket raises the total count by one.
proof fn lemma_total_entries_insert(ps: Seq<SeedBucket>, ns: Seq<SeedBucket>, i: int)
    requires
        0 <= i <= ps.len(),
        ns.len() == ps.len() + 1,
        forall|k: int| 0 <= k < i ==> ns[k] == ps[k],
        forall|k: int| i < k < ns.len() ==> ns[k] == ps[k - 1],
        ns[i].msgs@.len() == 1,
    ensures
        total_entries(ns) == total_entries(ps) + 1,
    decreases ns.len(),
{
    if i == ps.len() {
        assert(ns.drop_last() =~= ps);
    } else {
        lemma_total_entries_insert(ps.drop_last(), ns.drop_last(), i);
        assert(ns.last() == ps.last());
    }
}

} // verus!
