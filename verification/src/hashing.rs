//! Domain-separated hashing for the certified signature store.
//!
//! Every node of the Merkle structure is digested with a distinct leading
//! tag byte so that values from different levels of the tree can never be
//! confused for one another. The digest itself is SHA-256, reached through
//! one trusted wrapper; everything built on top of it is verified.

use vstd::prelude::*;

verus! {

/// A fixed-width digest, the atomic unit of the Merkle structure.
pub type Digest = [u8; 32];

/// What SHA-256 returns on the given input bytes; the digest is a function
/// of its input alone.
pub uninterp spec fn sha256_of(input: Seq<u8>) -> Seq<u8>;

/// Relies on sha2's `Sha256`: the digest is 32 bytes and depends only on
/// the bytes fed to it.
#[verifier::external_body]
pub(crate) fn sha256(bytes: &[u8]) -> (r: Digest)
    ensures
        r@ == sha256_of(bytes@),
{
    let mut h = <sha2::Sha256 as sha2::Digest>::new();
    sha2::Digest::update(&mut h, bytes);
    sha2::Digest::finalize(h).into()
}

/// Tag byte for the digest of an empty subtree.
pub const TAG_EMPTY: u8 = 0;

/// Tag byte for the digest of a fork node.
pub const TAG_FORK: u8 = 1;

/// Tag byte for the digest of a labeled node.
pub const TAG_LABELED: u8 = 2;

/// Tag byte for the digest of a leaf node.
pub const TAG_LEAF: u8 = 3;

/// Digest of an empty subtree.
pub open spec fn hash_empty() -> Seq<u8> {
    sha256_of(seq![TAG_EMPTY])
}

/// Digest of a fork node over the digests of its two children.
pub open spec fn hash_fork(l: Seq<u8>, r: Seq<u8>) -> Seq<u8> {
    sha256_of(seq![TAG_FORK] + l + r)
}

/// Digest of a node that attaches a label to a subtree digest.
pub open spec fn hash_labeled(label: Seq<u8>, sub: Seq<u8>) -> Seq<u8> {
    sha256_of(seq![TAG_LABELED] + label + sub)
}

/// Digest of a leaf holding the given bytes.
pub open spec fn hash_leaf(value: Seq<u8>) -> Seq<u8> {
    sha256_of(seq![TAG_LEAF] + value)
}

/// Appends all of `bytes` to `out`.
pub(crate) fn push_bytes(out: &mut Vec<u8>, bytes: &[u8])
    ensures
        final(out)@ == old(out)@ + bytes@,
{
    let n = bytes.len();
    for i in 0..n
        invariant
            n == bytes@.len(),
            out@ == old(out)@ + bytes@.take(i as int),
    {
        out.push(bytes[i]);
        assert(out@ =~= old(out)@ + bytes@.take(i + 1));
    }
    assert(out@ =~= old(out)@ + bytes@);
}

/// Computes the digest of an empty subtree.
pub fn empty_hash() -> (h: Digest)
    ensures
        h@ == hash_empty(),
{
    let mut v: Vec<u8> = Vec::new();
    v.push(TAG_EMPTY);
    assert(v@ =~= seq![TAG_EMPTY]);
    sha256(v.as_slice())
}

/// Computes the digest of a fork over two child digests.
pub fn fork_hash(l: &Digest, r: &Digest) -> (h: Digest)
    ensures
        h@ == hash_fork(l@, r@),
{
    let mut v: Vec<u8> = Vec::new();
    v.push(TAG_FORK);
    assert(v@ =~= seq![TAG_FORK]);
    push_bytes(&mut v, l.as_slice());
    push_bytes(&mut v, r.as_slice());
    assert(v@ == seq![TAG_FORK] + l@ + r@);
    sha256(v.as_slice())
}

/// Computes the digest of a labeled node from label bytes and a subtree digest.
pub fn labeled_hash(label: &[u8], sub: &Digest) -> (h: Digest)
    ensures
        h@ == hash_labeled(label@, sub@),
{
    let mut v: Vec<u8> = Vec::new();
    v.push(TAG_LABELED);
    assert(v@ =~= seq![TAG_LABELED]);
    push_bytes(&mut v, label);
    push_bytes(&mut v, sub.as_slice());
    assert(v@ == seq![TAG_LABELED] + label@ + sub@);
    sha256(v.as_slice())
}

/// Computes the digest of a leaf holding the given bytes.
pub fn leaf_hash(value: &[u8]) -> (h: Digest)
    ensures
        h@ == hash_leaf(value@),
{
    let mut v: Vec<u8> = Vec::new();
    v.push(TAG_LEAF);
    assert(v@ =~= seq![TAG_LEAF]);
    push_bytes(&mut v, value);
    assert(v@ == seq![TAG_LEAF] + value@);
    sha256(v.as_slice())
}

/// Strict lexicographic order on byte strings: `a` sorts before `b`.
/// A proper prefix sorts before any extension of it.
pub open spec fn lex_lt(a: Seq<u8>, b: Seq<u8>) -> bool
    decreases a.len(),
{
    if b.len() == 0 {
        false
    } else if a.len() == 0 {
        true
    } else if a[0] < b[0] {
        true
    } else if a[0] == b[0] {
        lex_lt(a.drop_first(), b.drop_first())
    } else {
        false
    }
}

/// No byte string sorts before itself.
pub proof fn lemma_lex_irrefl(a: Seq<u8>)
    ensures
        !lex_lt(a, a),
    decreases a.len(),
{
    if a.len() > 0 {
        lemma_lex_irrefl(a.drop_first());
    }
}

/// The lexicographic order is transitive.
pub proof fn lemma_lex_trans(a: Seq<u8>, b: Seq<u8>, c: Seq<u8>)
    requires
        lex_lt(a, b),
        lex_lt(b, c),
    ensures
        lex_lt(a, c),
    decreases a.len(),
{
    if a.len() > 0 && b.len() > 0 && c.len() > 0 {
        if a[0] == b[0] && b[0] == c[0] {
            lemma_lex_trans(a.drop_first(), b.drop_first(), c.drop_first());
        }
    }
}

/// Two byte strings of equal length are ordered one way, the other way,
/// or equal.
pub proof fn lemma_lex_total(a: Seq<u8>, b: Seq<u8>)
    requires
        a.len() == b.len(),
    ensures
        lex_lt(a, b) || lex_lt(b, a) || a == b,
    decreases a.len(),
{
    if a.len() > 0 {
        if a[0] == b[0] {
            lemma_lex_total(a.drop_first(), b.drop_first());
            if a.drop_first() == b.drop_first() {
                assert forall|i: int| 0 <= i < a.len() implies a[i] == b[i] by {
                    if i >= 1 {
                        assert(a[i] == a.drop_first()[i - 1]);
                        assert(b[i] == b.drop_first()[i - 1]);
                    }
                }
                assert(a =~= b);
            }
        }
    } else {
        assert(a =~= b);
    }
}

/// Two byte strings cannot each sort before the other.
pub proof fn lemma_lex_asym(a: Seq<u8>, b: Seq<u8>)
    requires
        lex_lt(a, b),
    ensures
        !lex_lt(b, a),
{
    if lex_lt(b, a) {
        lemma_lex_trans(a, b, a);
        lemma_lex_irrefl(a);
    }
}

/// Compares two digests; returns whether `a` sorts strictly before `b`.
pub fn hash_lt(a: &Digest, b: &Digest) -> (r: bool)
    ensures
        r == lex_lt(a@, b@),
{
    proof {
        assert(a@.skip(0) =~= a@);
        assert(b@.skip(0) =~= b@);
    }
    for i in 0..32usize
        invariant
            forall|j: int| 0 <= j < i ==> a@[j] == b@[j],
            lex_lt(a@, b@) == lex_lt(a@.skip(i as int), b@.skip(i as int)),
    {
        let x = a[i];
        let y = b[i];
        proof {
            assert(a@.skip(i as int)[0] == a@[i as int]);
            assert(b@.skip(i as int)[0] == b@[i as int]);
            assert(a@.skip(i as int).drop_first() =~= a@.skip(i + 1));
            assert(b@.skip(i as int).drop_first() =~= b@.skip(i + 1));
        }
        if x < y {
            return true;
        }
        if x > y {
            return false;
        }
    }
    proof {
        assert(a@.skip(32) =~= Seq::<u8>::empty());
        assert(b@.skip(32) =~= Seq::<u8>::empty());
    }
    false
}

/// Compares two digests for equality of their bytes.
pub fn hash_eq(a: &Digest, b: &Digest) -> (r: bool)
    ensures
        r == (a@ == b@),
{
    for i in 0..32usize
        invariant
            forall|j: int| 0 <= j < i ==> a@[j] == b@[j],
    {
        if a[i] != b[i] {
            return false;
        }
    }
    proof {
        assert(a@ =~= b@);
    }
    true
}

/// Copies a digest.
pub fn hash_clone(a: &Digest) -> (r: Digest)
    ensures
        r@ == a@,
{
    let r: Digest = *a;
    r
}

/// Copies a digest into a fresh byte vector.
pub fn hash_to_vec(a: &Digest) -> (r: Vec<u8>)
    ensures
        r@ == a@,
{
    let mut v: Vec<u8> = Vec::new();
    push_bytes(&mut v, a.as_slice());
    assert(v@ =~= a@);
    v
}

} // verus!
