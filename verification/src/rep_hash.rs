//! Representation-independent hashing of a delegation.
//!
//! The delegation's fields are digested as labeled pairs — the hash of
//! the field name beside the hash of the field value — and the pairs are
//! ordered by byte comparison before the final digest, so the result
//! depends on the field set alone and never on declaration order.
//! Integers are digested through their little-endian base-128 varint
//! encoding; a list is digested as the concatenation of its members'
//! digests.

use vstd::prelude::*;
use crate::accounts::Delegation;
use crate::hashing::{lex_lt, push_bytes, sha256, sha256_of, Digest};

verus! {

/// The little-endian base-128 varint encoding of a number: seven bits a
/// byte, the high bit marking continuation.
pub open spec fn leb(n: nat) -> Seq<u8>
    decreases n,
{
    if n < 128 {
        seq![n as u8]
    } else {
        seq![((n % 128) + 128) as u8] + leb(n / 128)
    }
}

/// Encodes a number as a little-endian base-128 varint.
pub fn leb_encode(v0: u64) -> (r: Vec<u8>)
    ensures
        r@ == leb(v0 as nat),
{
    let mut v = v0;
    let mut out: Vec<u8> = Vec::new();
    proof {
        assert(out@ + leb(v as nat) =~= leb(v0 as nat));
    }
    while v >= 128
        invariant
            out@ + leb(v as nat) == leb(v0 as nat),
        decreases v,
    {
        let c = (v % 128 + 128) as u8;
        let ghost v_pre = v as nat;
        out.push(c);
        v = v / 128;
        proof {
            assert(leb(v_pre) == seq![((v_pre % 128) + 128) as u8] + leb(v_pre / 128));
            assert(out@ + leb(v as nat) =~= leb(v0 as nat));
        }
    }
    out.push(v as u8);
    proof {
        assert(leb(v as nat) == seq![v as u8]);
        assert(out@ =~= leb(v0 as nat));
    }
    out
}

/// The digests of a target list's members, concatenated in order.
pub open spec fn targets_concat(ts: Seq<Seq<u8>>) -> Seq<u8>
    decreases ts.len(),
{
    if ts.len() == 0 {
        Seq::empty()
    } else {
        targets_concat(ts.drop_last()) + sha256_of(ts.last())
    }
}

/// The bytes of the field name `pubkey`.
pub open spec fn key_pubkey() -> Seq<u8> {
    seq![112u8, 117u8, 98u8, 107u8, 101u8, 121u8]
}

/// The bytes of the field name `expiration`.
pub open spec fn key_expiration() -> Seq<u8> {
    seq![101u8, 120u8, 112u8, 105u8, 114u8, 97u8, 116u8, 105u8, 111u8, 110u8]
}

/// The bytes of the field name `targets`.
pub open spec fn key_targets() -> Seq<u8> {
    seq![116u8, 97u8, 114u8, 103u8, 101u8, 116u8, 115u8]
}

/// A delegation's labeled pairs, each the field-name digest followed by
/// the field-value digest.
pub open spec fn pubkey_pair(d: Delegation) -> Seq<u8> {
    sha256_of(key_pubkey()) + sha256_of(d.pubkey@)
}

/// The labeled pair of the expiration field.
pub open spec fn expiration_pair(d: Delegation) -> Seq<u8> {
    sha256_of(key_expiration()) + sha256_of(leb(d.expiration as nat))
}

/// The labeled pair of the target list, when one is present.
pub open spec fn targets_pair(ts: Seq<Vec<u8>>) -> Seq<u8> {
    sha256_of(key_targets()) + sha256_of(targets_concat(ts.map(|i: int, t: Vec<u8>| t@)))
}

/// Two byte strings in byte order.
pub open spec fn sort2(a: Seq<u8>, b: Seq<u8>) -> Seq<Seq<u8>> {
    if lex_lt(b, a) {
        seq![b, a]
    } else {
        seq![a, b]
    }
}

/// Three byte strings in byte order.
pub open spec fn sort3(a: Seq<u8>, b: Seq<u8>, c: Seq<u8>) -> Seq<Seq<u8>> {
    let s = sort2(a, b);
    if lex_lt(c, s[0]) {
        seq![c, s[0], s[1]]
    } else if lex_lt(c, s[1]) {
        seq![s[0], c, s[1]]
    } else {
        seq![s[0], s[1], c]
    }
}

/// Byte strings concatenated in order.
pub open spec fn concat_blocks(s: Seq<Seq<u8>>) -> Seq<u8>
    decreases s.len(),
{
    if s.len() == 0 {
        Seq::empty()
    } else {
        concat_blocks(s.drop_last()) + s.last()
    }
}

/// The representation-independent digest of a delegation: its labeled
/// pairs, ordered by byte comparison and concatenated, under one final
/// digest.
pub open spec fn delegation_digest(d: Delegation) -> Seq<u8> {
    match d.targets {
        Some(ts) => sha256_of(
            concat_blocks(sort3(pubkey_pair(d), expiration_pair(d), targets_pair(ts@))),
        ),
        None => sha256_of(concat_blocks(sort2(pubkey_pair(d), expiration_pair(d)))),
    }
}

/// Compares two byte vectors in byte order.
fn vec_lex_lt(a: &Vec<u8>, b: &Vec<u8>) -> (r: bool)
    ensures
        r == lex_lt(a@, b@),
{
    let n = if a.len() < b.len() {
        a.len()
    } else {
        b.len()
    };
    proof {
        assert(a@.skip(0) =~= a@);
        assert(b@.skip(0) =~= b@);
    }
    let mut i: usize = 0;
    while i < n
        invariant
            n <= a@.len(),
            n <= b@.len(),
            n == a@.len() || n == b@.len(),
            i <= n,
            lex_lt(a@, b@) == lex_lt(a@.skip(i as int), b@.skip(i as int)),
        decreases n - i,
    {
        let x = a[i];
        let y = b[i];
        proof {
            assert(a@.skip(i as int)[0] == a@[i as int]);
            assert(b@.skip(i as int)[0] == b@[i as int]);
            assert(a@.skip(i as int).drop_first() =~= a@.skip(i + 1));
            assert(b@.skip(i as int).drop_first() =~= b@.skip(i + 1));
        }
        if x < y {
            return true;
        }
        if x > y {
            return false;
        }
        i = i + 1;
    }
    proof {
        if a@.len() == n {
            assert(a@.skip(n as int) =~= Seq::<u8>::empty());
        }
        if b@.len() == n {
            assert(b@.skip(n as int) =~= Seq::<u8>::empty());
        }
    }
    a.len() < b.len()
}

/// Builds one labeled pair from a field-name digest and a field-value
/// digest.
fn pair_block(key_hash: &Digest, value_hash: &Digest) -> (r: Vec<u8>)
    ensures
        r@ == key_hash@ + value_hash@,
{
    let mut out: Vec<u8> = Vec::new();
    push_bytes(&mut out, key_hash.as_slice());
    push_bytes(&mut out, value_hash.as_slice());
    proof {
        assert(out@ =~= key_hash@ + value_hash@);
    }
    out
}

/// Computes the representation-independent digest of a delegation.
pub fn delegation_hash(d: &Delegation) -> (r: Digest)
    ensures
        r@ == delegation_digest(*d),
{
    // the pubkey pair
    let mut kp: Vec<u8> = Vec::new();
    kp.push(112);
    kp.push(117);
    kp.push(98);
    kp.push(107);
    kp.push(101);
    kp.push(121);
    proof {
        assert(kp@ =~= key_pubkey());
    }
    let kp_h = sha256(kp.as_slice());
    let vp_h = sha256(d.pubkey.as_slice());
    let bp = pair_block(&kp_h, &vp_h);
    // the expiration pair
    let mut ke: Vec<u8> = Vec::new();
    ke.push(101);
    ke.push(120);
    ke.push(112);
    ke.push(105);
    ke.push(114);
    ke.push(97);
    ke.push(116);
    ke.push(105);
    ke.push(111);
    ke.push(110);
    proof {
        assert(ke@ =~= key_expiration());
    }
    let ke_h = sha256(ke.as_slice());
    let enc = leb_encode(d.expiration);
    let ve_h = sha256(enc.as_slice());
    let be = pair_block(&ke_h, &ve_h);
    match &d.targets {
        None => {
            let ordered = order2(bp, be);
            proof {
                assert(concat_blocks(sort2(pubkey_pair(*d), expiration_pair(*d))) == ordered@);
            }
            sha256(ordered.as_slice())
        },
        Some(ts) => {
            // the targets pair
            let mut cat: Vec<u8> = Vec::new();
            let n = ts.len();
            let mut i: usize = 0;
            while i < n
                invariant
                    n == ts@.len(),
                    i <= n,
                    cat@ == targets_concat(ts@.map(|t: int, x: Vec<u8>| x@).take(i as int)),
                decreases n - i,
            {
                let th = sha256(ts[i].as_slice());
                push_bytes(&mut cat, th.as_slice());
                proof {
                    let m = ts@.map(|t: int, x: Vec<u8>| x@);
                    assert(m.take(i + 1).drop_last() =~= m.take(i as int));
                    assert(m.take(i + 1).last() == ts@[i as int]@);
                }
                i = i + 1;
            }
            proof {
                let m = ts@.map(|t: int, x: Vec<u8>| x@);
                assert(m.take(n as int) =~= m);
            }
            let vt_h = sha256(cat.as_slice());
            let mut kt: Vec<u8> = Vec::new();
            kt.push(116);
            kt.push(97);
            kt.push(114);
            kt.push(103);
            kt.push(101);
            kt.push(116);
            kt.push(115);
            proof {
                assert(kt@ =~= key_targets());
            }
            let kt_h = sha256(kt.as_slice());
            let bt = pair_block(&kt_h, &vt_h);
            let ordered = order3(bp, be, bt);
            proof {
                assert(concat_blocks(
                    sort3(pubkey_pair(*d), expiration_pair(*d), targets_pair(ts@)),
                ) == ordered@);
            }
            sha256(ordered.as_slice())
        },
    }
}

/// Concatenates two byte strings in byte order, matching `sort2`.
fn order2(a: Vec<u8>, b: Vec<u8>) -> (r: Vec<u8>)
    ensures
        r@ == concat_blocks(sort2(a@, b@)),
{
    let ghost s = sort2(a@, b@);
    let mut out: Vec<u8> = Vec::new();
    if vec_lex_lt(&b, &a) {
        push_bytes(&mut out, b.as_slice());
        push_bytes(&mut out, a.as_slice());
        proof {
            assert(s.drop_last() =~= seq![b@]);
            assert(seq![b@].drop_last() =~= Seq::<Seq<u8>>::empty());
            assert(concat_blocks(Seq::<Seq<u8>>::empty()) =~= Seq::<u8>::empty());
            assert(concat_blocks(seq![b@]) =~= b@);
            assert(out@ =~= concat_blocks(s));
        }
    } else {
        push_bytes(&mut out, a.as_slice());
        push_bytes(&mut out, b.as_slice());
        proof {
            assert(s.drop_last() =~= seq![a@]);
            assert(seq![a@].drop_last() =~= Seq::<Seq<u8>>::empty());
            assert(concat_blocks(Seq::<Seq<u8>>::empty()) =~= Seq::<u8>::empty());
            assert(concat_blocks(seq![a@]) =~= a@);
            assert(out@ =~= concat_blocks(s));
        }
    }
    out
}

/// Concatenates three byte strings in byte order, matching `sort3`.
fn order3(a: Vec<u8>, b: Vec<u8>, c: Vec<u8>) -> (r: Vec<u8>)
    ensures
        r@ == concat_blocks(sort3(a@, b@, c@)),
{
    let ghost s = sort3(a@, b@, c@);
    let (u, v) = if vec_lex_lt(&b, &a) {
        (b, a)
    } else {
        (a, b)
    };
    let mut out: Vec<u8> = Vec::new();
    if vec_lex_lt(&c, &u) {
        push_bytes(&mut out, c.as_slice());
        push_bytes(&mut out, u.as_slice());
        push_bytes(&mut out, v.as_slice());
        proof {
            assert(s =~= seq![c@, u@, v@]);
            lemma_concat3(s, out@);
        }
    } else if vec_lex_lt(&c, &v) {
        push_bytes(&mut out, u.as_slice());
        push_bytes(&mut out, c.as_slice());
        push_bytes(&mut out, v.as_slice());
        proof {
            assert(s =~= seq![u@, c@, v@]);
            lemma_concat3(s, out@);
        }
    } else {
        push_bytes(&mut out, u.as_slice());
        push_bytes(&mut out, v.as_slice());
        push_bytes(&mut out, c.as_slice());
        proof {
            assert(s =~= seq![u@, v@, c@]);
            lemma_concat3(s, out@);
        }
    }
    out
}

/// Concatenation of a three-element block sequence, spelled out.
proof fn lemma_concat3(s: Seq<Seq<u8>>, bytes: Seq<u8>)
    requires
        s.len() == 3,
        bytes == s[0] + s[1] + s[2],
    ensures
        concat_blocks(s) == bytes,
{
    assert(s.drop_last() =~= seq![s[0], s[1]]);
    assert(seq![s[0], s[1]].drop_last() =~= seq![s[0]]);
    assert(seq![s[0]].drop_last() =~= Seq::<Seq<u8>>::empty());
    assert(concat_blocks(Seq::<Seq<u8>>::empty()) =~= Seq::<u8>::empty());
    assert(concat_blocks(seq![s[0]]) =~= s[0]);
    assert(concat_blocks(seq![s[0], s[1]]) =~= s[0] + s[1]);
    assert(concat_blocks(s) =~= bytes);
}

} // verus!
