//! The static asset table and the path-only request lookup.
//!
//! Requests name a URL; everything from the first `?` on is ignored, and
//! the remaining path is looked up in the table. A hit answers 200 with
//! the asset's bytes, a miss 404 with a plain-text message.

use vstd::prelude::*;
use crate::temp_keys::{bytes_clone, bytes_eq};

verus! {

/// The byte that begins a query string.
pub const QUERY_BYTE: u8 = 63;

/// The HTTP status of a hit.
pub const STATUS_OK: u16 = 200;

/// The HTTP status of a miss.
pub const STATUS_NOT_FOUND: u16 = 404;

/// The static asset table.
pub struct AssetTable {
    /// Paths with their contents; paths are unique.
    pub assets: Vec<(Vec<u8>, Vec<u8>)>,
}

/// Whether the table's sequence carries `path`.
pub open spec fn av_has(s: Seq<(Vec<u8>, Vec<u8>)>, path: Seq<u8>) -> bool {
    exists|i: int| 0 <= i < s.len() && s[i].0@ == path
}

/// The index at which `path` lies (unique under the invariant).
pub open spec fn av_at(s: Seq<(Vec<u8>, Vec<u8>)>, path: Seq<u8>) -> int {
    choose|i: int| 0 <= i < s.len() && s[i].0@ == path
}

/// The bytes stored for `path`.
pub open spec fn av_body(s: Seq<(Vec<u8>, Vec<u8>)>, path: Seq<u8>) -> Seq<u8> {
    s[av_at(s, path)].1@
}

/// Where the query string begins: the index of the first `?`, or the
/// URL's length when none occurs.
pub open spec fn query_start(url: Seq<u8>) -> int
    decreases url.len(),
{
    if url.len() == 0 {
        0
    } else if url[0] == QUERY_BYTE {
        0
    } else {
        1 + query_start(url.drop_first())
    }
}

/// The path part of a URL: everything before the first `?`.
pub open spec fn path_of(url: Seq<u8>) -> Seq<u8> {
    url.take(query_start(url))
}

/// The query start lies within the URL, and everything before it is not
/// a `?`.
pub proof fn lemma_query_start(url: Seq<u8>)
    ensures
        0 <= query_start(url) <= url.len(),
        forall|i: int| 0 <= i < query_start(url) ==> url[i] != QUERY_BYTE,
        query_start(url) < url.len() ==> url[query_start(url)] == QUERY_BYTE,
    decreases url.len(),
{
    if url.len() > 0 && url[0] != QUERY_BYTE {
        lemma_query_start(url.drop_first());
        assert forall|i: int| 0 <= i < query_start(url) implies url[i] != QUERY_BYTE by {
            if i >= 1 {
                assert(url.drop_first()[i - 1] == url[i]);
            }
        }
    }
}

/// The 404 message for a missing asset: `Asset <path> not found.`
pub open spec fn not_found_body(path: Seq<u8>) -> Seq<u8> {
    seq![65u8, 115u8, 115u8, 101u8, 116u8, 32u8] + path + seq![
        32u8,
        110u8,
        111u8,
        116u8,
        32u8,
        102u8,
        111u8,
        117u8,
        110u8,
        100u8,
        46u8,
    ]
}

/// A response: status and body. Headers and streaming are the host
/// boundary's affair and stay empty here.
pub struct AssetResponse {
    /// The HTTP status code.
    pub status_code: u16,
    /// The body bytes.
    pub body: Vec<u8>,
}

impl AssetTable {
    /// The table invariant: unique paths.
    pub open spec fn wf(self) -> bool {
        forall|i: int, j: int| 0 <= i < j < self.assets@.len() ==> self.assets@[i].0@ != self.assets@[j].0@
    }

    /// Creates an empty table.
    pub fn new() -> (r: Self)
        ensures
            r.wf(),
            forall|p: Seq<u8>| !av_has(r.assets@, p),
    {
        AssetTable { assets: Vec::new() }
    }

    /// Stores `body` under `path`, replacing any previous contents.
    pub fn insert_asset(&mut self, path: Vec<u8>, body: Vec<u8>)
        requires
            old(self).wf(),
        ensures
            final(self).wf(),
            av_has(final(self).assets@, path@),
            av_body(final(self).assets@, path@) == body@,
            forall|p: Seq<u8>|
                p != path@ ==> av_has(final(self).assets@, p) == av_has(old(self).assets@, p),
            forall|p: Seq<u8>|
                p != path@ && av_has(old(self).assets@, p) ==> av_body(final(self).assets@, p)
                    == av_body(old(self).assets@, p),
    {
        let ghost s0 = self.assets@;
        let n = self.assets.len();
        let mut i: usize = 0;
        let mut found: bool = false;
        let mut fidx: usize = 0;
        while i < n
            invariant
                self.wf(),
                self.assets@ == s0,
                n == s0.len(),
                i <= n,
                !found ==> forall|j: int| 0 <= j < i ==> s0[j].0@ != path@,
                found ==> fidx < n && s0[fidx as int].0@ == path@,
            decreases n - i,
        {
            if !found && bytes_eq(&self.assets[i].0, &path) {
                found = true;
                fidx = i;
                proof {
                    assert(s0[i as int].0@ == path@);
                }
            }
            i = i + 1;
        }
        if found {
            proof {
                assert(av_has(s0, path@));
                let w = av_at(s0, path@);
                if w != fidx {
                    assert(s0[w].0@ == s0[fidx as int].0@);
                    assert(false);
                }
            }
            self.assets.remove(fidx);
            self.assets.insert(fidx, (path, body));
            proof {
                s0.remove_ensures(fidx as int);
                s0.remove(fidx as int).insert_ensures(fidx as int, self.assets@[fidx as int]);
                let s1 = self.assets@;
                assert(s1.len() == s0.len());
                assert(forall|t: int| 0 <= t < s1.len() && t != fidx ==> s1[t] == s0[t]);
                Self::lemma_upsert_post(s0, s1, fidx as int, path@, body@);
            }
        } else {
            proof {
                if av_has(s0, path@) {
                    let w = av_at(s0, path@);
                    assert(s0[w].0@ != path@);
                }
            }
            self.assets.push((path, body));
            proof {
                let s1 = self.assets@;
                assert(s1[s1.len() - 1].0@ == path@);
                assert(av_has(s1, path@));
                assert forall|a: int, b: int| 0 <= a < b < s1.len() implies s1[a].0@
                    != s1[b].0@ by {
                    if b < s0.len() {
                        assert(s1[a] == s0[a] && s1[b] == s0[b]);
                    } else {
                        assert(s1[a] == s0[a]);
                        if s1[a].0@ == path@ {
                            assert(av_has(s0, path@));
                        }
                    }
                }
                let w = av_at(s1, path@);
                if w != s1.len() - 1 {
                    assert(s1[w].0@ == s1[s1.len() - 1].0@);
                    assert(false);
                }
                assert forall|p: Seq<u8>| p != path@ && av_has(s0, p) implies (av_has(s1, p)
                    && av_body(s1, p) == av_body(s0, p)) by {
                    let q = av_at(s0, p);
                    assert(s1[q] == s0[q]);
                    assert(av_has(s1, p));
                    let w2 = av_at(s1, p);
                    if w2 != q {
                        assert(s1[w2].0@ == s1[q].0@);
                        assert(false);
                    }
                }
                assert forall|p: Seq<u8>| p != path@ && av_has(s1, p) implies av_has(s0, p) by {
                    let q = av_at(s1, p);
                    assert(q < s0.len());
                    assert(s0[q] == s1[q]);
                }
            }
        }
    }

    /// What an in-place replacement establishes.
    proof fn lemma_upsert_post(
        s0: Seq<(Vec<u8>, Vec<u8>)>,
        s1: Seq<(Vec<u8>, Vec<u8>)>,
        fidx: int,
        path: Seq<u8>,
        body: Seq<u8>,
    )
        requires
            forall|i: int, j: int| 0 <= i < j < s0.len() ==> s0[i].0@ != s0[j].0@,
            0 <= fidx < s0.len(),
            s0[fidx].0@ == path,
            s1.len() == s0.len(),
            forall|t: int| 0 <= t < s1.len() && t != fidx ==> s1[t] == s0[t],
            s1[fidx].0@ == path,
            s1[fidx].1@ == body,
        ensures
            forall|i: int, j: int| 0 <= i < j < s1.len() ==> s1[i].0@ != s1[j].0@,
            av_has(s1, path),
            av_body(s1, path) == body,
            forall|p: Seq<u8>| p != path ==> av_has(s1, p) == av_has(s0, p),
            forall|p: Seq<u8>| p != path && av_has(s0, p) ==> av_body(s1, p) == av_body(s0, p),
    {
        assert forall|i: int, j: int| 0 <= i < j < s1.len() implies s1[i].0@ != s1[j].0@ by {
            assert(s1[i].0@ == s0[i].0@ && s1[j].0@ == s0[j].0@);
        }
        assert(av_has(s1, path));
        let w = av_at(s1, path);
        if w != fidx {
            assert(s1[w].0@ == s1[fidx].0@);
            assert(false);
        }
        assert forall|p: Seq<u8>| p != path && av_has(s0, p) implies (av_has(s1, p) && av_body(
            s1,
            p,
        ) == av_body(s0, p)) by {
            let q = av_at(s0, p);
            assert(q != fidx);
            assert(s1[q] == s0[q]);
            assert(av_has(s1, p));
            let w2 = av_at(s1, p);
            if w2 != q {
                assert(s1[w2].0@ == s1[q].0@);
                assert(false);
            }
        }
        assert forall|p: Seq<u8>| p != path && av_has(s1, p) implies av_has(s0, p) by {
            let q = av_at(s1, p);
            assert(q != fidx);
            assert(s0[q] == s1[q]);
        }
    }

    /// Answers a request: strips the query string, looks the path up, and
    /// returns 200 with the asset's bytes on a hit or 404 with the
    /// plain-text miss message otherwise.
    pub fn response_for(&self, url: &Vec<u8>) -> (r: AssetResponse)
        requires
            self.wf(),
        ensures
            av_has(self.assets@, path_of(url@)) ==> (r.status_code == STATUS_OK && r.body@
                == av_body(self.assets@, path_of(url@))),
            !av_has(self.assets@, path_of(url@)) ==> (r.status_code == STATUS_NOT_FOUND
                && r.body@ == not_found_body(path_of(url@))),
    {
        proof {
            lemma_query_start(url@);
        }
        // find where the query string starts
        let n = url.len();
        let mut q: usize = 0;
        while q < n && url[q] != QUERY_BYTE
            invariant
                n == url@.len(),
                q <= n,
                forall|j: int| 0 <= j < q ==> url@[j] != QUERY_BYTE,
            decreases n - q,
        {
            q = q + 1;
        }
        proof {
            lemma_query_start(url@);
            if q < n {
                assert(url@[q as int] == QUERY_BYTE);
            }
            if query_start(url@) < q {
                assert(url@[query_start(url@)] != QUERY_BYTE);
            }
            if query_start(url@) > q {
                assert(q < n);
            }
            assert(query_start(url@) == q as int);
        }
        // copy the path prefix
        let mut path: Vec<u8> = Vec::new();
        let mut i: usize = 0;
        while i < q
            invariant
                q <= url@.len(),
                i <= q,
                path@ == url@.take(q as int).take(i as int),
            decreases q - i,
        {
            path.push(url[i]);
            proof {
                assert(path@ =~= url@.take(q as int).take(i + 1));
            }
            i = i + 1;
        }
        proof {
            assert(url@.take(q as int).take(q as int) =~= url@.take(q as int));
        }
        // look it up
        let m = self.assets.len();
        let mut k: usize = 0;
        while k < m
            invariant
                self.wf(),
                m == self.assets@.len(),
                k <= m,
                path@ == path_of(url@),
                forall|j: int| 0 <= j < k ==> self.assets@[j].0@ != path@,
            decreases m - k,
        {
            if bytes_eq(&self.assets[k].0, &path) {
                proof {
                    assert(self.assets@[k as int].0@ == path@);
                    assert(av_has(self.assets@, path@));
                    let w = av_at(self.assets@, path@);
                    if w != k {
                        assert(self.assets@[w].0@ == self.assets@[k as int].0@);
                        assert(false);
                    }
                }
                let body = bytes_clone(&self.assets[k].1);
                return AssetResponse { status_code: STATUS_OK, body };
            }
            k = k + 1;
        }
        proof {
            if av_has(self.assets@, path@) {
                let w = av_at(self.assets@, path@);
                assert(self.assets@[w].0@ != path@);
            }
        }
        // build the miss message
        let mut body: Vec<u8> = Vec::new();
        body.push(65);
        body.push(115);
        body.push(115);
        body.push(101);
        body.push(116);
        body.push(32);
        let ghost prefix = body@;
        let plen = path.len();
        let mut t: usize = 0;
        while t < plen
            invariant
                plen == path@.len(),
                t <= plen,
                body@ == prefix + path@.take(t as int),
            decreases plen - t,
        {
            body.push(path[t]);
            proof {
                assert(body@ =~= prefix + path@.take(t + 1));
            }
            t = t + 1;
        }
        proof {
            assert(body@ =~= prefix + path@);
        }
        body.push(32);
        body.push(110);
        body.push(111);
        body.push(116);
        body.push(32);
        body.push(102);
        body.push(111);
        body.push(117);
        body.push(110);
        body.push(100);
        body.push(46);
        proof {
            assert(prefix =~= seq![65u8, 115u8, 115u8, 101u8, 116u8, 32u8]);
            assert(body@ =~= not_found_body(path_of(url@)));
        }
        AssetResponse { status_code: STATUS_NOT_FOUND, body }
    }
}

} // verus!
