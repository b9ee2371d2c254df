//! The account directory: aliases and public keys per user.
//!
//! A simple keyed list. Registration claims a fresh user id; later
//! additions upsert by public key; lookups never fail. Precondition
//! violations (a duplicate registration, an unknown user, an unmatched
//! key pair) are reported as errors for the caller to turn into an
//! aborted call.

use vstd::prelude::*;

verus! {

/// A user's stable identifier.
pub type UserId = u64;

/// An opaque credential identifier.
pub type CredentialId = Vec<u8>;

/// A public key's bytes.
pub type PublicKey = Vec<u8>;

/// A user-chosen device alias.
pub type Alias = String;

/// One device entry of a user: alias, public key, optional credential.
pub struct Entry {
    /// The device alias.
    pub alias: Alias,
    /// The device public key.
    pub pubkey: PublicKey,
    /// The optional credential identifier.
    pub credential_id: Option<CredentialId>,
}

/// An entry as plain values.
pub open spec fn entry_view(e: Entry) -> (Seq<char>, Seq<u8>, Option<Seq<u8>>) {
    (
        e.alias@,
        e.pubkey@,
        match e.credential_id {
            Some(c) => Some(c@),
            None => None,
        },
    )
}

/// An entry list as plain values.
pub open spec fn entries_view(v: Seq<Entry>) -> Seq<(Seq<char>, Seq<u8>, Option<Seq<u8>>)> {
    v.map(|i: int, e: Entry| entry_view(e))
}

/// Whether some entry carries the public key `pk`.
pub open spec fn has_pk(v: Seq<Entry>, pk: Seq<u8>) -> bool {
    exists|i: int| 0 <= i < v.len() && v[i].pubkey@ == pk
}

/// The index of the entry carrying `pk` (unique under the invariant).
pub open spec fn pk_at(v: Seq<Entry>, pk: Seq<u8>) -> int {
    choose|i: int| 0 <= i < v.len() && v[i].pubkey@ == pk
}

/// Unique public keys within one user's entries.
pub open spec fn pks_unique(v: Seq<Entry>) -> bool {
    forall|i: int, j: int| 0 <= i < j < v.len() ==> v[i].pubkey@ != v[j].pubkey@
}

/// The account directory.
pub struct Accounts {
    /// Users with their entry lists; user ids are unique.
    pub users: Vec<(UserId, Vec<Entry>)>,
}

/// Whether a user id is present.
pub open spec fn uv_has(s: Seq<(UserId, Vec<Entry>)>, u: UserId) -> bool {
    exists|i: int| 0 <= i < s.len() && s[i].0 == u
}

/// The index at which a user id lies (unique under the invariant).
pub open spec fn uv_at(s: Seq<(UserId, Vec<Entry>)>, u: UserId) -> int {
    choose|i: int| 0 <= i < s.len() && s[i].0 == u
}

impl Accounts {
    /// The stored entries of user `u`.
    pub open spec fn entries_of(self, u: UserId) -> Seq<Entry> {
        self.users@[uv_at(self.users@, u)].1@
    }

    /// Whether user `u` is registered.
    pub open spec fn has_user(self, u: UserId) -> bool {
        uv_has(self.users@, u)
    }

    /// The directory invariant: unique user ids, and unique public keys
    /// within each user's entries.
    pub open spec fn wf(self) -> bool {
        &&& forall|i: int, j: int|
            0 <= i < j < self.users@.len() ==> self.users@[i].0 != self.users@[j].0
        &&& forall|i: int|
            0 <= i < self.users@.len() ==> pks_unique((#[trigger] self.users@[i]).1@)
    }

    /// Creates an empty directory.
    pub fn new() -> (r: Self)
        ensures
            r.wf(),
            forall|u: UserId| !r.has_user(u),
    {
        Accounts { users: Vec::new() }
    }

    /// Finds the index of user `u`.
    fn find_user(&self, user_id: UserId) -> (r: Option<usize>)
        requires
            self.wf(),
        ensures
            match r {
                Some(i) => i < self.users@.len() && self.users@[i as int].0 == user_id
                    && self.has_user(user_id) && uv_at(self.users@, user_id) == i as int,
                None => !self.has_user(user_id),
            },
    {
        let n = self.users.len();
        let mut i: usize = 0;
        while i < n
            invariant
                self.wf(),
                n == self.users@.len(),
                i <= n,
                forall|j: int| 0 <= j < i ==> self.users@[j].0 != user_id,
            decreases n - i,
        {
            if self.users[i].0 == user_id {
                proof {
                    assert(uv_has(self.users@, user_id));
                    let w = uv_at(self.users@, user_id);
                    if w != i {
                        assert(self.users@[w].0 == self.users@[i as int].0);
                        assert(false);
                    }
                }
                return Some(i);
            }
            i = i + 1;
        }
        proof {
            if uv_has(self.users@, user_id) {
                let w = uv_at(self.users@, user_id);
                assert(self.users@[w].0 != user_id);
            }
        }
        None
    }

    /// Claims a fresh user id with one initial entry. Fails — and leaves
    /// the directory unchanged — exactly when the user is already
    /// registered.
    pub fn register(
        &mut self,
        user_id: UserId,
        alias: Alias,
        pk: PublicKey,
        credential_id: Option<CredentialId>,
    ) -> (r: Result<(), ()>)
        requires
            old(self).wf(),
        ensures
            final(self).wf(),
            r is Err <==> old(self).has_user(user_id),
            r is Err ==> final(self).users@ == old(self).users@,
            r is Ok ==> {
                &&& final(self).has_user(user_id)
                &&& entries_view(final(self).entries_of(user_id)) =~= seq![
                    (alias@, pk@, match credential_id {
                        Some(c) => Some(c@),
                        None => None,
                    }),
                ]
                &&& forall|u: UserId|
                    u != user_id ==> (final(self).has_user(u) == old(self).has_user(u))
                &&& forall|u: UserId|
                    u != user_id && old(self).has_user(u) ==> final(self).entries_of(u) == old(
                        self,
                    ).entries_of(u)
            },
    {
        match self.find_user(user_id) {
            Some(_) => Err(()),
            None => {
                let ghost s0 = self.users@;
                let mut entries: Vec<Entry> = Vec::new();
                entries.push(Entry { alias, pubkey: pk, credential_id });
                self.users.push((user_id, entries));
                proof {
                    let s1 = self.users@;
                    assert(s1[s1.len() - 1].0 == user_id);
                    assert(uv_has(s1, user_id));
                    assert forall|a: int, b: int| 0 <= a < b < s1.len() implies s1[a].0
                        != s1[b].0 by {
                        if b < s0.len() {
                            assert(s1[a] == s0[a] && s1[b] == s0[b]);
                        } else {
                            assert(s1[a] == s0[a]);
                            assert(uv_has(s0, s1[a].0) || true);
                            if s1[a].0 == user_id {
                                assert(uv_has(s0, user_id));
                            }
                        }
                    }
                    let w = uv_at(s1, user_id);
                    if w != s1.len() - 1 {
                        assert(s1[w].0 == s1[s1.len() - 1].0);
                        assert(false);
                    }
                    assert forall|u: UserId| u != user_id && uv_has(s0, u) implies (uv_has(
                        s1,
                        u,
                    ) && self.entries_of(u) == s0[uv_at(s0, u)].1@) by {
                        let i = uv_at(s0, u);
                        assert(s1[i] == s0[i]);
                        assert(uv_has(s1, u));
                        let w2 = uv_at(s1, u);
                        if w2 != i {
                            assert(s1[w2].0 == s1[i].0);
                            assert(false);
                        }
                    }
                    assert forall|u: UserId| u != user_id && uv_has(s1, u) implies uv_has(
                        s0,
                        u,
                    ) by {
                        let i = uv_at(s1, u);
                        assert(i < s0.len());
                        assert(s0[i] == s1[i]);
                    }
                }
                Ok(())
            },
        }
    }

    /// Upserts an entry for a registered user, matching by public key:
    /// the first entry with the same key has its alias and credential
    /// replaced; otherwise the entry is appended. Fails — and leaves the
    /// directory unchanged — exactly when the user is unknown.
    pub fn add(
        &mut self,
        user_id: UserId,
        alias: Alias,
        pk: PublicKey,
        credential: Option<CredentialId>,
    ) -> (r: Result<(), ()>)
        requires
            old(self).wf(),
        ensures
            final(self).wf(),
            r is Err <==> !old(self).has_user(user_id),
            r is Err ==> final(self).users@ == old(self).users@,
            r is Ok ==> {
                &&& final(self).has_user(user_id)
                &&& forall|u: UserId| final(self).has_user(u) == old(self).has_user(u)
                &&& forall|u: UserId|
                    u != user_id && old(self).has_user(u) ==> final(self).entries_of(u) == old(
                        self,
                    ).entries_of(u)
                &&& entries_view(final(self).entries_of(user_id)) =~= (
                if has_pk(old(self).entries_of(user_id), pk@) {
                    entries_view(old(self).entries_of(user_id)).update(
                        pk_at(old(self).entries_of(user_id), pk@),
                        (alias@, pk@, match credential {
                            Some(c) => Some(c@),
                            None => None,
                        }),
                    )
                } else {
                    entries_view(old(self).entries_of(user_id)).push(
                        (alias@, pk@, match credential {
                            Some(c) => Some(c@),
                            None => None,
                        }),
                    )
                })
            },
    {
        let ghost s0 = self.users@;
        match self.find_user(user_id) {
            None => Err(()),
            Some(ui) => {
                let mut row = self.users.remove(ui);
                let ghost e0 = row.1@;
                let n = row.1.len();
                let mut j: usize = 0;
                let mut found: bool = false;
                let mut fidx: usize = 0;
                while j < n
                    invariant
                        n == row.1@.len(),
                        j <= n,
                        row.1@ == e0,
                        pks_unique(e0),
                        !found ==> forall|t: int| 0 <= t < j ==> e0[t].pubkey@ != pk@,
                        found ==> fidx < n && e0[fidx as int].pubkey@ == pk@,
                    decreases n - j,
                {
                    if !found && crate::temp_keys::bytes_eq(&row.1[j].pubkey, &pk) {
                        found = true;
                        fidx = j;
                        proof {
                            assert(e0[j as int].pubkey@ == pk@);
                        }
                    }
                    j = j + 1;
                }
                if found {
                    proof {
                        assert(has_pk(e0, pk@));
                        let w = pk_at(e0, pk@);
                        if w != fidx {
                            assert(e0[w].pubkey@ == e0[fidx as int].pubkey@);
                            assert(false);
                        }
                    }
                    let ghost raw0 = row.1@;
                    row.1.remove(fidx);
                    row.1.insert(fidx, Entry { alias, pubkey: pk, credential_id: credential });
                    proof {
                        raw0.remove_ensures(fidx as int);
                        raw0.remove(fidx as int).insert_ensures(
                            fidx as int,
                            row.1@[fidx as int],
                        );
                        assert(entries_view(row.1@) =~= entries_view(e0).update(
                            fidx as int,
                            (alias@, pk@, match credential {
                                Some(c) => Some(c@),
                                None => None,
                            }),
                        ));
                        assert forall|a: int, b: int| 0 <= a < b < row.1@.len() implies row.1@[a].pubkey@
                            != row.1@[b].pubkey@ by {
                            assert(row.1@[a].pubkey@ == e0[a].pubkey@);
                            assert(row.1@[b].pubkey@ == e0[b].pubkey@);
                        }
                    }
                } else {
                    proof {
                        if has_pk(e0, pk@) {
                            let w = pk_at(e0, pk@);
                            assert(e0[w].pubkey@ != pk@);
                        }
                    }
                    let ghost raw0 = row.1@;
                    row.1.push(Entry { alias, pubkey: pk, credential_id: credential });
                    proof {
                        assert(entries_view(row.1@) =~= entries_view(e0).push(
                            (alias@, pk@, match credential {
                                Some(c) => Some(c@),
                                None => None,
                            }),
                        ));
                        assert forall|a: int, b: int| 0 <= a < b < row.1@.len() implies row.1@[a].pubkey@
                            != row.1@[b].pubkey@ by {
                            if b < e0.len() {
                                assert(row.1@[a] == e0[a] && row.1@[b] == e0[b]);
                            } else {
                                assert(row.1@[a] == e0[a]);
                                assert(row.1@[b].pubkey@ == pk@);
                            }
                        }
                    }
                }
                let ghost row_now = row.1@;
                self.users.insert(ui, row);
                proof {
                    s0.remove_ensures(ui as int);
                    s0.remove(ui as int).insert_ensures(ui as int, self.users@[ui as int]);
                    let s1 = self.users@;
                    assert(s1.len() == s0.len());
                    assert(forall|t: int| 0 <= t < s1.len() && t != ui ==> s1[t] == s0[t]);
                    assert(s1[ui as int].0 == user_id);
                    assert(s1[ui as int].1@ == row_now);
                    assert forall|a: int, b: int| 0 <= a < b < s1.len() implies s1[a].0
                        != s1[b].0 by {
                        assert(s1[a].0 == s0[a].0 && s1[b].0 == s0[b].0);
                    }
                    assert(uv_has(s1, user_id));
                    let w = uv_at(s1, user_id);
                    if w != ui {
                        assert(s1[w].0 == s1[ui as int].0);
                        assert(false);
                    }
                    assert forall|u: UserId| u != user_id && uv_has(s0, u) implies (uv_has(
                        s1,
                        u,
                    ) && self.entries_of(u) == s0[uv_at(s0, u)].1@) by {
                        let i = uv_at(s0, u);
                        assert(s1[i] == s0[i]);
                        assert(uv_has(s1, u));
                        let w2 = uv_at(s1, u);
                        if w2 != i {
                            assert(s1[w2].0 == s1[i].0);
                            assert(false);
                        }
                    }
                    assert forall|u: UserId| uv_has(s1, u) implies uv_has(s0, u) by {
                        let i = uv_at(s1, u);
                        assert(s0[i].0 == s1[i].0);
                    }
                }
                Ok(())
            },
        }
    }

    /// Removes the entry matching `pk` from a user's list, swapping the
    /// last entry into its place; silently does nothing when the user or
    /// the key is absent.
    pub fn remove(&mut self, user_id: UserId, pk: PublicKey)
        requires
            old(self).wf(),
        ensures
            final(self).wf(),
            forall|u: UserId| final(self).has_user(u) == old(self).has_user(u),
            forall|u: UserId|
                u != user_id && old(self).has_user(u) ==> final(self).entries_of(u) == old(
                    self,
                ).entries_of(u),
            old(self).has_user(user_id) ==> entries_view(final(self).entries_of(user_id)) =~= (
            if has_pk(old(self).entries_of(user_id), pk@) {
                entries_view(old(self).entries_of(user_id)).update(
                    pk_at(old(self).entries_of(user_id), pk@),
                    entries_view(old(self).entries_of(user_id)).last(),
                ).drop_last()
            } else {
                entries_view(old(self).entries_of(user_id))
            }),
            !old(self).has_user(user_id) ==> final(self).users@ == old(self).users@,
    {
        let ghost s0 = self.users@;
        match self.find_user(user_id) {
            None => {},
            Some(ui) => {
                let mut row = self.users.remove(ui);
                let ghost e0 = row.1@;
                let n = row.1.len();
                let mut j: usize = 0;
                let mut found: bool = false;
                let mut fidx: usize = 0;
                while j < n
                    invariant
                        n == row.1@.len(),
                        j <= n,
                        row.1@ == e0,
                        pks_unique(e0),
                        !found ==> forall|t: int| 0 <= t < j ==> e0[t].pubkey@ != pk@,
                        found ==> fidx < n && e0[fidx as int].pubkey@ == pk@,
                    decreases n - j,
                {
                    if !found && crate::temp_keys::bytes_eq(&row.1[j].pubkey, &pk) {
                        found = true;
                        fidx = j;
                        proof {
                            assert(e0[j as int].pubkey@ == pk@);
                        }
                    }
                    j = j + 1;
                }
                if found {
                    proof {
                        assert(has_pk(e0, pk@));
                        let w = pk_at(e0, pk@);
                        if w != fidx {
                            assert(e0[w].pubkey@ == e0[fidx as int].pubkey@);
                            assert(false);
                        }
                    }
                    row.1.swap_remove(fidx);
                    proof {
                        assert(entries_view(row.1@) =~= entries_view(e0).update(
                            fidx as int,
                            entries_view(e0).last(),
                        ).drop_last());
                        assert forall|a: int, b: int| 0 <= a < b < row.1@.len() implies row.1@[a].pubkey@
                            != row.1@[b].pubkey@ by {
                            let pa = if a == fidx { e0.len() - 1 } else { a };
                            let pb = if b == fidx { e0.len() - 1 } else { b };
                            assert(row.1@[a] == e0[pa] && row.1@[b] == e0[pb]);
                        }
                    }
                } else {
                    proof {
                        if has_pk(e0, pk@) {
                            let w = pk_at(e0, pk@);
                            assert(e0[w].pubkey@ != pk@);
                        }
                    }
                }
                let ghost row_now = row.1@;
                self.users.insert(ui, row);
                proof {
                    s0.remove_ensures(ui as int);
                    s0.remove(ui as int).insert_ensures(ui as int, self.users@[ui as int]);
                    let s1 = self.users@;
                    assert(s1.len() == s0.len());
                    assert(forall|t: int| 0 <= t < s1.len() && t != ui ==> s1[t] == s0[t]);
                    assert(s1[ui as int].0 == user_id);
                    assert(s1[ui as int].1@ == row_now);
                    assert forall|a: int, b: int| 0 <= a < b < s1.len() implies s1[a].0
                        != s1[b].0 by {
                        assert(s1[a].0 == s0[a].0 && s1[b].0 == s0[b].0);
                    }
                    assert(uv_has(s1, user_id));
                    let w = uv_at(s1, user_id);
                    if w != ui {
                        assert(s1[w].0 == s1[ui as int].0);
                        assert(false);
                    }
                    assert forall|u: UserId| u != user_id && uv_has(s0, u) implies (uv_has(
                        s1,
                        u,
                    ) && self.entries_of(u) == s0[uv_at(s0, u)].1@) by {
                        let i = uv_at(s0, u);
                        assert(s1[i] == s0[i]);
                        assert(uv_has(s1, u));
                        let w2 = uv_at(s1, u);
                        if w2 != i {
                            assert(s1[w2].0 == s1[i].0);
                            assert(false);
                        }
                    }
                    assert forall|u: UserId| uv_has(s1, u) implies uv_has(s0, u) by {
                        let i = uv_at(s1, u);
                        assert(s0[i].0 == s1[i].0);
                    }
                }
            },
        }
    }

    /// Returns a copy of a user's entries; an unknown user yields the
    /// empty list, never an error.
    pub fn lookup(&self, user_id: UserId) -> (r: Vec<Entry>)
        requires
            self.wf(),
        ensures
            self.has_user(user_id) ==> entries_view(r@) == entries_view(
                self.entries_of(user_id),
            ),
            !self.has_user(user_id) ==> r@.len() == 0,
    {
        match self.find_user(user_id) {
            None => Vec::new(),
            Some(ui) => {
                let src = &self.users[ui].1;
                let n = src.len();
                let mut out: Vec<Entry> = Vec::new();
                let mut j: usize = 0;
                while j < n
                    invariant
                        ui < self.users@.len(),
                        src == &self.users@[ui as int].1,
                        n == src@.len(),
                        j <= n,
                        entries_view(out@) =~= entries_view(src@).take(j as int),
                    decreases n - j,
                {
                    let e = clone_entry(&src[j]);
                    let ghost out0 = out@;
                    out.push(e);
                    proof {
                        assert(entry_view(e) == entry_view(src@[j as int]));
                        assert(entries_view(out0).len() == out0.len());
                        assert forall|t: int| 0 <= t < out@.len() implies entries_view(out@)[t]
                            == entries_view(src@).take(j + 1)[t] by {
                            if t < j {
                                assert(out@[t] == out0[t]);
                                assert(entries_view(out0)[t] == entries_view(src@).take(
                                    j as int,
                                )[t]);
                            } else {
                                assert(out@[t] == e);
                            }
                        }
                        assert(entries_view(out@) =~= entries_view(src@).take(j + 1));
                    }
                    j = j + 1;
                }
                proof {
                    assert(entries_view(src@).take(n as int) =~= entries_view(src@));
                }
                out
            },
        }
    }

    /// Builds a signed delegation for a registered `(user, public key)`
    /// pair: the delegation restates the request, and the signature bytes
    /// are left for the caller to fill from the certified signature
    /// store's witness and the host's certification envelope. Fails
    /// exactly when the pair is not registered.
    pub fn get_delegation(
        &self,
        user_id: UserId,
        pubkey: PublicKey,
        expiration: u64,
        targets: Option<Vec<Vec<u8>>>,
    ) -> (r: Result<SignedDelegation, ()>)
        requires
            self.wf(),
        ensures
            r is Ok <==> (self.has_user(user_id) && has_pk(self.entries_of(user_id), pubkey@)),
            match r {
                Ok(sd) => {
                    &&& sd.delegation.pubkey@ == pubkey@
                    &&& sd.delegation.expiration == expiration
                    &&& targets_view(sd.delegation.targets) == targets_view(targets)
                    &&& sd.signature@.len() == 0
                },
                Err(()) => true,
            },
    {
        match self.find_user(user_id) {
            None => Err(()),
            Some(ui) => {
                let src = &self.users[ui].1;
                let n = src.len();
                let mut j: usize = 0;
                let mut found: bool = false;
                while j < n
                    invariant
                        ui < self.users@.len(),
                        src == &self.users@[ui as int].1,
                        n == src@.len(),
                        j <= n,
                        !found ==> forall|t: int| 0 <= t < j ==> src@[t].pubkey@ != pubkey@,
                        found ==> has_pk(src@, pubkey@),
                    decreases n - j,
                {
                    if !found && crate::temp_keys::bytes_eq(&src[j].pubkey, &pubkey) {
                        found = true;
                        proof {
                            assert(src@[j as int].pubkey@ == pubkey@);
                        }
                    }
                    j = j + 1;
                }
                if !found {
                    proof {
                        if has_pk(src@, pubkey@) {
                            let w = pk_at(src@, pubkey@);
                            assert(src@[w].pubkey@ != pubkey@);
                        }
                    }
                    return Err(());
                }
                Ok(
                    SignedDelegation {
                        delegation: Delegation { pubkey, expiration, targets },
                        signature: Vec::new(),
                    },
                )
            },
        }
    }
}

/// A delegation: the statement a long-term identity certifies for a
/// short-lived session key.
pub struct Delegation {
    /// The session public key being delegated to.
    pub pubkey: PublicKey,
    /// When the delegation lapses.
    pub expiration: u64,
    /// The optional scope restriction.
    pub targets: Option<Vec<Vec<u8>>>,
}

/// A delegation together with its certified signature bytes.
pub struct SignedDelegation {
    /// The statement being certified.
    pub delegation: Delegation,
    /// The externally certified witness bundle.
    pub signature: Vec<u8>,
}

/// A target list as plain values.
pub open spec fn targets_view(t: Option<Vec<Vec<u8>>>) -> Option<Seq<Seq<u8>>> {
    match t {
        Some(v) => Some(v@.map(|i: int, x: Vec<u8>| x@)),
        None => None,
    }
}

/// Copies an entry.
fn clone_entry(e: &Entry) -> (r: Entry)
    ensures
        entry_view(r) == entry_view(*e),
{
    let alias = e.alias.clone();
    let pubkey = crate::temp_keys::bytes_clone(&e.pubkey);
    let credential_id = match &e.credential_id {
        Some(c) => Some(crate::temp_keys::bytes_clone(c)),
        None => None,
    };
    Entry { alias, pubkey, credential_id }
}

} // verus!
