//! The session store: the one mutable shared resource of the service.
//! Each setup call registers key material under a freshly generated
//! textual identifier; each query looks its session up by that
//! identifier.  Identifiers are held in canonical form, so lookup is
//! exact byte equality.

use vstd::prelude::*;
use crate::engine::PublicParams;

verus! {

/// The canonical (hyphenated, lower-case, 36-byte) form of a textual
/// UUID, when the bytes parse as one; a function of the bytes alone.
pub uninterp spec fn canon_uuid(s: Seq<u8>) -> Option<Seq<u8>>;

/// Relies on uuid::Uuid::new_v4 and uuid::Uuid::to_string: a fresh
/// version-4 identifier rendered in the canonical hyphenated form, which
/// is 36 ASCII bytes and parses back to itself unchanged.
#[verifier::external_body]
pub(crate) fn new_session_id() -> (r: Vec<u8>)
    ensures
        r@.len() == 36,
        canon_uuid(r@) == Some(r@),
{
    uuid::Uuid::new_v4().to_string().into_bytes()
}

/// Relies on uuid::Uuid::try_parse_ascii and uuid::Uuid::to_string: the
/// canonical form of a textual identifier is computed from the bytes
/// alone, and is 36 bytes when it exists.
#[verifier::external_body]
pub(crate) fn canonical_session_id(bytes: &Vec<u8>) -> (r: Option<Vec<u8>>)
    ensures
        match r {
            Some(id) => canon_uuid(bytes@) == Some(id@) && id@.len() == 36,
            None => canon_uuid(bytes@) is None,
        },
{
    match uuid::Uuid::try_parse_ascii(bytes.as_slice()) {
        Ok(u) => Some(u.to_string().into_bytes()),
        Err(_) => None,
    }
}

/// Byte-for-byte equality of two identifiers.
pub fn bytes_eq(a: &Vec<u8>, b: &Vec<u8>) -> (r: bool)
    ensures
        r <==> a@ == b@,
{
    if a.len() != b.len() {
        proof {
            assert(a@ != b@);
        }
        return false;
    }
    let len = a.len();
    let mut i: usize = 0;
    while i < len
        invariant
            i <= len,
            len == a@.len() == b@.len(),
            forall|k: int| 0 <= k < i ==> a@[k] == b@[k],
        decreases len - i,
    {
        if a[i] != b[i] {
            return false;
        }
        i = i + 1;
    }
    proof {
        assert(a@ =~= b@);
    }
    true
}

/// Session identifiers mapped to their registered key material.  Guarded
/// by the caller's single synchronization point; the store itself is
/// plain data.
pub struct SessionStore {
    /// Registered sessions, keys pairwise distinct.
    pub entries: Vec<(Vec<u8>, PublicParams)>,
}

impl SessionStore {
    /// Keys are pairwise distinct, so every lookup is unambiguous.
    pub open spec fn wf(self) -> bool {
        forall|i: int, j: int| 0 <= i < j < self.entries@.len()
            ==> (#[trigger] self.entries@[i]).0@ != (#[trigger] self.entries@[j]).0@
    }

    /// Every registered key blob is structurally well-formed under the
    /// given parameter model.
    pub open spec fn values_wf(self, params: crate::params::Params) -> bool {
        forall|i: int| 0 <= i < self.entries@.len()
            ==> (#[trigger] self.entries@[i]).1.wf(params)
    }

    /// Whether an identifier is registered.
    pub open spec fn contains_id(self, id: Seq<u8>) -> bool {
        exists|i: int| 0 <= i < self.entries@.len()
            && (#[trigger] self.entries@[i]).0@ == id
    }

    /// The key material registered under an identifier.
    pub open spec fn params_for(self, id: Seq<u8>) -> PublicParams {
        let i = choose|i: int| 0 <= i < self.entries@.len()
            && (#[trigger] self.entries@[i]).0@ == id;
        self.entries@[i].1
    }

    /// An empty store: no session is registered.
    pub fn new() -> (r: SessionStore)
        ensures
            r.wf(),
            forall|id: Seq<u8>| !r.contains_id(id),
            forall|ps: crate::params::Params| #[trigger] r.values_wf(ps),
    {
        SessionStore { entries: Vec::new() }
    }

    /// The index holding an identifier, when it is registered.
    fn find(&self, id: &Vec<u8>) -> (r: Option<usize>)
        ensures
            match r {
                Some(i) => i < self.entries@.len() && self.entries@[i as int].0@ == id@,
                None => !self.contains_id(id@),
            },
    {
        let len = self.entries.len();
        let mut i: usize = 0;
        while i < len
            invariant
                i <= len,
                len == self.entries@.len(),
                forall|k: int| 0 <= k < i ==> (#[trigger] self.entries@[k]).0@ != id@,
            decreases len - i,
        {
            if bytes_eq(&self.entries[i].0, id) {
                return Some(i);
            }
            i = i + 1;
        }
        None
    }

    /// Looks a session up.  Returns its key material exactly when the
    /// identifier is registered.
    pub fn get(&self, id: &Vec<u8>) -> (r: Option<&PublicParams>)
        requires
            self.wf(),
        ensures
            r is Some <==> self.contains_id(id@),
            r is Some ==> *r.unwrap() == self.params_for(id@),
    {
        match self.find(id) {
            Some(i) => {
                proof {
                    let j = choose|j: int| 0 <= j < self.entries@.len()
                        && (#[trigger] self.entries@[j]).0@ == id@;
                    if j < i as int {
                        assert(self.entries@[j].0@ != self.entries@[i as int].0@);
                    } else if (i as int) < j {
                        assert(self.entries@[i as int].0@ != self.entries@[j].0@);
                    }
                }
                Some(&self.entries[i].1)
            },
            None => None,
        }
    }

    /// Registers key material under an identifier; an existing entry
    /// under the same identifier is replaced.  Other sessions are
    /// untouched.
    pub fn insert(&mut self, id: Vec<u8>, pp: PublicParams)
        requires
            old(self).wf(),
        ensures
            final(self).wf(),
            final(self).contains_id(id@),
            final(self).params_for(id@) == pp,
            forall|ps: crate::params::Params| old(self).values_wf(ps) && pp.wf(ps)
                ==> #[trigger] final(self).values_wf(ps),
            forall|other: Seq<u8>| other != id@
                ==> (final(self).contains_id(other) <==> old(self).contains_id(other)),
            forall|other: Seq<u8>| other != id@ && old(self).contains_id(other)
                ==> final(self).params_for(other) == old(self).params_for(other),
    {
        let ghost pre = self.entries@;
        match self.find(&id) {
            Some(i) => {
                let _ = self.entries.remove(i);
                self.entries.push((id, pp));
                proof {
                    let post = self.entries@;
                    let last = post.len() - 1;
                    assert(post[last].0@ == pre[i as int].0@);
                    assert forall|x: int, y: int| 0 <= x < y < post.len() implies
                        (#[trigger] post[x]).0@ != (#[trigger] post[y]).0@ by {
                        let ox = if x < i as int { x } else { x + 1 };
                        if y == last {
                            if ox != i as int {
                                assert(post[x] == pre[ox]);
                            }
                        } else {
                            let oy = if y < i as int { y } else { y + 1 };
                            assert(post[x] == pre[ox]);
                            assert(post[y] == pre[oy]);
                        }
                    }
                    assert forall|other: Seq<u8>| other != post[last].0@
                        && old(self).contains_id(other) implies final(self).contains_id(other)
                        by {
                        let k = choose|k: int| 0 <= k < pre.len()
                            && (#[trigger] pre[k]).0@ == other;
                        let nk = if k < i as int { k } else { k - 1 };
                        assert(post[nk] == pre[k]);
                    }
                    assert forall|other: Seq<u8>| other != post[last].0@
                        && final(self).contains_id(other) implies old(self).contains_id(other)
                        by {
                        let k = choose|k: int| 0 <= k < post.len()
                            && (#[trigger] post[k]).0@ == other;
                        let ok = if k < i as int { k } else { k + 1 };
                        assert(post[k] == pre[ok]);
                    }
                    assert forall|other: Seq<u8>| other != post[last].0@
                        && old(self).contains_id(other)
                        implies final(self).params_for(other) == old(self).params_for(other)
                        by {
                        let k = choose|k: int| 0 <= k < post.len()
                            && (#[trigger] post[k]).0@ == other;
                        let ok = choose|k2: int| 0 <= k2 < pre.len()
                            && (#[trigger] pre[k2]).0@ == other;
                        let mapped = if k < i as int { k } else { k + 1 };
                        assert(post[k] == pre[mapped]);
                        if mapped != ok {
                            let lo = if mapped < ok { mapped } else { ok };
                            let hi = if mapped < ok { ok } else { mapped };
                            assert(pre[lo].0@ != pre[hi].0@);
                        }
                    }
                    assert(post[last].0@ == id@);
                    let kk = choose|k: int| 0 <= k < post.len()
                        && (#[trigger] post[k]).0@ == id@;
                    if kk != last {
                        assert(post[kk].0@ != post[last].0@);
                    }
                    assert(final(self).params_for(id@) == pp);
                    assert forall|ps: crate::params::Params|
                        old(self).values_wf(ps) && pp.wf(ps)
                        implies #[trigger] final(self).values_wf(ps) by {
                        assert forall|x: int| 0 <= x < post.len() implies (#[trigger] post[x]).1.wf(
                            ps,
                        ) by {
                            if x != last {
                                let ox = if x < i as int { x } else { x + 1 };
                                assert(post[x] == pre[ox]);
                                assert(pre[ox].1.wf(ps));
                            }
                        }
                    }
                }
            },
            None => {
                self.entries.push((id, pp));
                proof {
                    let post = self.entries@;
                    let last = post.len() - 1;
                    assert forall|x: int, y: int| 0 <= x < y < post.len() implies
                        (#[trigger] post[x]).0@ != (#[trigger] post[y]).0@ by {
                        if y == last {
                            assert(post[x] == pre[x]);
                            assert(!old(self).contains_id(post[last].0@));
                        } else {
                            assert(post[x] == pre[x]);
                            assert(post[y] == pre[y]);
                        }
                    }
                    assert forall|other: Seq<u8>| other != post[last].0@
                        && old(self).contains_id(other) implies final(self).contains_id(other)
                        by {
                        let k = choose|k: int| 0 <= k < pre.len()
                            && (#[trigger] pre[k]).0@ == other;
                        assert(post[k] == pre[k]);
                    }
                    assert forall|other: Seq<u8>| other != post[last].0@
                        && final(self).contains_id(other) implies old(self).contains_id(other)
                        by {
                        let k = choose|k: int| 0 <= k < post.len()
                            && (#[trigger] post[k]).0@ == other;
                        assert(post[k] == pre[k]);
                    }
                    assert forall|other: Seq<u8>| other != post[last].0@
                        && old(self).contains_id(other)
                        implies final(self).params_for(other) == old(self).params_for(other)
                        by {
                        let k = choose|k: int| 0 <= k < post.len()
                            && (#[trigger] post[k]).0@ == other;
                        let ok = choose|k2: int| 0 <= k2 < pre.len()
                            && (#[trigger] pre[k2]).0@ == other;
                        assert(post[k] == pre[k]);
                        if k != ok {
                            let lo = if k < ok { k } else { ok };
                            let hi = if k < ok { ok } else { k };
                            assert(pre[lo].0@ != pre[hi].0@);
                        }
                    }
                    assert(post[last].0@ == id@);
                    let kk = choose|k: int| 0 <= k < post.len()
                        && (#[trigger] post[k]).0@ == id@;
                    if kk != last {
                        assert(post[kk].0@ != post[last].0@);
                    }
                    assert(final(self).params_for(id@) == pp);
                    assert forall|ps: crate::params::Params|
                        old(self).values_wf(ps) && pp.wf(ps)
                        implies #[trigger] final(self).values_wf(ps) by {
                        assert forall|x: int| 0 <= x < post.len() implies (#[trigger] post[x]).1.wf(
                            ps,
                        ) by {
                            if x != last {
                                assert(post[x] == pre[x]);
                                assert(pre[x].1.wf(ps));
                            }
                        }
                    }
                }
            },
        }
    }
}

/// Key material looked up in a store whose values are all well-formed is
/// itself well-formed.
pub proof fn lemma_params_for_wf(
    store: SessionStore,
    id: Seq<u8>,
    ps: crate::params::Params,
)
    requires
        store.values_wf(ps),
        store.contains_id(id),
    ensures
        store.params_for(id).wf(ps),
{
    let i = choose|i: int| 0 <= i < store.entries@.len()
        && (#[trigger] store.entries@[i]).0@ == id;
    assert(store.entries@[i].1.wf(ps));
}

} // verus!
