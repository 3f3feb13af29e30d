//! The admin-session layer: an in-memory map from session key to bearer
//! token, admin provisioning, and the credential checks behind login.
//!
//! The session state machine per key is: no session, then `login` stores
//! a token (overwriting any previous one), then `logout` or expiry of
//! the token's one-hour window ends the session. Expiry is checked
//! lazily on access.

use vstd::prelude::*;

use crate::errors::StoreError;
use crate::models::Admin;
use crate::password_utils::generate_random_password;
use crate::password_utils::password_shape;
use crate::password_utils::spec_token_timestamp;
use crate::password_utils::token_fresh;
use crate::password_utils::validate_token_at;
use crate::store::admin_has_id;
use crate::store::AdminStore;

verus! {

/// Some session in `s` is stored under `key`.
pub open spec fn session_has_key(s: Seq<(Seq<char>, Seq<char>)>, key: Seq<char>) -> bool {
    exists|i: int| 0 <= i < s.len() && (#[trigger] s[i]).0 == key
}

/// The index of the session stored under `key`.
pub open spec fn session_index_of(s: Seq<(Seq<char>, Seq<char>)>, key: Seq<char>) -> int {
    choose|i: int| 0 <= i < s.len() && (#[trigger] s[i]).0 == key
}

/// The token stored under `key`, if any.
pub open spec fn session_token(s: Seq<(Seq<char>, Seq<char>)>, key: Seq<char>) -> Option<
    Seq<char>,
> {
    if session_has_key(s, key) {
        Some(s[session_index_of(s, key)].1)
    } else {
        None
    }
}

/// No two sessions share a key.
pub open spec fn session_keys_ok(s: Seq<(Seq<char>, Seq<char>)>) -> bool {
    forall|i: int, j: int| #![trigger s[i], s[j]] 0 <= i < j < s.len() ==> s[i].0 != s[j].0
}

/// The in-memory session map; one outstanding session per key.
pub struct SessionStore {
    sessions: Vec<(String, String)>,
}

impl View for SessionStore {
    type V = Seq<(Seq<char>, Seq<char>)>;

    closed spec fn view(&self) -> Seq<(Seq<char>, Seq<char>)> {
        self.sessions@.map_values(|p: (String, String)| (p.0@, p.1@))
    }
}

impl SessionStore {
    /// Keys are unique.
    pub open spec fn wf(&self) -> bool {
        session_keys_ok(self@)
    }

    /// An empty session map: nobody is logged in.
    pub fn new() -> (s: SessionStore)
        ensures
            s.wf(),
            s@ == Seq::<(Seq<char>, Seq<char>)>::empty(),
    {
        let s = SessionStore { sessions: Vec::new() };
        proof {
            assert(s@ =~= Seq::<(Seq<char>, Seq<char>)>::empty());
        }
        s
    }

    fn find(&self, key: &String) -> (r: Option<usize>)
        requires
            self.wf(),
        ensures
            match r {
                Some(i) => i < self@.len() && self@[i as int].0 == key@ && session_has_key(
                    self@,
                    key@,
                ) && session_index_of(self@, key@) == i as int,
                None => !session_has_key(self@, key@),
            },
    {
        let n = self.sessions.len();
        let mut i: usize = 0;
        while i < n
            invariant
                self.wf(),
                n == self@.len(),
                i <= n,
                forall|k: int| 0 <= k < i ==> (#[trigger] self@[k]).0 != key@,
            decreases n - i,
        {
            if self.sessions[i].0 == *key {
                proof {
                    assert(self@[i as int].0 == key@);
                    assert(session_has_key(self@, key@));
                    let w = session_index_of(self@, key@);
                    assert(0 <= w < self@.len() && self@[w].0 == key@);
                    assert(w == i as int);
                }
                return Some(i);
            }
            i += 1;
        }
        None
    }

    /// Whether a session is stored under `key`.
    pub fn contains_key(&self, key: &String) -> (r: bool)
        requires
            self.wf(),
        ensures
            r == session_has_key(self@, key@),
    {
        match self.find(key) {
            Some(_) => true,
            None => false,
        }
    }

    /// The token stored under `key`, if any.
    pub fn token_for(&self, key: &String) -> (r: Option<String>)
        requires
            self.wf(),
        ensures
            match r {
                Some(t) => session_token(self@, key@) == Some(t@),
                None => !session_has_key(self@, key@),
            },
    {
        match self.find(key) {
            Some(i) => Some(self.sessions[i].1.clone()),
            None => None,
        }
    }

    /// Store `token` under `key`; a later login overwrites an earlier
    /// session under the same key, and other keys are untouched.
    pub fn login(&mut self, key: String, token: String)
        requires
            old(self).wf(),
        ensures
            final(self).wf(),
            session_token(final(self)@, key@) == Some(token@),
            forall|k: Seq<char>|
                k != key@ ==> #[trigger] session_token(final(self)@, k) == session_token(
                    old(self)@,
                    k,
                ),
    {
        let ghost old_v = self@;
        let ghost kv = key@;
        let ghost tv = token@;
        let found = self.find(&key);
        match found {
            Some(i) => {
                self.sessions.set(i, (key, token));
                proof {
                    let v = self@;
                    assert(v =~= old_v.update(i as int, (kv, tv)));
                    lemma_session_upsert(old_v, v, kv, tv, i as int);
                }
            },
            None => {
                self.sessions.push((key, token));
                proof {
                    let v = self@;
                    assert(v =~= old_v.push((kv, tv)));
                    lemma_session_upsert(old_v, v, kv, tv, old_v.len() as int);
                }
            },
        }
    }

    /// Remove the session stored under `key`, if any.
    pub fn logout(&mut self, key: &String)
        requires
            old(self).wf(),
        ensures
            final(self).wf(),
            !session_has_key(final(self)@, key@),
            forall|k: Seq<char>|
                k != key@ ==> #[trigger] session_token(final(self)@, k) == session_token(
                    old(self)@,
                    k,
                ),
    {
        let ghost old_v = self@;
        let ghost kv = key@;
        match self.find(key) {
            Some(i) => {
                self.sessions.remove(i);
                proof {
                    assert(self@ =~= old_v.remove(i as int));
                    let v = self@;
                    assert forall|q: int| 0 <= q < v.len() implies (#[trigger] v[q]).0 != kv by {
                        if q < i as int {
                            assert(v[q] == old_v[q]);
                        } else {
                            assert(v[q] == old_v[q + 1]);
                        }
                    }
                    assert forall|a: int, b: int|
                        #![trigger v[a], v[b]]
                        0 <= a < b < v.len() implies v[a].0 != v[b].0 by {
                        let a0 = if a < i as int {
                            a
                        } else {
                            a + 1
                        };
                        let b0 = if b < i as int {
                            b
                        } else {
                            b + 1
                        };
                        assert(v[a] == old_v[a0] && v[b] == old_v[b0]);
                        assert(old_v[a0].0 != old_v[b0].0);
                    }
                    assert forall|k: Seq<char>| k != kv implies #[trigger] session_token(v, k)
                        == session_token(old_v, k) by {
                        if session_has_key(old_v, k) {
                            let w = session_index_of(old_v, k);
                            assert(old_v[w].0 == k);
                            assert(w != i as int);
                            let w2 = if w < i as int {
                                w
                            } else {
                                w - 1
                            };
                            assert(v[w2] == old_v[w]);
                            assert(session_has_key(v, k));
                            let w3 = session_index_of(v, k);
                            assert(v[w3].0 == k);
                            let w30 = if w3 < i as int {
                                w3
                            } else {
                                w3 + 1
                            };
                            assert(old_v[w30].0 == k);
                            assert(w30 == w);
                        } else {
                            if session_has_key(v, k) {
                                let w3 = session_index_of(v, k);
                                assert(v[w3].0 == k);
                                let w30 = if w3 < i as int {
                                    w3
                                } else {
                                    w3 + 1
                                };
                                assert(old_v[w30].0 == k);
                                assert(false);
                            }
                        }
                    }
                }
            },
            None => {},
        }
    }

    /// Whether the session under `key`, read at time `now`, is live: a
    /// token is stored, its timestamp parses, and it is within the
    /// one-hour window.
    pub fn validate_session_at(&self, key: &String, now: u64) -> (r: bool)
        requires
            self.wf(),
        ensures
            r == match session_token(self@, key@) {
                None => false,
                Some(t) => spec_token_timestamp(t) matches Some(ts) && token_fresh(ts, now),
            },
    {
        match self.token_for(key) {
            None => false,
            Some(t) => match validate_token_at(t.as_str(), now) {
                Ok(b) => b,
                Err(_) => false,
            },
        }
    }

    /// Whether the session under `key` is live at the clock's current
    /// reading; whatever the clock said, a live answer means a session
    /// is stored and its token is well formed.
    pub fn validate_session_token(&self, key: &String) -> (r: bool)
        requires
            self.wf(),
        ensures
            r ==> (session_token(self@, key@) matches Some(t) && spec_token_timestamp(t)
                is Some),
    {
        match self.token_for(key) {
            None => false,
            Some(t) => match crate::password_utils::validate_token_expiration(t) {
                Ok(b) => b,
                Err(_) => false,
            },
        }
    }
}

/// Create the admin record if it is absent, giving it a freshly
/// generated random password; report whether it was created.
pub fn create_admin(store: &mut AdminStore, id: String) -> (r: bool)
    requires
        old(store).wf(),
    ensures
        final(store).wf(),
        r == !admin_has_id(old(store)@, id@),
        !r ==> final(store)@ == old(store)@,
        r ==> final(store)@.len() == old(store)@.len() + 1 && final(store)@.last().id == id@
            && (final(store)@.last().password matches Some(pw) && password_shape(pw)) && (forall|
            k: int,
        |
            0 <= k < old(store)@.len() ==> final(store)@[k] == old(store)@[k]),
{
    if store.check_admin_exists(&id) {
        return false;
    }
    let password = generate_random_password();
    store.add_admin(Admin { id, password: Some(password) });
    true
}

/// Whether the admin record exists and carries exactly this plaintext
/// password.
pub open spec fn admin_password_ok(admin: Option<Admin>, password: Seq<char>) -> bool {
    match admin {
        Some(a) => a@.password == Some(password),
        None => false,
    }
}

/// The admin login check: the stored admin record must exist and must
/// carry exactly the given plaintext password.
pub fn verify_admin_password(admin: Option<Admin>, password: &String) -> (r: Result<
    bool,
    StoreError,
>)
    ensures
        match r {
            Ok(b) => b && admin_password_ok(admin, password@),
            Err(e) => e == StoreError::InvalidCredentials && !admin_password_ok(admin, password@),
        },
{
    match admin {
        None => Err(StoreError::InvalidCredentials),
        Some(a) => match &a.password {
            None => Err(StoreError::InvalidCredentials),
            Some(p) => {
                if *p == *password {
                    Ok(true)
                } else {
                    Err(StoreError::InvalidCredentials)
                }
            },
        },
    }
}

proof fn lemma_session_upsert(
    old_v: Seq<(Seq<char>, Seq<char>)>,
    v: Seq<(Seq<char>, Seq<char>)>,
    kv: Seq<char>,
    tv: Seq<char>,
    i: int,
)
    requires
        session_keys_ok(old_v),
        0 <= i <= old_v.len(),
        i < old_v.len() ==> v == old_v.update(i, (kv, tv)) && old_v[i].0 == kv,
        i == old_v.len() ==> v == old_v.push((kv, tv)) && !session_has_key(old_v, kv),
    ensures
        session_keys_ok(v),
        session_token(v, kv) == Some(tv),
        forall|k: Seq<char>|
            k != kv ==> #[trigger] session_token(v, k) == session_token(old_v, k),
{
    assert forall|a: int, b: int|
        #![trigger v[a], v[b]]
        0 <= a < b < v.len() implies v[a].0 != v[b].0 by {
        if a != i && b != i {
            assert(v[a] == old_v[a] && v[b] == old_v[b]);
            assert(old_v[a].0 != old_v[b].0);
        } else if a == i {
            assert(v[b] == old_v[b]);
            if i < old_v.len() {
                assert(old_v[i].0 != old_v[b].0);
            }
        } else {
            assert(v[a] == old_v[a]);
            if i < old_v.len() {
                assert(old_v[a].0 != old_v[i].0);
            } else {
                assert(old_v[a].0 != kv);
            }
        }
    }
    assert(v[i] == (kv, tv));
    assert(session_has_key(v, kv));
    let w = session_index_of(v, kv);
    assert(v[w].0 == kv);
    assert(w == i);
    assert forall|k: Seq<char>| k != kv implies #[trigger] session_token(v, k) == session_token(
        old_v,
        k,
    ) by {
        if session_has_key(old_v, k) {
            let w1 = session_index_of(old_v, k);
            assert(old_v[w1].0 == k);
            assert(w1 != i);
            assert(v[w1] == old_v[w1]);
            assert(session_has_key(v, k));
            let w2 = session_index_of(v, k);
            assert(v[w2].0 == k);
            assert(w2 != i);
            assert(old_v[w2].0 == k);
            assert(w2 == w1);
        } else {
            if session_has_key(v, k) {
                let w2 = session_index_of(v, k);
                assert(v[w2].0 == k);
                assert(w2 != i);
                assert(old_v[w2].0 == k);
                assert(false);
            }
        }
    }
}

} // verus!
