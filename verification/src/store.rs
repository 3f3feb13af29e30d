//! The record store: an in-memory collection of employee records keyed by
//! their identifier, and the admin records beside it.
//!
//! Every operation works on the in-memory collection; callers persist the
//! store by rendering it with the codec and writing the result out, and
//! reload it by parsing the file back into records.

use vstd::prelude::*;
use vstd::multiset::Multiset;

use crate::errors::DataStoreError;
use crate::errors::StoreError;
use crate::models::Admin;
use crate::models::AdminView;
use crate::models::Employee;
use crate::models::EmployeeView;

verus! {

/// The views of a sequence of records, element by element.
pub open spec fn views_of(s: Seq<Employee>) -> Seq<EmployeeView> {
    s.map_values(|e: Employee| e@)
}

/// Some record in `s` carries identifier `id`.
pub open spec fn has_id(s: Seq<EmployeeView>, id: Seq<char>) -> bool {
    exists|i: int| 0 <= i < s.len() && (#[trigger] s[i]).id == Some(id)
}

/// The index of the record carrying `id` (meaningful only when `has_id`).
pub open spec fn index_of_id(s: Seq<EmployeeView>, id: Seq<char>) -> int {
    choose|i: int| 0 <= i < s.len() && (#[trigger] s[i]).id == Some(id)
}

/// The record carrying `id`, if any.
pub open spec fn record_with_id(s: Seq<EmployeeView>, id: Seq<char>) -> Option<EmployeeView> {
    if has_id(s, id) {
        Some(s[index_of_id(s, id)])
    } else {
        None
    }
}

/// Some record in `s` carries this (first name, last name) pair.
pub open spec fn has_name(s: Seq<EmployeeView>, first: Seq<char>, last: Seq<char>) -> bool {
    exists|i: int|
        0 <= i < s.len() && (#[trigger] s[i]).first_name == first && s[i].last_name == last
}

/// Some record in `s` carries handle `h`.
pub open spec fn has_handle(s: Seq<EmployeeView>, h: Seq<char>) -> bool {
    exists|i: int| 0 <= i < s.len() && (#[trigger] s[i]).handle == Some(h)
}

/// The first record in `s` whose handle is `h`, if any.
pub open spec fn first_with_handle(s: Seq<EmployeeView>, h: Seq<char>) -> Option<EmployeeView>
    decreases s.len(),
{
    if s.len() == 0 {
        None
    } else if s[0].handle == Some(h) {
        Some(s[0])
    } else {
        first_with_handle(s.drop_first(), h)
    }
}

/// Insert-or-replace keyed by the record's identifier.
pub open spec fn upsert(s: Seq<EmployeeView>, e: EmployeeView) -> Seq<EmployeeView> {
    if e.id is Some && has_id(s, e.id->0) {
        s.update(index_of_id(s, e.id->0), e)
    } else {
        s.push(e)
    }
}

/// Remove the record keyed by `id`, if present.
pub open spec fn remove_id(s: Seq<EmployeeView>, id: Seq<char>) -> Seq<EmployeeView> {
    if has_id(s, id) {
        s.remove(index_of_id(s, id))
    } else {
        s
    }
}

/// Every record carries an identifier, and no two records share one.
pub open spec fn ids_ok(s: Seq<EmployeeView>) -> bool {
    &&& forall|i: int| 0 <= i < s.len() ==> (#[trigger] s[i]).id is Some
    &&& forall|i: int, j: int|
        #![trigger s[i], s[j]]
        0 <= i < j < s.len() ==> s[i].id != s[j].id
}

/// The slice of records that a (1-based) page selects.
pub open spec fn page_of(s: Seq<EmployeeView>, page: int, per_page: int) -> Seq<EmployeeView> {
    if page < 1 {
        Seq::empty()
    } else {
        let start = (page - 1) * per_page;
        if start >= s.len() {
            Seq::empty()
        } else if start + per_page >= s.len() {
            s.subrange(start, s.len() as int)
        } else {
            s.subrange(start, start + per_page)
        }
    }
}

fn opt_str_eq(a: &Option<String>, b: &Option<String>) -> (r: bool)
    ensures
        r == (a.deep_view() == b.deep_view()),
{
    match (a, b) {
        (Some(x), Some(y)) => *x == *y,
        (None, None) => true,
        _ => false,
    }
}

/// The in-memory employee store: records in insertion order, at most one
/// per identifier and at most one per (first name, last name) pair for
/// records admitted through `save`.
pub struct EmployeeStore {
    records: Vec<Employee>,
}

impl View for EmployeeStore {
    type V = Seq<EmployeeView>;

    closed spec fn view(&self) -> Seq<EmployeeView> {
        views_of(self.records@)
    }
}

impl EmployeeStore {
    /// Identifiers are present and unique.
    pub open spec fn wf(&self) -> bool {
        ids_ok(self@)
    }

    /// An empty store.
    pub fn new() -> (s: EmployeeStore)
        ensures
            s.wf(),
            s@ == Seq::<EmployeeView>::empty(),
    {
        let s = EmployeeStore { records: Vec::new() };
        proof {
            assert(s@ =~= Seq::<EmployeeView>::empty());
        }
        s
    }

    /// Build a store from loaded records, rejecting a collection whose
    /// identifiers are missing or duplicated.
    pub fn from_records(records: Vec<Employee>) -> (r: Result<EmployeeStore, StoreError>)
        ensures
            match r {
                Ok(s) => s.wf() && s@ == views_of(records@),
                Err(e) => e == StoreError::ParseError && !ids_ok(views_of(records@)),
            },
    {
        let ghost v = views_of(records@);
        let n = records.len();
        let mut i: usize = 0;
        while i < n
            invariant
                n == records.len(),
                i <= n,
                v == views_of(records@),
                forall|k: int| 0 <= k < i ==> (#[trigger] v[k]).id is Some,
                forall|k: int, l: int|
                    #![trigger v[k], v[l]]
                    0 <= k < l < i ==> v[k].id != v[l].id,
            decreases n - i,
        {
            match &records[i].id {
                None => {
                    proof {
                        assert(v[i as int].id is None);
                    }
                    return Err(StoreError::ParseError);
                },
                Some(id) => {
                    let mut j: usize = 0;
                    while j < i
                        invariant
                            j <= i < n == records.len(),
                            v == views_of(records@),
                            v[i as int].id == Some(id@),
                            forall|k: int| 0 <= k < j ==> (#[trigger] v[k]).id != v[i as int].id,
                        decreases i - j,
                    {
                        if opt_str_eq(&records[j].id, &records[i].id) {
                            proof {
                                assert(v[j as int].id == v[i as int].id);
                            }
                            return Err(StoreError::ParseError);
                        }
                        j += 1;
                    }
                },
            }
            i += 1;
        }
        let s = EmployeeStore { records };
        proof {
            assert(s@ == v);
            assert(ids_ok(v));
        }
        Ok(s)
    }

    /// How many records the store holds.
    pub fn len(&self) -> (n: usize)
        ensures
            n == self@.len(),
    {
        self.records.len()
    }

    /// Linear scan for a record with this (first name, last name) pair.
    pub fn exists_by_name(&self, first_name: &String, last_name: &String) -> (r: bool)
        ensures
            r == has_name(self@, first_name@, last_name@),
    {
        let n = self.records.len();
        let mut i: usize = 0;
        while i < n
            invariant
                n == self@.len(),
                i <= n,
                forall|k: int|
                    0 <= k < i ==> !((#[trigger] self@[k]).first_name == first_name@
                        && self@[k].last_name == last_name@),
            decreases n - i,
        {
            if self.records[i].first_name == *first_name && self.records[i].last_name
                == *last_name {
                proof {
                    assert(self@[i as int].first_name == first_name@ && self@[i as int].last_name
                        == last_name@);
                }
                return true;
            }
            i += 1;
        }
        false
    }

    fn find_by_id(&self, id: &String) -> (r: Option<usize>)
        requires
            self.wf(),
        ensures
            match r {
                Some(i) => i < self@.len() && self@[i as int].id == Some(id@) && has_id(
                    self@,
                    id@,
                ) && index_of_id(self@, id@) == i as int,
                None => !has_id(self@, id@),
            },
    {
        let n = self.records.len();
        let mut i: usize = 0;
        while i < n
            invariant
                self.wf(),
                n == self@.len(),
                i <= n,
                forall|k: int| 0 <= k < i ==> (#[trigger] self@[k]).id != Some(id@),
            decreases n - i,
        {
            let hit = match &self.records[i].id {
                Some(s) => *s == *id,
                None => false,
            };
            if hit {
                proof {
                    assert(self@[i as int].id == Some(id@));
                    assert(has_id(self@, id@));
                    let w = index_of_id(self@, id@);
                    assert(0 <= w < self@.len() && self@[w].id == Some(id@));
                    assert(w == i as int);
                }
                return Some(i);
            }
            i += 1;
        }
        None
    }

    /// Insert the record when its (first name, last name) pair is new;
    /// report a conflict, leaving the store unchanged, when it is not.
    ///
    /// A record is only valid with an identifier, assigned at creation;
    /// that domain is stated as a precondition, so a caller outside
    /// verification must test `id.is_some()` before calling in.
    pub fn save(&mut self, employee: Employee) -> (r: Result<(), DataStoreError>)
        requires
            old(self).wf(),
            employee@.id is Some,
        ensures
            final(self).wf(),
            match r {
                Ok(()) => !has_name(old(self)@, employee@.first_name, employee@.last_name)
                    && final(self)@ == upsert(old(self)@, employee@),
                Err(e) => has_name(old(self)@, employee@.first_name, employee@.last_name)
                    && final(self)@ == old(self)@ && e == (DataStoreError::EmployeeAlreadyExists {
                    first_name: employee.first_name,
                    last_name: employee.last_name,
                }),
            },
    {
        if self.exists_by_name(&employee.first_name, &employee.last_name) {
            Err(
                DataStoreError::EmployeeAlreadyExists {
                    first_name: employee.first_name,
                    last_name: employee.last_name,
                },
            )
        } else {
            self.upsert_record(employee);
            Ok(())
        }
    }

    /// Insert-or-replace keyed by the record's identifier; a record whose
    /// identifier is absent from the store is created.
    ///
    /// As with `save`, the record must carry its identifier; a caller
    /// outside verification must test `id.is_some()` before calling in.
    pub fn update(&mut self, employee: Employee)
        requires
            old(self).wf(),
            employee@.id is Some,
        ensures
            final(self).wf(),
            final(self)@ == upsert(old(self)@, employee@),
    {
        self.upsert_record(employee);
    }

    fn upsert_record(&mut self, employee: Employee)
        requires
            old(self).wf(),
            employee@.id is Some,
        ensures
            final(self).wf(),
            final(self)@ == upsert(old(self)@, employee@),
    {
        let ghost old_v = self@;
        let ghost ev = employee@;
        let found = {
            let id = match &employee.id {
                Some(s) => s,
                None => &employee.first_name,
            };
            self.find_by_id(id)
        };
        match found {
            Some(i) => {
                self.records.set(i, employee);
                proof {
                    assert(self@ =~= old_v.update(i as int, ev));
                    assert forall|k: int| 0 <= k < self@.len() implies (#[trigger] self@[k]).id
                        is Some by {
                        if k != i as int {
                            assert(self@[k] == old_v[k]);
                        }
                    }
                    assert forall|k: int, l: int|
                        #![trigger self@[k], self@[l]]
                        0 <= k < l < self@.len() implies self@[k].id != self@[l].id by {
                        assert(old_v[k].id != old_v[l].id);
                        assert(old_v[i as int].id == ev.id);
                    }
                }
            },
            None => {
                self.records.push(employee);
                proof {
                    assert(self@ =~= old_v.push(ev));
                    assert forall|k: int, l: int|
                        #![trigger self@[k], self@[l]]
                        0 <= k < l < self@.len() implies self@[k].id != self@[l].id by {
                        if l == old_v.len() {
                            assert(self@[k] == old_v[k]);
                            assert(old_v[k].id != Some(ev.id->0));
                        } else {
                            assert(old_v[k].id != old_v[l].id);
                        }
                    }
                }
            },
        }
    }

    /// Remove the record keyed by `id`; removing an absent identifier is
    /// not an error and leaves the store unchanged.
    pub fn delete(&mut self, id: &String)
        requires
            old(self).wf(),
        ensures
            final(self).wf(),
            final(self)@ == remove_id(old(self)@, id@),
            !has_id(final(self)@, id@),
    {
        let ghost old_v = self@;
        match self.find_by_id(id) {
            Some(i) => {
                self.records.remove(i);
                proof {
                    assert(self@ =~= old_v.remove(i as int));
                    lemma_remove_id_unique(old_v, id@);
                }
            },
            None => {
                proof {
                    assert(self@ == remove_id(old_v, id@));
                }
            },
        }
    }

    /// Look a record up by its identifier.
    pub fn get_by_id(&self, id: &String) -> (r: Result<Employee, StoreError>)
        requires
            self.wf(),
        ensures
            match r {
                Ok(e) => record_with_id(self@, id@) == Some(e@),
                Err(err) => err == StoreError::NotFound && !has_id(self@, id@),
            },
    {
        match self.find_by_id(id) {
            Some(i) => Ok(self.records[i].clone()),
            None => Err(StoreError::NotFound),
        }
    }

    /// Look up the first record whose handle is `handle`.
    pub fn get_by_handle(&self, handle: &String) -> (r: Result<Employee, StoreError>)
        ensures
            match r {
                Ok(e) => first_with_handle(self@, handle@) == Some(e@),
                Err(err) => err == StoreError::NotFound && first_with_handle(self@, handle@)
                    is None && !has_handle(self@, handle@),
            },
    {
        let n = self.records.len();
        let mut i: usize = 0;
        proof {
            assert(self@.skip(0) =~= self@);
        }
        while i < n
            invariant
                n == self@.len(),
                i <= n,
                first_with_handle(self@, handle@) == first_with_handle(
                    self@.skip(i as int),
                    handle@,
                ),
                forall|k: int| 0 <= k < i ==> (#[trigger] self@[k]).handle != Some(handle@),
            decreases n - i,
        {
            let hit = match &self.records[i].handle {
                Some(h) => *h == *handle,
                None => false,
            };
            proof {
                assert(self@.skip(i as int)[0] == self@[i as int]);
                assert(self@.skip(i as int).drop_first() =~= self@.skip(i + 1));
            }
            if hit {
                let e = self.records[i].clone();
                proof {
                    assert(first_with_handle(self@.skip(i as int), handle@) == Some(
                        self@[i as int],
                    ));
                }
                return Ok(e);
            }
            i += 1;
        }
        proof {
            assert(self@.skip(n as int).len() == 0);
        }
        Err(StoreError::NotFound)
    }

    /// All records, in store order.
    pub fn list(&self) -> (r: Vec<Employee>)
        ensures
            views_of(r@) == self@,
    {
        let n = self.records.len();
        let mut out: Vec<Employee> = Vec::new();
        let mut i: usize = 0;
        while i < n
            invariant
                n == self@.len(),
                i <= n,
                out@.len() == i,
                forall|k: int| 0 <= k < i ==> (#[trigger] out@[k])@ == self@[k],
            decreases n - i,
        {
            out.push(self.records[i].clone());
            i += 1;
        }
        proof {
            assert(views_of(out@) =~= self@);
        }
        out
    }

    /// The records of a (1-based) page of size `per_page`.
    pub fn paginate(&self, page: usize, per_page: usize) -> (r: Vec<Employee>)
        ensures
            views_of(r@) == page_of(self@, page as int, per_page as int),
    {
        let n = self.records.len();
        if page < 1 {
            let out: Vec<Employee> = Vec::new();
            proof {
                assert(views_of(out@) =~= page_of(self@, page as int, per_page as int));
            }
            return out;
        }
        let start_opt = (page - 1).checked_mul(per_page);
        let (start, end) = match start_opt {
            None => {
                let out: Vec<Employee> = Vec::new();
                proof {
                    assert((page - 1) * per_page > usize::MAX >= self@.len());
                    assert(views_of(out@) =~= page_of(self@, page as int, per_page as int));
                }
                return out;
            },
            Some(start) => {
                if start >= n {
                    let out: Vec<Employee> = Vec::new();
                    proof {
                        assert(views_of(out@) =~= page_of(self@, page as int, per_page as int));
                    }
                    return out;
                }
                match start.checked_add(per_page) {
                    None => {
                        proof {
                            assert(start + per_page > usize::MAX >= self@.len());
                        }
                        (start, n)
                    },
                    Some(end) => {
                        if end >= n {
                            (start, n)
                        } else {
                            (start, end)
                        }
                    },
                }
            },
        };
        let mut out: Vec<Employee> = Vec::new();
        let mut i: usize = start;
        while i < end
            invariant
                start <= i <= end <= n == self@.len(),
                out@.len() == i - start,
                forall|k: int|
                    0 <= k < out@.len() ==> (#[trigger] out@[k])@ == self@[start + k],
            decreases end - i,
        {
            out.push(self.records[i].clone());
            i += 1;
        }
        proof {
            assert(views_of(out@) =~= self@.subrange(start as int, end as int));
            assert(views_of(out@) =~= page_of(self@, page as int, per_page as int));
        }
        out
    }
}

/// After removing identifier `id` from a store with unique identifiers,
/// no record carries `id`, and the remaining identifiers are still
/// present and unique.
pub proof fn lemma_remove_id_unique(s: Seq<EmployeeView>, id: Seq<char>)
    requires
        ids_ok(s),
    ensures
        !has_id(remove_id(s, id), id),
        ids_ok(remove_id(s, id)),
{
    if has_id(s, id) {
        let w = index_of_id(s, id);
        assert(0 <= w < s.len() && s[w].id == Some(id));
        let t = s.remove(w);
        assert forall|k: int| 0 <= k < t.len() implies (#[trigger] t[k]).id != Some(id) by {
            if k < w {
                assert(t[k] == s[k]);
            } else {
                assert(t[k] == s[k + 1]);
            }
        }
        assert forall|k: int| 0 <= k < t.len() implies (#[trigger] t[k]).id is Some by {
            if k < w {
                assert(t[k] == s[k]);
            } else {
                assert(t[k] == s[k + 1]);
            }
        }
        assert forall|k: int, l: int|
            #![trigger t[k], t[l]]
            0 <= k < l < t.len() implies t[k].id != t[l].id by {
            let k0 = if k < w {
                k
            } else {
                k + 1
            };
            let l0 = if l < w {
                l
            } else {
                l + 1
            };
            assert(t[k] == s[k0] && t[l] == s[l0]);
            assert(s[k0].id != s[l0].id);
        }
    }
}

/// The views of a sequence of admin records.
pub open spec fn admin_views_of(s: Seq<Admin>) -> Seq<AdminView> {
    s.map_values(|a: Admin| a@)
}

/// Some admin record in `s` carries identifier `id`.
pub open spec fn admin_has_id(s: Seq<AdminView>, id: Seq<char>) -> bool {
    exists|i: int| 0 <= i < s.len() && (#[trigger] s[i]).id == id
}

/// The index of the admin record carrying `id`.
pub open spec fn admin_index_of_id(s: Seq<AdminView>, id: Seq<char>) -> int {
    choose|i: int| 0 <= i < s.len() && (#[trigger] s[i]).id == id
}

/// The admin record carrying `id`, if any.
pub open spec fn admin_with_id(s: Seq<AdminView>, id: Seq<char>) -> Option<AdminView> {
    if admin_has_id(s, id) {
        Some(s[admin_index_of_id(s, id)])
    } else {
        None
    }
}

/// No two admin records share an identifier.
pub open spec fn admin_ids_ok(s: Seq<AdminView>) -> bool {
    forall|i: int, j: int| #![trigger s[i], s[j]] 0 <= i < j < s.len() ==> s[i].id != s[j].id
}

/// The in-memory admin store.
pub struct AdminStore {
    admins: Vec<Admin>,
}

impl View for AdminStore {
    type V = Seq<AdminView>;

    closed spec fn view(&self) -> Seq<AdminView> {
        admin_views_of(self.admins@)
    }
}

impl AdminStore {
    /// Identifiers are unique.
    pub open spec fn wf(&self) -> bool {
        admin_ids_ok(self@)
    }

    /// An empty admin store.
    pub fn new() -> (s: AdminStore)
        ensures
            s.wf(),
            s@ == Seq::<AdminView>::empty(),
    {
        let s = AdminStore { admins: Vec::new() };
        proof {
            assert(s@ =~= Seq::<AdminView>::empty());
        }
        s
    }

    fn find_by_id(&self, id: &String) -> (r: Option<usize>)
        requires
            self.wf(),
        ensures
            match r {
                Some(i) => i < self@.len() && self@[i as int].id == id@ && admin_has_id(self@, id@)
                    && admin_index_of_id(self@, id@) == i as int,
                None => !admin_has_id(self@, id@),
            },
    {
        let n = self.admins.len();
        let mut i: usize = 0;
        while i < n
            invariant
                self.wf(),
                n == self@.len(),
                i <= n,
                forall|k: int| 0 <= k < i ==> (#[trigger] self@[k]).id != id@,
            decreases n - i,
        {
            if self.admins[i].id == *id {
                proof {
                    assert(self@[i as int].id == id@);
                    assert(admin_has_id(self@, id@));
                    let w = admin_index_of_id(self@, id@);
                    assert(0 <= w < self@.len() && self@[w].id == id@);
                    assert(w == i as int);
                }
                return Some(i);
            }
            i += 1;
        }
        None
    }

    /// Whether an admin record with this identifier exists.
    pub fn check_admin_exists(&self, id: &String) -> (r: bool)
        requires
            self.wf(),
        ensures
            r == admin_has_id(self@, id@),
    {
        match self.find_by_id(id) {
            Some(_) => true,
            None => false,
        }
    }

    /// Look an admin record up by its identifier.
    pub fn get_admin_by_id(&self, id: &String) -> (r: Option<Admin>)
        requires
            self.wf(),
        ensures
            match r {
                Some(a) => admin_with_id(self@, id@) == Some(a@),
                None => !admin_has_id(self@, id@),
            },
    {
        match self.find_by_id(id) {
            Some(i) => Some(self.admins[i].clone()),
            None => None,
        }
    }

    /// Insert-or-replace keyed by the admin's identifier.
    pub fn add_admin(&mut self, admin: Admin)
        requires
            old(self).wf(),
        ensures
            final(self).wf(),
            final(self)@ == if admin_has_id(old(self)@, admin@.id) {
                old(self)@.update(admin_index_of_id(old(self)@, admin@.id), admin@)
            } else {
                old(self)@.push(admin@)
            },
    {
        let ghost old_v = self@;
        let ghost av = admin@;
        match self.find_by_id(&admin.id) {
            Some(i) => {
                self.admins.set(i, admin);
                proof {
                    assert(self@ =~= old_v.update(i as int, av));
                    assert forall|k: int, l: int|
                        #![trigger self@[k], self@[l]]
                        0 <= k < l < self@.len() implies self@[k].id != self@[l].id by {
                        assert(old_v[k].id != old_v[l].id);
                        assert(old_v[i as int].id == av.id);
                    }
                }
            },
            None => {
                self.admins.push(admin);
                proof {
                    assert(self@ =~= old_v.push(av));
                    assert forall|k: int, l: int|
                        #![trigger self@[k], self@[l]]
                        0 <= k < l < self@.len() implies self@[k].id != self@[l].id by {
                        if l == old_v.len() {
                            assert(self@[k] == old_v[k]);
                        } else {
                            assert(old_v[k].id != old_v[l].id);
                        }
                    }
                }
            },
        }
    }

    /// All admin records, in store order.
    pub fn list(&self) -> (r: Vec<Admin>)
        ensures
            admin_views_of(r@) == self@,
    {
        let n = self.admins.len();
        let mut out: Vec<Admin> = Vec::new();
        let mut i: usize = 0;
        while i < n
            invariant
                n == self@.len(),
                i <= n,
                out@.len() == i,
                forall|k: int| 0 <= k < i ==> (#[trigger] out@[k])@ == self@[k],
            decreases n - i,
        {
            out.push(self.admins[i].clone());
            i += 1;
        }
        proof {
            assert(admin_views_of(out@) =~= self@);
        }
        out
    }

    /// Build an admin store from loaded records, rejecting duplicates.
    pub fn from_records(admins: Vec<Admin>) -> (r: Result<AdminStore, StoreError>)
        ensures
            match r {
                Ok(s) => s.wf() && s@ == admin_views_of(admins@),
                Err(e) => e == StoreError::ParseError && !admin_ids_ok(admin_views_of(admins@)),
            },
    {
        let ghost v = admin_views_of(admins@);
        let n = admins.len();
        let mut i: usize = 0;
        while i < n
            invariant
                n == admins.len(),
                i <= n,
                v == admin_views_of(admins@),
                forall|k: int, l: int|
                    #![trigger v[k], v[l]]
                    0 <= k < l < i ==> v[k].id != v[l].id,
            decreases n - i,
        {
            let mut j: usize = 0;
            while j < i
                invariant
                    j <= i < n == admins.len(),
                    v == admin_views_of(admins@),
                    forall|k: int| 0 <= k < j ==> (#[trigger] v[k]).id != v[i as int].id,
                decreases i - j,
            {
                if admins[j].id == admins[i].id {
                    proof {
                        assert(v[j as int].id == v[i as int].id);
                    }
                    return Err(StoreError::ParseError);
                }
                j += 1;
            }
            i += 1;
        }
        let s = AdminStore { admins };
        proof {
            assert(s@ == v);
            assert(admin_ids_ok(v));
        }
        Ok(s)
    }
}

/// After `save` admits a record whose (first name, last name) pair was
/// absent from the store, exactly one record carries that pair.
pub proof fn lemma_save_name_unique(s: Seq<EmployeeView>, e: EmployeeView)
    requires
        !has_name(s, e.first_name, e.last_name),
    ensures
        ({
            let t = upsert(s, e);
            exists|i: int|
                0 <= i < t.len() && (#[trigger] t[i]).first_name == e.first_name
                    && t[i].last_name == e.last_name && (forall|j: int|
                    0 <= j < t.len() && j != i ==> !((#[trigger] t[j]).first_name == e.first_name
                        && t[j].last_name == e.last_name))
        }),
{
    let t = upsert(s, e);
    if e.id is Some && has_id(s, e.id->0) {
        let w = index_of_id(s, e.id->0);
        assert(0 <= w < s.len() && s[w].id == Some(e.id->0));
        assert(t == s.update(w, e));
        assert(t[w] == e);
        assert forall|j: int|
            0 <= j < t.len() && j != w implies !((#[trigger] t[j]).first_name == e.first_name
                && t[j].last_name == e.last_name) by {
            assert(t[j] == s[j]);
            assert(!(s[j].first_name == e.first_name && s[j].last_name == e.last_name));
        }
    } else {
        let w = s.len() as int;
        assert(t == s.push(e));
        assert(t[w] == e);
        assert forall|j: int|
            0 <= j < t.len() && j != w implies !((#[trigger] t[j]).first_name == e.first_name
                && t[j].last_name == e.last_name) by {
            assert(t[j] == s[j]);
            assert(!(s[j].first_name == e.first_name && s[j].last_name == e.last_name));
        }
    }
}

/// Lexicographic order on character sequences, by code point.
pub open spec fn lex_le(a: Seq<char>, b: Seq<char>) -> bool
    decreases a.len(),
{
    if a.len() == 0 {
        true
    } else if b.len() == 0 {
        false
    } else if (a[0] as u32) < (b[0] as u32) {
        true
    } else if (a[0] as u32) > (b[0] as u32) {
        false
    } else {
        lex_le(a.drop_first(), b.drop_first())
    }
}

/// The order is total: of two strings, one comes no later than the other.
pub proof fn lemma_lex_total(a: Seq<char>, b: Seq<char>)
    ensures
        lex_le(a, b) || lex_le(b, a),
    decreases a.len(),
{
    if a.len() > 0 && b.len() > 0 && (a[0] as u32) == (b[0] as u32) {
        lemma_lex_total(a.drop_first(), b.drop_first());
    }
}

/// The order is transitive.
pub proof fn lemma_lex_trans(a: Seq<char>, b: Seq<char>, c: Seq<char>)
    requires
        lex_le(a, b),
        lex_le(b, c),
    ensures
        lex_le(a, c),
    decreases a.len(),
{
    if a.len() > 0 && b.len() > 0 && c.len() > 0 && (a[0] as u32) == (b[0] as u32) && (b[0] as u32)
        == (c[0] as u32) {
        lemma_lex_trans(a.drop_first(), b.drop_first(), c.drop_first());
    }
}

fn str_le(a: &String, b: &String) -> (r: bool)
    ensures
        r == lex_le(a@, b@),
{
    let av = crate::text::str_to_chars(a.as_str());
    let bv = crate::text::str_to_chars(b.as_str());
    let an = av.len();
    let bn = bv.len();
    let mut i: usize = 0;
    proof {
        assert(a@.skip(0) =~= a@);
        assert(b@.skip(0) =~= b@);
    }
    while i < an && i < bn
        invariant
            an == a@.len(),
            bn == b@.len(),
            av@ == a@,
            bv@ == b@,
            i <= an,
            i <= bn,
            lex_le(a@, b@) == lex_le(a@.skip(i as int), b@.skip(i as int)),
        decreases an - i,
    {
        let ca = av[i];
        let cb = bv[i];
        if (ca as u32) < (cb as u32) {
            proof {
                assert(a@.skip(i as int)[0] == ca && b@.skip(i as int)[0] == cb);
            }
            return true;
        }
        if (ca as u32) > (cb as u32) {
            proof {
                assert(a@.skip(i as int)[0] == ca && b@.skip(i as int)[0] == cb);
            }
            return false;
        }
        proof {
            assert(a@.skip(i as int)[0] == ca && b@.skip(i as int)[0] == cb);
            assert(a@.skip(i as int).drop_first() =~= a@.skip(i + 1));
            assert(b@.skip(i as int).drop_first() =~= b@.skip(i + 1));
        }
        i += 1;
    }
    proof {
        if i == an {
            assert(a@.skip(i as int).len() == 0);
        } else {
            assert(b@.skip(i as int).len() == 0);
            assert(a@.skip(i as int).len() > 0);
        }
    }
    an <= bn
}

/// The records are ordered by first name.
pub open spec fn sorted_by_first_name(s: Seq<EmployeeView>) -> bool {
    forall|i: int, j: int|
        #![trigger s[i], s[j]]
        0 <= i < j < s.len() ==> lex_le(s[i].first_name, s[j].first_name)
}

/// Sort the records by first name: the result holds exactly the given
/// records, ordered lexicographically by their first names.
pub fn sort_by_first_name(records: Vec<Employee>) -> (r: Vec<Employee>)
    ensures
        sorted_by_first_name(views_of(r@)),
        views_of(r@).to_multiset() == views_of(records@).to_multiset(),
{
    broadcast use vstd::seq_lib::group_to_multiset_ensures;
    broadcast use vstd::multiset::group_multiset_axioms;

    let ghost orig = views_of(records@);
    let mut src = records;
    let mut out: Vec<Employee> = Vec::new();
    while src.len() > 0
        invariant
            views_of(out@).to_multiset().add(views_of(src@).to_multiset()) =~= orig.to_multiset(),
            sorted_by_first_name(views_of(out@)),
            forall|i: int, j: int|
                #![trigger views_of(out@)[i], views_of(src@)[j]]
                0 <= i < views_of(out@).len() && 0 <= j < views_of(src@).len() ==> lex_le(
                    views_of(out@)[i].first_name,
                    views_of(src@)[j].first_name,
                ),
        decreases src.len(),
    {
        let n = src.len();
        let mut m: usize = 0;
        let mut k: usize = 1;
        proof {
            lemma_lex_total(views_of(src@)[0].first_name, views_of(src@)[0].first_name);
        }
        while k < n
            invariant
                n == src@.len(),
                m < k <= n,
                forall|q: int|
                    0 <= q < k ==> lex_le(
                        views_of(src@)[m as int].first_name,
                        (#[trigger] views_of(src@)[q]).first_name,
                    ),
            decreases n - k,
        {
            let keep = str_le(&src[m].first_name, &src[k].first_name);
            if keep {
                proof {
                    assert(lex_le(
                        views_of(src@)[m as int].first_name,
                        views_of(src@)[k as int].first_name,
                    ));
                }
            }
            if !keep {
                proof {
                    lemma_lex_total(
                        views_of(src@)[m as int].first_name,
                        views_of(src@)[k as int].first_name,
                    );
                    assert forall|q: int| 0 <= q < k + 1 implies lex_le(
                        views_of(src@)[k as int].first_name,
                        (#[trigger] views_of(src@)[q]).first_name,
                    ) by {
                        if q == k as int {
                            lemma_lex_total(
                                views_of(src@)[k as int].first_name,
                                views_of(src@)[k as int].first_name,
                            );
                        } else {
                            lemma_lex_trans(
                                views_of(src@)[k as int].first_name,
                                views_of(src@)[m as int].first_name,
                                views_of(src@)[q].first_name,
                            );
                        }
                    }
                }
                m = k;
            }
            k += 1;
        }
        let ghost src_v = views_of(src@);
        let ghost out_v = views_of(out@);
        let e = src.remove(m);
        let ghost ev = e@;
        out.push(e);
        proof {
            assert(views_of(src@) =~= src_v.remove(m as int));
            assert(views_of(out@) =~= out_v.push(ev));
            assert(ev == src_v[m as int]);
            vstd::seq_lib::to_multiset_build(out_v, ev);
            assert(out_v.push(ev).to_multiset() =~= out_v.to_multiset().insert(ev));
            assert(views_of(out@).to_multiset() == out_v.to_multiset().insert(ev));
            vstd::seq_lib::to_multiset_remove(src_v, m as int);
            assert(src_v.remove(m as int).to_multiset() =~= src_v.to_multiset().remove(
                src_v[m as int],
            ));
            assert(views_of(src@).to_multiset() == src_v.to_multiset().remove(ev));
            assert(src_v.contains(ev));
            vstd::seq_lib::to_multiset_contains(src_v, ev);
            assert(src_v.to_multiset().count(ev) > 0);
            assert(views_of(out@).to_multiset().add(views_of(src@).to_multiset())
                =~= orig.to_multiset());
            assert forall|i: int, j: int|
                0 <= i < views_of(out@).len() && 0 <= j < views_of(src@).len() implies lex_le(
                    (#[trigger] views_of(out@)[i]).first_name,
                    (#[trigger] views_of(src@)[j]).first_name,
                ) by {
                let j0 = if j < m as int {
                    j
                } else {
                    j + 1
                };
                assert(views_of(src@)[j] == src_v[j0]);
                if i < out_v.len() {
                    assert(views_of(out@)[i] == out_v[i]);
                    assert(lex_le(out_v[i].first_name, src_v[j0].first_name));
                } else {
                    assert(views_of(out@)[i] == ev);
                    assert(lex_le(src_v[m as int].first_name, src_v[j0].first_name));
                }
            }
            assert forall|i: int, j: int|
                #![trigger views_of(out@)[i], views_of(out@)[j]]
                0 <= i < j < views_of(out@).len() implies lex_le(
                    views_of(out@)[i].first_name,
                    views_of(out@)[j].first_name,
                ) by {
                if j < out_v.len() {
                    assert(views_of(out@)[i] == out_v[i] && views_of(out@)[j] == out_v[j]);
                } else {
                    assert(views_of(out@)[i] == out_v[i] && views_of(out@)[j] == ev);
                    assert(lex_le(out_v[i].first_name, src_v[m as int].first_name));
                }
            }
        }
    }
    proof {
        assert(views_of(src@).to_multiset() =~= Multiset::<EmployeeView>::empty());
        assert(views_of(out@).to_multiset() =~= orig.to_multiset());
    }
    out
}

/// A record that still awaits onboarding.
pub open spec fn is_pending(e: EmployeeView) -> bool {
    e.onboarded == Some(false)
}

/// The not-yet-onboarded records of a sequence, in order.
pub open spec fn pending_of(s: Seq<EmployeeView>) -> Seq<EmployeeView>
    decreases s.len(),
{
    if s.len() == 0 {
        Seq::empty()
    } else if is_pending(s.last()) {
        pending_of(s.drop_last()).push(s.last())
    } else {
        pending_of(s.drop_last())
    }
}

/// Keep only the records that are not yet onboarded.
pub fn not_onboarded(records: &Vec<Employee>) -> (r: Vec<Employee>)
    ensures
        views_of(r@) == pending_of(views_of(records@)),
{
    let ghost v = views_of(records@);
    let n = records.len();
    let mut out: Vec<Employee> = Vec::new();
    let mut i: usize = 0;
    while i < n
        invariant
            n == v.len(),
            v == views_of(records@),
            i <= n,
            views_of(out@) == pending_of(v.take(i as int)),
        decreases n - i,
    {
        let ghost pre = views_of(out@);
        let keep = match records[i].onboarded {
            Some(b) => !b,
            None => false,
        };
        if keep {
            out.push(records[i].clone());
        }
        proof {
            assert(v.take(i + 1) =~= v.take(i as int).push(v[i as int]));
            assert(v.take(i + 1).drop_last() =~= v.take(i as int));
            assert(v.take(i + 1).last() == v[i as int]);
            if keep {
                assert(views_of(out@) =~= pre.push(v[i as int]));
                assert(is_pending(v[i as int]));
            } else {
                assert(!is_pending(v[i as int]));
            }
            assert(views_of(out@) =~= pending_of(v.take(i + 1)));
        }
        i += 1;
    }
    proof {
        assert(v.take(n as int) =~= v);
    }
    out
}

} // verus!
