//! The ledger store: a person directory, an append-only movement log, the
//! cached balance rows and the user table, held together by one
//! well-formedness invariant.

use vstd::prelude::*;
use vstd::pervasive::VecAdditionalExecFns;

use crate::model::{
    AuthenticationError, Balance, BalanceView, LedgerError, Movement, MovementView, Person,
    PersonIn, PersonView, Selection, User, UserView, sel_matches, select_persons,
};

verus! {

/// The view of a sequence of records: the sequence of their views.
pub open spec fn view_seq<T: View>(s: Seq<T>) -> Seq<T::V> {
    Seq::new(s.len(), |i: int| s[i]@)
}

/// The whole store.
pub struct Ledger {
    pub persons: Vec<Person>,
    pub movements: Vec<Movement>,
    pub balances: Vec<Balance>,
    pub users: Vec<User>,
    /// The largest timestamp handed out so far; stamps never decrease.
    pub clock: u64,
}

/// Ghost view of the store.
pub ghost struct LedgerView {
    pub persons: Seq<PersonView>,
    pub movements: Seq<MovementView>,
    pub balances: Seq<BalanceView>,
    pub users: Seq<UserView>,
    pub clock: int,
}

impl View for Ledger {
    type V = LedgerView;

    open spec fn view(&self) -> LedgerView {
        LedgerView {
            persons: view_seq(self.persons@),
            movements: view_seq(self.movements@),
            balances: view_seq(self.balances@),
            users: view_seq(self.users@),
            clock: self.clock as int,
        }
    }
}

/// Sum of the values of the movements owned by `pid`, over the whole log.
pub open spec fn sum_values(ms: Seq<MovementView>, pid: int) -> int
    decreases ms.len(),
{
    if ms.len() == 0 {
        0
    } else {
        sum_values(ms.drop_last(), pid) + if ms.last().person_id == pid {
            ms.last().value
        } else {
            0
        }
    }
}

/// The currencies of the persons, once each, in order of first appearance.
pub open spec fn spec_currencies(ps: Seq<PersonView>) -> Seq<Seq<char>>
    decreases ps.len(),
{
    if ps.len() == 0 {
        Seq::empty()
    } else {
        let prev = spec_currencies(ps.drop_last());
        if prev.contains(ps.last().currency) {
            prev
        } else {
            prev.push(ps.last().currency)
        }
    }
}

/// The movements owned by `pid`, in log order.
pub open spec fn movements_of(ms: Seq<MovementView>, pid: int) -> Seq<MovementView>
    decreases ms.len(),
{
    if ms.len() == 0 {
        Seq::empty()
    } else if ms.last().person_id == pid {
        movements_of(ms.drop_last(), pid).push(ms.last())
    } else {
        movements_of(ms.drop_last(), pid)
    }
}

pub open spec fn balance_from(bs: Seq<BalanceView>, pid: int, i: int) -> Option<BalanceView>
    decreases bs.len() - i,
{
    if i < 0 || i >= bs.len() {
        None
    } else if bs[i].person_id == pid {
        Some(bs[i])
    } else {
        balance_from(bs, pid, i + 1)
    }
}

/// The balance row of `pid`, if one exists.
pub open spec fn spec_balance_of(bs: Seq<BalanceView>, pid: int) -> Option<BalanceView> {
    balance_from(bs, pid, 0)
}

pub open spec fn person_from(ps: Seq<PersonView>, email: Seq<char>, i: int) -> Option<PersonView>
    decreases ps.len() - i,
{
    if i < 0 || i >= ps.len() {
        None
    } else if ps[i].email == email {
        Some(ps[i])
    } else {
        person_from(ps, email, i + 1)
    }
}

/// The first person with the given email, if any.
pub open spec fn spec_person_by_email(ps: Seq<PersonView>, email: Seq<char>) -> Option<PersonView> {
    person_from(ps, email, 0)
}

pub open spec fn user_from(us: Seq<UserView>, name: Seq<char>, i: int) -> Option<UserView>
    decreases us.len() - i,
{
    if i < 0 || i >= us.len() {
        None
    } else if us[i].username == name {
        Some(us[i])
    } else {
        user_from(us, name, i + 1)
    }
}

/// The first user with the given username, if any.
pub open spec fn spec_user_by_name(us: Seq<UserView>, name: Seq<char>) -> Option<UserView> {
    user_from(us, name, 0)
}

/// A found balance row is a row of the sequence.
pub proof fn lemma_balance_from_mem(bs: Seq<BalanceView>, pid: int, i: int)
    requires
        balance_from(bs, pid, i) is Some,
    ensures
        exists|j: int|
            i <= j < bs.len() && bs[j] == balance_from(bs, pid, i).unwrap() && bs[j].person_id
                == pid,
    decreases bs.len() - i,
{
    if 0 <= i < bs.len() {
        if bs[i].person_id == pid {
            assert(i <= i < bs.len() && bs[i] == balance_from(bs, pid, i).unwrap());
        } else {
            lemma_balance_from_mem(bs, pid, i + 1);
        }
    }
}

/// A found user is a user of the sequence.
pub proof fn lemma_user_from_mem(us: Seq<UserView>, name: Seq<char>, i: int)
    requires
        user_from(us, name, i) is Some,
    ensures
        exists|j: int|
            i <= j < us.len() && us[j] == user_from(us, name, i).unwrap() && us[j].username
                == name,
    decreases us.len() - i,
{
    if 0 <= i < us.len() {
        if us[i].username == name {
            assert(i <= i < us.len() && us[i] == user_from(us, name, i).unwrap());
        } else {
            lemma_user_from_mem(us, name, i + 1);
        }
    }
}

impl LedgerView {
    /// Record ids are their positions, so ids are stable and never reused.
    pub open spec fn ids_ok(self) -> bool {
        &&& forall|i: int| 0 <= i < self.persons.len() ==> (#[trigger] self.persons[i]).id == i
        &&& forall|i: int|
            0 <= i < self.movements.len() ==> (#[trigger] self.movements[i]).id == i
        &&& forall|i: int| 0 <= i < self.balances.len() ==> (#[trigger] self.balances[i]).id == i
        &&& forall|i: int| 0 <= i < self.users.len() ==> (#[trigger] self.users[i]).id == i
    }

    /// Foreign keys point at existing persons.
    pub open spec fn refs_ok(self) -> bool {
        &&& forall|i: int|
            0 <= i < self.movements.len() ==> 0 <= (#[trigger] self.movements[i]).person_id
                < self.persons.len()
        &&& forall|i: int|
            0 <= i < self.balances.len() ==> 0 <= (#[trigger] self.balances[i]).person_id
                < self.persons.len()
        &&& forall|i: int|
            0 <= i < self.users.len() ==> 0 <= (#[trigger] self.users[i]).person_id
                < self.persons.len()
    }

    /// Emails are unique; a person has at most one balance row and one user.
    pub open spec fn unique_ok(self) -> bool {
        &&& forall|i: int, j: int|
            0 <= i < j < self.persons.len() ==> (#[trigger] self.persons[i]).email
                != (#[trigger] self.persons[j]).email
        &&& forall|i: int, j: int|
            0 <= i < j < self.balances.len() ==> (#[trigger] self.balances[i]).person_id
                != (#[trigger] self.balances[j]).person_id
        &&& forall|i: int, j: int|
            0 <= i < j < self.users.len() ==> (#[trigger] self.users[i]).person_id
                != (#[trigger] self.users[j]).person_id
    }

    /// Every cached balance equals the sum of its person's movements, and
    /// all stored values are machine integers.
    pub open spec fn balances_ok(self) -> bool {
        &&& forall|i: int|
            0 <= i < self.balances.len() ==> (#[trigger] self.balances[i]).value == sum_values(
                self.movements,
                self.balances[i].person_id,
            )
        &&& forall|i: int|
            0 <= i < self.balances.len() ==> i64::MIN <= (#[trigger] self.balances[i]).value
                <= i64::MAX
        &&& forall|i: int|
            0 <= i < self.movements.len() ==> i64::MIN <= (#[trigger] self.movements[i]).value
                <= i64::MAX
    }

    /// Movement timestamps never decrease along the log and never pass the
    /// clock.
    pub open spec fn dates_ok(self) -> bool {
        &&& forall|i: int, j: int|
            0 <= i < j < self.movements.len() ==> (#[trigger] self.movements[i]).date
                <= (#[trigger] self.movements[j]).date
        &&& forall|i: int|
            0 <= i < self.movements.len() ==> 0 <= (#[trigger] self.movements[i]).date
                <= self.clock
        &&& 0 <= self.clock <= u64::MAX
    }

    /// Well-formedness of the whole store.
    pub open spec fn wf(self) -> bool {
        &&& self.ids_ok()
        &&& self.refs_ok()
        &&& self.unique_ok()
        &&& self.balances_ok()
        &&& self.dates_ok()
    }
}

/// The timestamp a new movement receives: the given time, pushed up to the
/// clock so stamps never decrease.
pub open spec fn stamp_of(l: LedgerView, now: u64) -> int {
    if now as int >= l.clock {
        now as int
    } else {
        l.clock
    }
}

/// The actor recorded for a movement: the given one, or the system sentinel.
pub open spec fn actor_or_system(actor: Option<String>) -> Seq<char> {
    match actor {
        Some(a) => a@,
        None => "system"@,
    }
}

/// Does the guard reject a movement of `delta` against `pid`? It compares
/// the pre-movement cached balance, and is skipped when no row exists yet.
pub open spec fn guard_rejects(l: LedgerView, pid: int, delta: int) -> bool {
    match spec_balance_of(l.balances, pid) {
        Some(b) => b.value + delta < 0,
        None => false,
    }
}

/// The total a movement of `delta` would leave for `pid`: the fold of the
/// whole movement history plus the new delta.
pub open spec fn new_total(l: LedgerView, pid: int, delta: int) -> int {
    sum_values(l.movements, pid) + delta
}

/// Does the new total fit a stored balance value?
pub open spec fn total_fits(l: LedgerView, pid: int, delta: int) -> bool {
    i64::MIN <= new_total(l, pid, delta) <= i64::MAX
}

/// Appending a movement changes exactly its owner's sum, by its value.
pub proof fn lemma_sum_push(ms: Seq<MovementView>, m: MovementView, pid: int)
    ensures
        sum_values(ms.push(m), pid) == sum_values(ms, pid) + if m.person_id == pid {
            m.value
        } else {
            0
        },
{
    assert(ms.push(m).drop_last() =~= ms);
}

/// A sum over machine-integer values is bounded by the length of the log.
pub proof fn lemma_sum_bound(ms: Seq<MovementView>, pid: int)
    requires
        forall|i: int| 0 <= i < ms.len() ==> i64::MIN <= (#[trigger] ms[i]).value <= i64::MAX,
    ensures
        -(ms.len() as int) * 0x8000_0000_0000_0000 <= sum_values(ms, pid) <= (ms.len() as int)
            * 0x8000_0000_0000_0000,
    decreases ms.len(),
{
    if ms.len() > 0 {
        assert(forall|i: int|
            0 <= i < ms.drop_last().len() ==> i64::MIN <= (#[trigger] ms.drop_last()[i]).value
                <= i64::MAX);
        lemma_sum_bound(ms.drop_last(), pid);
    }
}

/// No row for `pid` from `i` on means no row of the sequence has `pid`.
pub proof fn lemma_balance_from_none(bs: Seq<BalanceView>, pid: int, i: int)
    requires
        0 <= i,
        balance_from(bs, pid, i) is None,
    ensures
        forall|k: int| i <= k < bs.len() ==> (#[trigger] bs[k]).person_id != pid,
    decreases bs.len() - i,
{
    if i < bs.len() {
        assert(bs[i].person_id != pid);
        lemma_balance_from_none(bs, pid, i + 1);
    }
}

/// Appending a row for another person leaves a lookup unchanged.
pub proof fn lemma_balance_from_push_other(bs: Seq<BalanceView>, b: BalanceView, q: int, i: int)
    requires
        q != b.person_id,
    ensures
        balance_from(bs.push(b), q, i) == balance_from(bs, q, i),
    decreases bs.len() + 1 - i,
{
    if i <= bs.len() {
        lemma_balance_from_push_other(bs, b, q, i + 1);
    }
}

/// Appending the first row for a person makes the lookup find it.
pub proof fn lemma_balance_from_push_new(bs: Seq<BalanceView>, b: BalanceView, i: int)
    requires
        0 <= i <= bs.len(),
        balance_from(bs, b.person_id, i) is None,
    ensures
        balance_from(bs.push(b), b.person_id, i) == Some(b),
    decreases bs.len() - i,
{
    if i < bs.len() {
        lemma_balance_from_push_new(bs, b, i + 1);
    }
}

/// Updating the row of a person makes the lookup find the new row, when no
/// earlier row matches.
pub proof fn lemma_balance_from_update_same(bs: Seq<BalanceView>, j: int, b: BalanceView, i: int)
    requires
        0 <= j < bs.len(),
        b.person_id == bs[j].person_id,
        0 <= i <= j,
        forall|k: int| i <= k < j ==> (#[trigger] bs[k]).person_id != bs[j].person_id,
    ensures
        balance_from(bs.update(j, b), b.person_id, i) == Some(b),
    decreases j - i,
{
    if i < j {
        lemma_balance_from_update_same(bs, j, b, i + 1);
    }
}

/// Updating a row without changing its owner leaves other lookups unchanged.
pub proof fn lemma_balance_from_update_other(bs: Seq<BalanceView>, j: int, b: BalanceView, q: int, i: int)
    requires
        0 <= j < bs.len(),
        bs[j].person_id == b.person_id,
        q != b.person_id,
    ensures
        balance_from(bs.update(j, b), q, i) == balance_from(bs, q, i),
    decreases bs.len() - i,
{
    if 0 <= i < bs.len() {
        lemma_balance_from_update_other(bs, j, b, q, i + 1);
    }
}

/// A person with no movement in the log has sum zero.
pub proof fn lemma_sum_absent(ms: Seq<MovementView>, pid: int)
    requires
        forall|i: int| 0 <= i < ms.len() ==> (#[trigger] ms[i]).person_id != pid,
    ensures
        sum_values(ms, pid) == 0,
    decreases ms.len(),
{
    if ms.len() > 0 {
        assert(forall|i: int|
            0 <= i < ms.drop_last().len() ==> (#[trigger] ms.drop_last()[i]).person_id != pid);
        lemma_sum_absent(ms.drop_last(), pid);
    }
}

/// A person owning no row is not found.
pub proof fn lemma_balance_from_absent(bs: Seq<BalanceView>, pid: int, i: int)
    requires
        0 <= i,
        forall|k: int| i <= k < bs.len() ==> (#[trigger] bs[k]).person_id != pid,
    ensures
        balance_from(bs, pid, i) is None,
    decreases bs.len() - i,
{
    if i < bs.len() {
        lemma_balance_from_absent(bs, pid, i + 1);
    }
}

/// An email found nowhere from `i` on is owned by no person from `i` on.
pub proof fn lemma_person_from_none(ps: Seq<PersonView>, email: Seq<char>, i: int)
    requires
        0 <= i,
        person_from(ps, email, i) is None,
    ensures
        forall|k: int| i <= k < ps.len() ==> (#[trigger] ps[k]).email != email,
    decreases ps.len() - i,
{
    if i < ps.len() {
        assert(ps[i].email != email);
        lemma_person_from_none(ps, email, i + 1);
    }
}

/// Appending a person with a fresh email makes the lookup find it.
pub proof fn lemma_person_from_push_new(ps: Seq<PersonView>, p: PersonView, i: int)
    requires
        0 <= i <= ps.len(),
        person_from(ps, p.email, i) is None,
    ensures
        person_from(ps.push(p), p.email, i) == Some(p),
    decreases ps.len() - i,
{
    if i < ps.len() {
        lemma_person_from_push_new(ps, p, i + 1);
    }
}

/// Updating the person that owns an email makes the lookup find the new
/// record, when no earlier record matches.
pub proof fn lemma_person_from_update_same(ps: Seq<PersonView>, j: int, p: PersonView, i: int)
    requires
        0 <= j < ps.len(),
        p.email == ps[j].email,
        0 <= i <= j,
        forall|k: int| i <= k < j ==> (#[trigger] ps[k]).email != ps[j].email,
    ensures
        person_from(ps.update(j, p), p.email, i) == Some(p),
    decreases j - i,
{
    if i < j {
        lemma_person_from_update_same(ps, j, p, i + 1);
    }
}

/// Is a department the management department? Compared with ASCII case
/// folded on both sides.
pub open spec fn is_management(dept: Seq<char>) -> bool {
    crate::model::lower_seq(dept) == crate::model::lower_seq("management"@)
}

/// The initial points granted at person creation: managers start lower.
pub open spec fn init_points(role: Seq<char>) -> int {
    if role == "Manager"@ {
        100
    } else {
        500
    }
}

/// What one upsert does to the store.
///
/// A malformed email is rejected before any mutation. An existing email has
/// its person's name, role, department and currency replaced in place, and
/// nothing else moves: no user, movement or balance row is touched. A new
/// email appends a person, provisions its user (slugged username, fresh
/// eight-character password, superuser exactly for the management
/// department) and records the initial points as one system movement with a
/// fresh balance row.
pub open spec fn add_person_post(
    pre: LedgerView,
    post: LedgerView,
    rec: crate::model::PersonInView,
    now: u64,
    res: Result<(Person, bool), LedgerError>,
) -> bool {
    if !crate::email::is_valid_email(rec.email) {
        res == Err::<(Person, bool), LedgerError>(LedgerError::Validation) && post == pre
    } else {
        match res {
            Ok((p, created)) => {
                match spec_person_by_email(pre.persons, rec.email) {
                    Some(existing) => {
                        &&& !created
                        &&& p@.id == existing.id
                        &&& p@.email == existing.email
                        &&& p@.name == rec.name
                        &&& p@.role == rec.role
                        &&& p@.currency == rec.currency
                        &&& p@.dept == rec.dept
                        &&& post.persons == pre.persons.update(existing.id, p@)
                        &&& post.movements == pre.movements
                        &&& post.balances == pre.balances
                        &&& post.users == pre.users
                        &&& post.clock == pre.clock
                    },
                    None => {
                        &&& created
                        &&& p@.id == pre.persons.len()
                        &&& p@.email == rec.email
                        &&& p@.name == rec.name
                        &&& p@.role == rec.role
                        &&& p@.currency == rec.currency
                        &&& p@.dept == rec.dept
                        &&& post.persons == pre.persons.push(p@)
                        &&& post.users.len() == pre.users.len() + 1
                        &&& post.users.subrange(0, pre.users.len() as int) == pre.users
                        &&& post.users.last().id == pre.users.len()
                        &&& post.users.last().person_id == p@.id
                        &&& post.users.last().username == crate::credentials::slug_of(rec.name)
                        &&& post.users.last().superuser == is_management(rec.dept)
                        &&& post.users.last().password.len() == 8
                        &&& post.movements.len() == pre.movements.len() + 1
                        &&& post.movements.subrange(0, pre.movements.len() as int)
                            == pre.movements
                        &&& post.movements.last() == (MovementView {
                            id: pre.movements.len() as int,
                            person_id: p@.id,
                            value: init_points(rec.role),
                            actor: "system"@,
                            date: stamp_of(pre, now),
                        })
                        &&& post.balances == pre.balances.push(
                            BalanceView {
                                id: pre.balances.len() as int,
                                person_id: p@.id,
                                value: init_points(rec.role),
                            },
                        )
                        &&& post.clock == stamp_of(pre, now)
                    },
                }
            },
            Err(_) => false,
        }
    }
}

/// What one movement does to the store.
///
/// On success: exactly one movement is appended with the stamped time, the
/// owner's balance row is updated in place or created, every other row and
/// table is untouched, and the returned row carries the full recomputed
/// total. The guard failure and the machine-range failure leave the store
/// exactly as it was.
pub open spec fn add_movement_post(
    pre: LedgerView,
    post: LedgerView,
    pid: int,
    delta: int,
    actor: Seq<char>,
    now: u64,
    res: Result<Balance, LedgerError>,
) -> bool {
    if guard_rejects(pre, pid, delta) {
        res == Err::<Balance, LedgerError>(LedgerError::InsufficientBalance) && post == pre
    } else if !total_fits(pre, pid, delta) {
        res == Err::<Balance, LedgerError>(LedgerError::Overflow) && post == pre
    } else {
        match res {
            Ok(b) => {
                &&& b@.person_id == pid
                &&& b@.value == new_total(pre, pid, delta)
                &&& spec_balance_of(post.balances, pid) == Some(b@)
                &&& post.persons == pre.persons
                &&& post.users == pre.users
                &&& post.clock == stamp_of(pre, now)
                &&& post.movements.len() == pre.movements.len() + 1
                &&& post.movements.subrange(0, pre.movements.len() as int) == pre.movements
                &&& post.movements.last() == (MovementView {
                    id: pre.movements.len() as int,
                    person_id: pid,
                    value: delta,
                    actor: actor,
                    date: stamp_of(pre, now),
                })
                &&& match spec_balance_of(pre.balances, pid) {
                    Some(old_row) => {
                        &&& b@.id == old_row.id
                        &&& post.balances == pre.balances.update(old_row.id, b@)
                    },
                    None => {
                        &&& b@.id == pre.balances.len()
                        &&& post.balances == pre.balances.push(b@)
                    },
                }
                &&& forall|q: int|
                    q != pid ==> #[trigger] spec_balance_of(post.balances, q) == spec_balance_of(
                        pre.balances,
                        q,
                    )
            },
            Err(_) => false,
        }
    }
}

impl Ledger {
    /// An empty store.
    pub fn new() -> (l: Ledger)
        ensures
            l@.wf(),
            l@.persons.len() == 0,
            l@.movements.len() == 0,
            l@.balances.len() == 0,
            l@.users.len() == 0,
            l@.clock == 0,
    {
        Ledger {
            persons: Vec::new(),
            movements: Vec::new(),
            balances: Vec::new(),
            users: Vec::new(),
            clock: 0,
        }
    }

    /// Index of the balance row of `person_id`, if one exists.
    pub(crate) fn find_balance_index(&self, person_id: usize) -> (r: Option<usize>)
        ensures
            match r {
                Some(i) => i < self.balances.len() && spec_balance_of(
                    self@.balances,
                    person_id as int,
                ) == Some(self@.balances[i as int]) && self@.balances[i as int].person_id
                    == person_id as int && forall|k: int|
                    0 <= k < i ==> (#[trigger] self@.balances[k]).person_id != person_id as int,
                None => spec_balance_of(self@.balances, person_id as int) is None,
            },
    {
        let n = self.balances.len();
        let mut i: usize = 0;
        while i < n
            invariant
                n == self.balances.len(),
                i <= n,
                balance_from(self@.balances, person_id as int, 0) == balance_from(
                    self@.balances,
                    person_id as int,
                    i as int,
                ),
                forall|k: int|
                    0 <= k < i ==> (#[trigger] self@.balances[k]).person_id != person_id as int,
            decreases n - i,
        {
            if self.balances[i].person_id == person_id {
                return Some(i);
            }
            i = i + 1;
        }
        None
    }

    /// Index of the first person with the given email, if any.
    pub(crate) fn find_person_index(&self, email: &String) -> (r: Option<usize>)
        ensures
            match r {
                Some(i) => i < self.persons.len() && spec_person_by_email(self@.persons, email@)
                    == Some(self@.persons[i as int]) && self@.persons[i as int].email == email@,
                None => spec_person_by_email(self@.persons, email@) is None,
            },
    {
        let n = self.persons.len();
        let mut i: usize = 0;
        while i < n
            invariant
                n == self.persons.len(),
                i <= n,
                person_from(self@.persons, email@, 0) == person_from(
                    self@.persons,
                    email@,
                    i as int,
                ),
            decreases n - i,
        {
            if self.persons[i].email.eq(email) {
                return Some(i);
            }
            i = i + 1;
        }
        None
    }

    /// The person with the given id; fails with `NotFound` if absent.
    pub fn query_person_by_id(&self, person_id: usize) -> (r: Result<Person, LedgerError>)
        ensures
            person_id < self@.persons.len() ==> (r matches Ok(p) && p@
                == self@.persons[person_id as int]),
            person_id >= self@.persons.len() ==> r == Err::<Person, LedgerError>(
                LedgerError::NotFound,
            ),
    {
        if person_id < self.persons.len() {
            Ok(self.persons[person_id].duplicate())
        } else {
            Err(LedgerError::NotFound)
        }
    }

    /// The first user with the given username, if any.
    pub fn user_exists(&self, search_username: &String) -> (r: Option<User>)
        ensures
            match r {
                Some(u) => spec_user_by_name(self@.users, search_username@) == Some(u@),
                None => spec_user_by_name(self@.users, search_username@) is None,
            },
    {
        let n = self.users.len();
        let mut i: usize = 0;
        while i < n
            invariant
                n == self.users.len(),
                i <= n,
                user_from(self@.users, search_username@, 0) == user_from(
                    self@.users,
                    search_username@,
                    i as int,
                ),
            decreases n - i,
        {
            if self.users[i].username.eq(search_username) {
                return Some(self.users[i].duplicate());
            }
            i = i + 1;
        }
        None
    }

    /// The balance row of a person; fails with `NotFound` when the person
    /// has no row yet.
    pub fn query_balance_by_person(&self, person: &Person) -> (r: Result<Balance, LedgerError>)
        ensures
            match spec_balance_of(self@.balances, person@.id) {
                Some(b) => r matches Ok(rb) && rb@ == b,
                None => r == Err::<Balance, LedgerError>(LedgerError::NotFound),
            },
    {
        match self.find_balance_index(person.id) {
            Some(i) => Ok(self.balances[i]),
            None => Err(LedgerError::NotFound),
        }
    }

    /// The movements of a person, oldest first.
    pub fn list_movements(&self, person: &Person) -> (r: Vec<Movement>)
        ensures
            view_seq(r@) =~= movements_of(self@.movements, person@.id),
    {
        let n = self.movements.len();
        let mut r: Vec<Movement> = Vec::new();
        let mut i: usize = 0;
        while i < n
            invariant
                n == self.movements.len(),
                i <= n,
                view_seq(r@) =~= movements_of(self@.movements.subrange(0, i as int), person@.id),
            decreases n - i,
        {
            proof {
                assert(self@.movements.subrange(0, i as int + 1).drop_last()
                    =~= self@.movements.subrange(0, i as int));
            }
            if self.movements[i].person_id == person.id {
                r.push(self.movements[i].duplicate());
            }
            i = i + 1;
            proof {
                assert(view_seq(r@) =~= movements_of(
                    self@.movements.subrange(0, i as int),
                    person@.id,
                ));
            }
        }
        proof {
            assert(self@.movements.subrange(0, n as int) =~= self@.movements);
        }
        r
    }

    /// Fold the whole movement log for one person. Wide intermediate
    /// arithmetic keeps every partial sum representable.
    fn sum_movements(&self, person_id: usize) -> (total: i128)
        ensures
            total as int == sum_values(self@.movements, person_id as int),
    {
        let n = self.movements.len();
        let mut total: i128 = 0;
        let mut i: usize = 0;
        while i < n
            invariant
                n == self.movements.len(),
                i <= n,
                total as int == sum_values(
                    self@.movements.subrange(0, i as int),
                    person_id as int,
                ),
                -(i as int) * 0x8000_0000_0000_0000 <= total as int <= (i as int)
                    * 0x8000_0000_0000_0000,
            decreases n - i,
        {
            proof {
                assert(self@.movements.subrange(0, i as int + 1).drop_last()
                    =~= self@.movements.subrange(0, i as int));
                assert(self@.movements[i as int].value == self.movements@[i as int].value as int);
            }
            if self.movements[i].person_id == person_id {
                total = total + self.movements[i].value as i128;
            }
            i = i + 1;
        }
        proof {
            assert(self@.movements.subrange(0, n as int) =~= self@.movements);
        }
        total
    }

    /// Append one movement for a person and refresh the cached balance.
    ///
    /// The guard compares the pre-movement cached balance against the delta
    /// and fails with `InsufficientBalance` without touching anything; a
    /// person without a balance row is exempt from the guard. On success the
    /// balance is recomputed by folding the whole history, never by
    /// incrementing the cache.
    pub fn add_movement(
        &mut self,
        person: &Person,
        value: i64,
        actor: Option<String>,
        now: u64,
    ) -> (res: Result<Balance, LedgerError>)
        requires
            old(self)@.wf(),
            0 <= person@.id < old(self)@.persons.len(),
        ensures
            final(self)@.wf(),
            add_movement_post(
                old(self)@,
                final(self)@,
                person@.id,
                value as int,
                actor_or_system(actor),
                now,
                res,
            ),
    {
        let ghost pre = self@;
        let pid = person.id;
        let found = self.find_balance_index(pid);
        if let Some(bi) = found {
            let b = self.balances[bi];
            if (b.value as i128) + (value as i128) < 0 {
                return Err(LedgerError::InsufficientBalance);
            }
        }
        let log_len = self.movements.len();
        let base = self.sum_movements(pid);
        proof {
            assert(self@.movements.len() == self.movements@.len());
            assert(self.movements@.len() == log_len as int);
            assert forall|k: int|
                0 <= k < self@.movements.len() implies i64::MIN <= (
            #[trigger] self@.movements[k]).value <= i64::MAX by {
                assert(self@.movements[k].value == self.movements@[k].value as int);
            }
            lemma_sum_bound(self@.movements, pid as int);
        }
        let tot = base + value as i128;
        if tot < i64::MIN as i128 || tot > i64::MAX as i128 {
            return Err(LedgerError::Overflow);
        }
        let stamp = if now >= self.clock {
            now
        } else {
            self.clock
        };
        let actor_str = match actor {
            Some(a) => a,
            None => "system".to_owned(),
        };
        let m = Movement {
            id: self.movements.len(),
            person_id: pid,
            value: value,
            actor: actor_str,
            date: stamp,
        };
        self.movements.push(m);
        self.clock = stamp;
        proof {
            assert(self@.movements =~= pre.movements.push(
                MovementView {
                    id: pre.movements.len() as int,
                    person_id: pid as int,
                    value: value as int,
                    actor: actor_or_system(actor),
                    date: stamp_of(pre, now),
                },
            ));
            assert(self@.persons =~= pre.persons);
            assert(self@.balances =~= pre.balances);
            assert(self@.users =~= pre.users);
            assert(self@.movements.subrange(0, pre.movements.len() as int) =~= pre.movements);
            lemma_sum_push(pre.movements, self@.movements.last(), pid as int);
            assert forall|q: int| q != pid as int implies sum_values(self@.movements, q)
                == sum_values(pre.movements, q) by {
                lemma_sum_push(pre.movements, self@.movements.last(), q);
            }
        }
        let ghost mid = self@;
        match found {
            Some(bi) => {
                let old_row = self.balances[bi];
                let newb = Balance { id: old_row.id, person_id: pid, value: tot as i64 };
                self.balances.set(bi, newb);
                proof {
                    assert(self@.balances =~= mid.balances.update(bi as int, newb@));
                    assert(pre.balances[bi as int].id == bi as int);
                    lemma_balance_from_update_same(pre.balances, bi as int, newb@, 0);
                    assert forall|q: int| q != pid as int implies #[trigger] spec_balance_of(
                        self@.balances,
                        q,
                    ) == spec_balance_of(pre.balances, q) by {
                        lemma_balance_from_update_other(pre.balances, bi as int, newb@, q, 0);
                    }
                    assert forall|r: int| 0 <= r < self@.balances.len() implies (
                    #[trigger] self@.balances[r]).value == sum_values(
                        self@.movements,
                        self@.balances[r].person_id,
                    ) by {
                        if r != bi as int {
                            assert(self@.balances[r] == pre.balances[r]);
                            assert(pre.balances[r].person_id != pid as int);
                        }
                    }
                }
                Ok(newb)
            },
            None => {
                let newb = Balance { id: self.balances.len(), person_id: pid, value: tot as i64 };
                self.balances.push(newb);
                proof {
                    assert(self@.balances =~= mid.balances.push(newb@));
                    lemma_balance_from_none(pre.balances, pid as int, 0);
                    lemma_balance_from_push_new(pre.balances, newb@, 0);
                    assert forall|q: int| q != pid as int implies #[trigger] spec_balance_of(
                        self@.balances,
                        q,
                    ) == spec_balance_of(pre.balances, q) by {
                        lemma_balance_from_push_other(pre.balances, newb@, q, 0);
                    }
                    assert forall|r: int| 0 <= r < self@.balances.len() implies (
                    #[trigger] self@.balances[r]).value == sum_values(
                        self@.movements,
                        self@.balances[r].person_id,
                    ) by {
                        if r < pre.balances.len() {
                            assert(self@.balances[r] == pre.balances[r]);
                            assert(pre.balances[r].person_id != pid as int);
                        }
                    }
                }
                Ok(newb)
            },
        }
    }

    /// Upsert a person record keyed by email.
    ///
    /// The email is validated first and a malformed one is rejected before
    /// any mutation. An existing person is updated in place; a new person
    /// is appended and provisioned with a user and the initial points.
    pub fn add_person(&mut self, new_person: &PersonIn, now: u64) -> (res: Result<
        (Person, bool),
        LedgerError,
    >)
        requires
            old(self)@.wf(),
        ensures
            final(self)@.wf(),
            add_person_post(old(self)@, final(self)@, new_person@, now, res),
    {
        let ghost pre = self@;
        if let Err(e) = crate::email::email_validator(&new_person.email) {
            return Err(e);
        }
        match self.find_person_index(&new_person.email) {
            Some(j) => {
                let updated = Person {
                    id: j,
                    email: self.persons[j].email.clone(),
                    name: new_person.name.clone(),
                    role: new_person.role.clone(),
                    currency: new_person.currency.clone(),
                    dept: new_person.dept.clone(),
                };
                self.persons.set(j, updated.duplicate());
                proof {
                    assert(self@.persons =~= pre.persons.update(j as int, updated@));
                    assert(self@.movements =~= pre.movements);
                    assert(self@.balances =~= pre.balances);
                    assert(self@.users =~= pre.users);
                    assert forall|x: int, y: int|
                        0 <= x < y < self@.persons.len() implies (
                    #[trigger] self@.persons[x]).email != (#[trigger] self@.persons[y]).email by {
                        assert(pre.persons[x].email != pre.persons[y].email);
                    }
                }
                Ok((updated, false))
            },
            None => {
                let id = self.persons.len();
                let p = Person {
                    id: id,
                    email: new_person.email.clone(),
                    name: new_person.name.clone(),
                    role: new_person.role.clone(),
                    currency: new_person.currency.clone(),
                    dept: new_person.dept.clone(),
                };
                self.persons.push(p.duplicate());
                proof {
                    assert(self@.persons =~= pre.persons.push(p@));
                    lemma_person_from_none(pre.persons, new_person@.email, 0);
                    assert forall|x: int, y: int|
                        0 <= x < y < self@.persons.len() implies (
                    #[trigger] self@.persons[x]).email != (#[trigger] self@.persons[y]).email by {
                        if y < pre.persons.len() {
                            assert(pre.persons[x].email != pre.persons[y].email);
                        } else {
                            assert(pre.persons[x].email != new_person@.email);
                        }
                    }
                }
                let uname = crate::credentials::slugify_name(new_person.name.as_str());
                let pwd = crate::credentials::generate_simple_password(8);
                let is_super = crate::model::eq_ignore_case(new_person.dept.as_str(), "management");
                let u = User {
                    id: self.users.len(),
                    person_id: id,
                    username: uname,
                    password: pwd,
                    superuser: is_super,
                };
                let ghost uv = u@;
                self.users.push(u);
                let ghost mid = self@;
                proof {
                    assert(mid.users =~= pre.users.push(uv));
                    assert(mid.movements =~= pre.movements);
                    assert(mid.balances =~= pre.balances);
                    lemma_balance_from_absent(mid.balances, id as int, 0);
                    lemma_sum_absent(mid.movements, id as int);
                    assert(mid.wf());
                }
                let init: i64 = if new_person.role.eq(&"Manager".to_owned()) {
                    100
                } else {
                    500
                };
                let mres = self.add_movement(&p, init, None, now);
                match mres {
                    Ok(_) => {
                        proof {
                            let post = self@;
                            assert(post.users.subrange(0, pre.users.len() as int) =~= pre.users);
                            assert(post.balances =~= pre.balances.push(
                                BalanceView {
                                    id: pre.balances.len() as int,
                                    person_id: p@.id,
                                    value: init_points(new_person@.role),
                                },
                            ));
                        }
                        Ok((p, true))
                    },
                    Err(_) => {
                        proof {
                            assert(false);
                        }
                        vstd::pervasive::unreached()
                    },
                }
            },
        }
    }

    /// Does a person satisfy the selection?
    pub(crate) fn matches_selection(p: &Person, sel: &Selection) -> (r: bool)
        ensures
            r == sel_matches(sel@, p@),
    {
        match sel {
            Selection::All => true,
            Selection::ByEmail(e) => p.email.eq(e),
            Selection::ByDepartment(d) => p.dept.eq(d),
            Selection::ByEmailAndDepartment(e, d) => p.email.eq(e) && p.dept.eq(d),
        }
    }

    /// All persons satisfying the selection, in directory order.
    pub fn query_person(&self, query: &Selection) -> (r: Vec<Person>)
        ensures
            view_seq(r@) =~= select_persons(self@.persons, query@),
    {
        let n = self.persons.len();
        let mut r: Vec<Person> = Vec::new();
        let mut i: usize = 0;
        while i < n
            invariant
                n == self.persons.len(),
                i <= n,
                view_seq(r@) =~= select_persons(self@.persons.subrange(0, i as int), query@),
            decreases n - i,
        {
            proof {
                assert(self@.persons.subrange(0, i as int + 1).drop_last()
                    =~= self@.persons.subrange(0, i as int));
            }
            if Self::matches_selection(&self.persons[i], query) {
                r.push(self.persons[i].duplicate());
            }
            i = i + 1;
            proof {
                assert(view_seq(r@) =~= select_persons(
                    self@.persons.subrange(0, i as int),
                    query@,
                ));
            }
        }
        proof {
            assert(self@.persons.subrange(0, n as int) =~= self@.persons);
        }
        r
    }

    /// Is one of the strings equal to `s`?
    fn contains_string(v: &Vec<String>, s: &String) -> (r: bool)
        ensures
            r == view_seq(v@).contains(s@),
    {
        let n = v.len();
        let mut i: usize = 0;
        while i < n
            invariant
                n == v.len(),
                i <= n,
                forall|k: int| 0 <= k < i as int ==> (#[trigger] v@[k])@ != s@,
            decreases n - i,
        {
            if v[i].eq(s) {
                proof {
                    assert(view_seq(v@)[i as int] == s@);
                }
                return true;
            }
            i = i + 1;
        }
        proof {
            assert forall|k: int| 0 <= k < view_seq(v@).len() implies view_seq(v@)[k] != s@ by {
                assert(view_seq(v@)[k] == v@[k]@);
            }
        }
        false
    }

    /// Every currency in use, once each, in order of first appearance in
    /// the directory; deterministic for a fixed directory.
    pub fn get_currencies(&self) -> (r: Vec<String>)
        ensures
            view_seq(r@) == spec_currencies(self@.persons),
    {
        let n = self.persons.len();
        let mut r: Vec<String> = Vec::new();
        let mut i: usize = 0;
        while i < n
            invariant
                n == self.persons.len(),
                i <= n,
                view_seq(r@) =~= spec_currencies(self@.persons.subrange(0, i as int)),
            decreases n - i,
        {
            proof {
                assert(self@.persons.subrange(0, i as int + 1).drop_last()
                    =~= self@.persons.subrange(0, i as int));
            }
            let found = Self::contains_string(&r, &self.persons[i].currency);
            if !found {
                r.push(self.persons[i].currency.clone());
            }
            i = i + 1;
            proof {
                assert(view_seq(r@) =~= spec_currencies(self@.persons.subrange(0, i as int)));
            }
        }
        proof {
            assert(self@.persons.subrange(0, n as int) =~= self@.persons);
        }
        r
    }

    /// The person and user for a username and password. Order of checks: an
    /// unknown username fails with `NotFound`; a missing superuser bit, when
    /// one is required, fails with `AccessDenied` before the password is
    /// compared; a wrong password fails with `UserNotAuthenticated`.
    pub fn authenticate_user(
        &self,
        username: &String,
        password: &String,
        requires_superuser: bool,
    ) -> (r: Result<(Person, User), AuthenticationError>)
        requires
            self@.wf(),
        ensures
            match spec_user_by_name(self@.users, username@) {
                None => r == Err::<(Person, User), AuthenticationError>(
                    AuthenticationError::NotFound,
                ),
                Some(u) => if requires_superuser && !u.superuser {
                    r == Err::<(Person, User), AuthenticationError>(
                        AuthenticationError::AccessDenied,
                    )
                } else if password@ != u.password {
                    r == Err::<(Person, User), AuthenticationError>(
                        AuthenticationError::UserNotAuthenticated,
                    )
                } else {
                    r matches Ok((p, ru)) && ru@ == u && p@ == self@.persons[u.person_id]
                },
            },
    {
        match self.user_exists(username) {
            None => Err(AuthenticationError::NotFound),
            Some(user) => {
                if requires_superuser && !user.superuser {
                    return Err(AuthenticationError::AccessDenied);
                }
                if !crate::credentials::verify_password(password, &user.password) {
                    return Err(AuthenticationError::UserNotAuthenticated);
                }
                proof {
                    lemma_user_from_mem(self@.users, username@, 0);
                    let u = spec_user_by_name(self@.users, username@).unwrap();
                    assert(0 <= u.person_id < self@.persons.len());
                }
                match self.query_person_by_id(user.person_id) {
                    Ok(person) => Ok((person, user)),
                    Err(_) => vstd::pervasive::unreached(),
                }
            },
        }
    }
}

} // verus!
