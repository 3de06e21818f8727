//! Data model of the ledger: persons, movements, balances, users, the
//! selection predicate used to pick persons, and the error taxonomy.
//!
//! Each stored record has a ghost view (`PersonView` and so on) whose string
//! fields are character sequences, so that contracts can speak of contents
//! rather than of heap values.

use vstd::prelude::*;

verus! {

/// An identity record. `id` is the person's stable key; in this store it is
/// the index of the record in the directory, so ids are never reused.
#[derive(Debug)]
pub struct Person {
    pub id: usize,
    pub email: String,
    pub name: String,
    pub role: String,
    pub currency: String,
    pub dept: String,
}

/// Ghost view of a `Person`.
pub ghost struct PersonView {
    pub id: int,
    pub email: Seq<char>,
    pub name: Seq<char>,
    pub role: Seq<char>,
    pub currency: Seq<char>,
    pub dept: Seq<char>,
}

impl View for Person {
    type V = PersonView;

    open spec fn view(&self) -> PersonView {
        PersonView {
            id: self.id as int,
            email: self.email@,
            name: self.name@,
            role: self.role@,
            currency: self.currency@,
            dept: self.dept@,
        }
    }
}

impl Person {
    /// A copy of the record with the same contents.
    pub fn duplicate(&self) -> (r: Person)
        ensures
            r@ == self@,
    {
        Person {
            id: self.id,
            email: self.email.clone(),
            name: self.name.clone(),
            role: self.role.clone(),
            currency: self.currency.clone(),
            dept: self.dept.clone(),
        }
    }
}

/// An input record for an upsert, as produced by a bulk import.
#[derive(Debug)]
pub struct PersonIn {
    pub name: String,
    pub dept: String,
    pub role: String,
    pub email: String,
    pub currency: String,
}

/// Ghost view of a `PersonIn`.
pub ghost struct PersonInView {
    pub name: Seq<char>,
    pub dept: Seq<char>,
    pub role: Seq<char>,
    pub email: Seq<char>,
    pub currency: Seq<char>,
}

impl View for PersonIn {
    type V = PersonInView;

    open spec fn view(&self) -> PersonInView {
        PersonInView {
            name: self.name@,
            dept: self.dept@,
            role: self.role@,
            email: self.email@,
            currency: self.currency@,
        }
    }
}

impl PersonIn {
    /// A copy of the record with the same contents.
    pub fn duplicate(&self) -> (r: PersonIn)
        ensures
            r@ == self@,
    {
        PersonIn {
            name: self.name.clone(),
            dept: self.dept.clone(),
            role: self.role.clone(),
            email: self.email.clone(),
            currency: self.currency.clone(),
        }
    }
}

/// The validated shape a person record takes just before it is stored.
#[derive(Debug)]
pub struct NewPerson {
    pub email: String,
    pub name: String,
    pub role: String,
    pub currency: String,
    pub dept: String,
}

impl PersonIn {
    /// The record in the shape the directory stores.
    pub fn into_new_person(self) -> (r: NewPerson)
        ensures
            r.email@ == self.email@,
            r.name@ == self.name@,
            r.role@ == self.role@,
            r.currency@ == self.currency@,
            r.dept@ == self.dept@,
    {
        NewPerson {
            email: self.email,
            name: self.name,
            role: self.role,
            currency: self.currency,
            dept: self.dept,
        }
    }
}

/// One immutable signed point transaction against a person.
#[derive(Debug)]
pub struct Movement {
    pub id: usize,
    pub person_id: usize,
    pub value: i64,
    pub actor: String,
    pub date: u64,
}

/// Ghost view of a `Movement`.
pub ghost struct MovementView {
    pub id: int,
    pub person_id: int,
    pub value: int,
    pub actor: Seq<char>,
    pub date: int,
}

impl View for Movement {
    type V = MovementView;

    open spec fn view(&self) -> MovementView {
        MovementView {
            id: self.id as int,
            person_id: self.person_id as int,
            value: self.value as int,
            actor: self.actor@,
            date: self.date as int,
        }
    }
}

impl Movement {
    /// A copy of the record with the same contents.
    pub fn duplicate(&self) -> (r: Movement)
        ensures
            r@ == self@,
    {
        Movement {
            id: self.id,
            person_id: self.person_id,
            value: self.value,
            actor: self.actor.clone(),
            date: self.date,
        }
    }
}

/// The cached sum of a person's movements. At most one row per person.
#[derive(Clone, Copy, Debug)]
pub struct Balance {
    pub id: usize,
    pub person_id: usize,
    pub value: i64,
}

/// Ghost view of a `Balance`.
pub ghost struct BalanceView {
    pub id: int,
    pub person_id: int,
    pub value: int,
}

impl View for Balance {
    type V = BalanceView;

    open spec fn view(&self) -> BalanceView {
        BalanceView { id: self.id as int, person_id: self.person_id as int, value: self.value as int }
    }
}

/// An authentication identity, one-to-one with a person.
#[derive(Debug)]
pub struct User {
    pub id: usize,
    pub person_id: usize,
    pub username: String,
    pub password: String,
    pub superuser: bool,
}

/// Ghost view of a `User`.
pub ghost struct UserView {
    pub id: int,
    pub person_id: int,
    pub username: Seq<char>,
    pub password: Seq<char>,
    pub superuser: bool,
}

impl View for User {
    type V = UserView;

    open spec fn view(&self) -> UserView {
        UserView {
            id: self.id as int,
            person_id: self.person_id as int,
            username: self.username@,
            password: self.password@,
            superuser: self.superuser,
        }
    }
}

impl User {
    /// A copy of the record with the same contents.
    pub fn duplicate(&self) -> (r: User)
        ensures
            r@ == self@,
    {
        User {
            id: self.id,
            person_id: self.person_id,
            username: self.username.clone(),
            password: self.password.clone(),
            superuser: self.superuser,
        }
    }
}

/// A display-ready, currency-converted view of a person's current state.
/// `balance` is in whole points; `value` is the converted amount in
/// ten-thousandths of the target currency unit.
#[derive(Debug)]
pub struct PersonOut {
    pub name: String,
    pub dept: String,
    pub role: String,
    pub email: String,
    pub currency: String,
    pub created: bool,
    pub balance: i64,
    pub value: i64,
}

/// Ghost view of a `PersonOut`.
pub ghost struct PersonOutView {
    pub name: Seq<char>,
    pub dept: Seq<char>,
    pub role: Seq<char>,
    pub email: Seq<char>,
    pub currency: Seq<char>,
    pub created: bool,
    pub balance: int,
    pub value: int,
}

impl View for PersonOut {
    type V = PersonOutView;

    open spec fn view(&self) -> PersonOutView {
        PersonOutView {
            name: self.name@,
            dept: self.dept@,
            role: self.role@,
            email: self.email@,
            currency: self.currency@,
            created: self.created,
            balance: self.balance as int,
            value: self.value as int,
        }
    }
}

impl PersonOut {
    /// A copy of the row with the same contents.
    pub fn duplicate(&self) -> (r: PersonOut)
        ensures
            r@ == self@,
    {
        PersonOut {
            name: self.name.clone(),
            dept: self.dept.clone(),
            role: self.role.clone(),
            email: self.email.clone(),
            currency: self.currency.clone(),
            created: self.created,
            balance: self.balance,
            value: self.value,
        }
    }
}

/// A query over persons: a conjunction of zero, one or two constraints
/// drawn from department and email.
#[derive(Debug)]
pub enum Selection {
    All,
    ByEmail(String),
    ByDepartment(String),
    ByEmailAndDepartment(String, String),
}

/// Ghost view of a `Selection`.
pub ghost enum SelView {
    All,
    ByEmail(Seq<char>),
    ByDepartment(Seq<char>),
    ByEmailAndDepartment(Seq<char>, Seq<char>),
}

impl View for Selection {
    type V = SelView;

    open spec fn view(&self) -> SelView {
        match self {
            Selection::All => SelView::All,
            Selection::ByEmail(e) => SelView::ByEmail(e@),
            Selection::ByDepartment(d) => SelView::ByDepartment(d@),
            Selection::ByEmailAndDepartment(e, d) => SelView::ByEmailAndDepartment(e@, d@),
        }
    }
}

/// Errors of the ledger core.
#[derive(PartialEq, Eq, Structural, Clone, Copy, Debug)]
pub enum LedgerError {
    /// Malformed input, e.g. a bad email address; rejected before any mutation.
    Validation,
    /// Unknown person, or a missing balance row where one is needed.
    NotFound,
    /// The guard rejected a movement that would drive a balance negative.
    InsufficientBalance,
    /// No rate is known for a person's currency.
    RateUnavailable,
    /// A balance or report total would not fit the machine integer range.
    Overflow,
}

/// Errors of the authentication check.
#[derive(PartialEq, Eq, Structural, Clone, Copy, Debug)]
pub enum AuthenticationError {
    /// No user with the given username.
    NotFound,
    /// The password did not match.
    UserNotAuthenticated,
    /// A superuser was required and the user is not one.
    AccessDenied,
}

/// Does a person satisfy a selection?
pub open spec fn sel_matches(sel: SelView, p: PersonView) -> bool {
    match sel {
        SelView::All => true,
        SelView::ByEmail(e) => p.email == e,
        SelView::ByDepartment(d) => p.dept == d,
        SelView::ByEmailAndDepartment(e, d) => p.email == e && p.dept == d,
    }
}

/// The persons of `ps` that satisfy `sel`, in order.
pub open spec fn select_persons(ps: Seq<PersonView>, sel: SelView) -> Seq<PersonView>
    decreases ps.len(),
{
    if ps.len() == 0 {
        Seq::empty()
    } else if sel_matches(sel, ps.last()) {
        select_persons(ps.drop_last(), sel).push(ps.last())
    } else {
        select_persons(ps.drop_last(), sel)
    }
}

/// The code point of a character with ASCII letters folded to lower case.
pub open spec fn lower_code(c: char) -> int {
    if 'A' <= c && c <= 'Z' {
        c as u32 + 32
    } else {
        c as u32 as int
    }
}

/// The case-folded code points of a string.
pub open spec fn lower_seq(s: Seq<char>) -> Seq<int> {
    Seq::new(s.len(), |i: int| lower_code(s[i]))
}

fn lower_code_e(c: char) -> (r: u32)
    ensures
        r as int == lower_code(c),
{
    if 'A' <= c && c <= 'Z' {
        (c as u32) + 32
    } else {
        c as u32
    }
}

/// Case-insensitive string comparison, folding ASCII letters only.
pub fn eq_ignore_case(a: &str, b: &str) -> (r: bool)
    ensures
        r == (lower_seq(a@) == lower_seq(b@)),
{
    let na = a.unicode_len();
    let nb = b.unicode_len();
    if na != nb {
        proof {
            assert(lower_seq(a@).len() != lower_seq(b@).len());
        }
        return false;
    }
    let mut i: usize = 0;
    while i < na
        invariant
            na == a@.len(),
            nb == b@.len(),
            na == nb,
            i <= na,
            forall|k: int| 0 <= k < i ==> #[trigger] lower_code(a@[k]) == lower_code(b@[k]),
        decreases na - i,
    {
        let ca = lower_code_e(a.get_char(i));
        let cb = lower_code_e(b.get_char(i));
        if ca != cb {
            proof {
                assert(lower_seq(a@)[i as int] != lower_seq(b@)[i as int]);
            }
            return false;
        }
        i = i + 1;
    }
    proof {
        assert(lower_seq(a@) =~= lower_seq(b@));
    }
    true
}

/// Combine optional department and email constraints into a selection.
pub fn join_filters(dept: &Option<String>, email: &Option<String>) -> (sel: Selection)
    ensures
        sel@ == (match (dept, email) {
            (None, None) => SelView::All,
            (None, Some(e)) => SelView::ByEmail(e@),
            (Some(d), None) => SelView::ByDepartment(d@),
            (Some(d), Some(e)) => SelView::ByEmailAndDepartment(e@, d@),
        }),
{
    match (dept, email) {
        (None, None) => Selection::All,
        (None, Some(e)) => Selection::ByEmail(e.clone()),
        (Some(d), None) => Selection::ByDepartment(d.clone()),
        (Some(d), Some(e)) => Selection::ByEmailAndDepartment(e.clone(), d.clone()),
    }
}

} // verus!
