//! The laws of the ledger, stated and proved once over the contracts of
//! the store's operations.

use vstd::prelude::*;

use crate::ledger::{
    LedgerView, add_movement_post, add_person_post, lemma_balance_from_mem,
    lemma_person_from_none, lemma_person_from_push_new, lemma_person_from_update_same,
    spec_balance_of, spec_person_by_email, sum_values,
};
use crate::model::{Balance, LedgerError, Person, PersonInView};

verus! {

/// Law: in a well-formed store, every cached balance equals the sum of its
/// person's movements over the whole log — the cache can never drift from
/// the history, whatever sequence of successful operations built the store.
pub proof fn lemma_balance_is_movement_sum(l: LedgerView, pid: int)
    requires
        l.wf(),
        spec_balance_of(l.balances, pid) is Some,
    ensures
        spec_balance_of(l.balances, pid).unwrap().value == sum_values(l.movements, pid),
{
    lemma_balance_from_mem(l.balances, pid, 0);
}

/// Law: upserting the same fresh email twice, with any two records that
/// share it, reports `created` once and only once, and leaves the second
/// record's name stored.
pub proof fn lemma_upsert_idempotent(
    l0: LedgerView,
    l1: LedgerView,
    l2: LedgerView,
    r1: PersonInView,
    r2: PersonInView,
    p1: Person,
    c1: bool,
    p2: Person,
    c2: bool,
    now1: u64,
    now2: u64,
)
    requires
        l0.wf(),
        spec_person_by_email(l0.persons, r1.email) is None,
        r2.email == r1.email,
        add_person_post(l0, l1, r1, now1, Ok((p1, c1))),
        add_person_post(l1, l2, r2, now2, Ok((p2, c2))),
    ensures
        c1 == true,
        c2 == false,
        p2@.name == r2.name,
        spec_person_by_email(l2.persons, r2.email) is Some,
        spec_person_by_email(l2.persons, r2.email).unwrap().name == r2.name,
{
    lemma_person_from_none(l0.persons, r1.email, 0);
    lemma_person_from_push_new(l0.persons, p1@, 0);
    assert(spec_person_by_email(l1.persons, r2.email) == Some(p1@));
    assert(l2.persons == l1.persons.update(p1@.id, p2@));
    assert(forall|k: int|
        0 <= k < p1@.id ==> (#[trigger] l1.persons[k]).email != l1.persons[p1@.id as int].email);
    lemma_person_from_update_same(l1.persons, p1@.id, p2@, 0);
}

/// Law: a person with no balance row yet is exempt from the guard — a
/// movement of any size, however negative, is never rejected as
/// insufficient.
pub proof fn lemma_first_movement_exempt(
    pre: LedgerView,
    post: LedgerView,
    pid: int,
    delta: int,
    actor: Seq<char>,
    now: u64,
    res: Result<Balance, LedgerError>,
)
    requires
        spec_balance_of(pre.balances, pid) is None,
        add_movement_post(pre, post, pid, delta, actor, now, res),
    ensures
        res != Err::<Balance, LedgerError>(LedgerError::InsufficientBalance),
{
}

} // verus!
