//! The ledger engine: selection-driven bulk movements, the converted
//! report, bulk import, transfers and statements.

use vstd::prelude::*;

use crate::ledger::{
    Ledger, LedgerView, add_movement_post, add_person_post, guard_rejects, lemma_sum_push,
    movements_of, spec_balance_of, stamp_of, sum_values, total_fits, view_seq,
};
use crate::model::{
    Balance, LedgerError, Movement, MovementView, Person, PersonIn, PersonInView, PersonOut,
    PersonOutView, PersonView, SelView, Selection, User, sel_matches, select_persons,
};
use crate::report::{RateTable, RateView, spec_rate_of};

verus! {

/// Selected persons carry valid, strictly increasing ids when the directory
/// ids are the positions.
pub proof fn lemma_select_ids(ps: Seq<PersonView>, sel: SelView)
    requires
        forall|i: int| 0 <= i < ps.len() ==> (#[trigger] ps[i]).id == i,
    ensures
        forall|t: int|
            0 <= t < select_persons(ps, sel).len() ==> 0 <= (#[trigger] select_persons(
                ps,
                sel,
            )[t]).id < ps.len(),
        forall|t: int, u: int|
            0 <= t < u < select_persons(ps, sel).len() ==> (#[trigger] select_persons(
                ps,
                sel,
            )[t]).id < (#[trigger] select_persons(ps, sel)[u]).id,
    decreases ps.len(),
{
    if ps.len() > 0 {
        assert(forall|i: int|
            0 <= i < ps.drop_last().len() ==> (#[trigger] ps.drop_last()[i]).id == i);
        lemma_select_ids(ps.drop_last(), sel);
        let s0 = select_persons(ps.drop_last(), sel);
        let s = select_persons(ps, sel);
        assert(ps.last().id == ps.len() - 1);
        assert forall|t: int| 0 <= t < s.len() implies 0 <= (#[trigger] s[t]).id < ps.len() by {
            if t < s0.len() {
                assert(s[t] == s0[t]);
            } else {
                assert(s[t] == ps.last());
            }
        }
        assert forall|t: int, u: int| 0 <= t < u < s.len() implies (#[trigger] s[t]).id < (
        #[trigger] s[u]).id by {
            if u < s0.len() {
                assert(s[t] == s0[t] && s[u] == s0[u]);
            } else {
                assert(s[u] == ps.last());
                assert(s[t] == s0[t]);
            }
        }
    }
}

/// A person of the directory that satisfies the selection appears in the
/// selected sequence.
pub proof fn lemma_select_has(ps: Seq<PersonView>, sel: SelView, idx: int)
    requires
        0 <= idx < ps.len(),
        sel_matches(sel, ps[idx]),
    ensures
        select_persons(ps, sel).len() > 0,
    decreases ps.len(),
{
    if idx + 1 < ps.len() {
        assert(ps.drop_last()[idx] == ps[idx]);
        lemma_select_has(ps.drop_last(), sel, idx);
    }
}

/// Why a report row for one person cannot be built, if it cannot.
pub open spec fn row_error(l: LedgerView, rs: Seq<RateView>, p: PersonView) -> Option<
    LedgerError,
> {
    match spec_balance_of(l.balances, p.id) {
        None => Some(LedgerError::NotFound),
        Some(b) => match spec_rate_of(rs, p.currency) {
            None => Some(LedgerError::RateUnavailable),
            Some(rate) => if i64::MIN <= b.value * rate <= i64::MAX {
                None
            } else {
                Some(LedgerError::Overflow)
            },
        },
    }
}

pub open spec fn first_row_error(
    l: LedgerView,
    rs: Seq<RateView>,
    ps: Seq<PersonView>,
    i: int,
) -> Option<LedgerError>
    decreases ps.len() - i,
{
    if i < 0 || i >= ps.len() {
        None
    } else if row_error(l, rs, ps[i]) is Some {
        row_error(l, rs, ps[i])
    } else {
        first_row_error(l, rs, ps, i + 1)
    }
}

/// The report row for one person: the cached balance, and the balance
/// converted at the rate of the person's currency.
pub open spec fn report_row(l: LedgerView, rs: Seq<RateView>, p: PersonView) -> PersonOutView {
    PersonOutView {
        name: p.name,
        dept: p.dept,
        role: p.role,
        email: p.email,
        currency: p.currency,
        created: false,
        balance: spec_balance_of(l.balances, p.id).unwrap().value,
        value: spec_balance_of(l.balances, p.id).unwrap().value * spec_rate_of(
            rs,
            p.currency,
        ).unwrap(),
    }
}

/// What a read-path report returns: one converted row per selected person,
/// in directory order; or the first failure, walking the selection in
/// order — a missing balance row, then a missing rate, then a converted
/// value out of machine range.
pub open spec fn search_post(
    l: LedgerView,
    rs: Seq<RateView>,
    sel: SelView,
    res: Result<Vec<PersonOut>, LedgerError>,
) -> bool {
    let ps = select_persons(l.persons, sel);
    match first_row_error(l, rs, ps, 0) {
        Some(e) => res == Err::<Vec<PersonOut>, LedgerError>(e),
        None => match res {
            Ok(rows) => view_seq(rows@) == Seq::new(ps.len(), |i: int| report_row(l, rs, ps[i])),
            Err(_) => false,
        },
    }
}

/// A product of a stored balance and a stored rate stays representable in
/// the wide intermediate type.
pub proof fn lemma_mul_i64_u64_fits(a: int, b: int)
    by (nonlinear_arith)
    requires
        i64::MIN <= a <= i64::MAX,
        0 <= b <= u64::MAX,
    ensures
        i128::MIN <= a * b <= i128::MAX,
{
}

impl Ledger {
    /// Build the converted report for every person the selection picks.
    pub fn search(&self, query: &Selection, rates: &RateTable) -> (res: Result<
        Vec<PersonOut>,
        LedgerError,
    >)
        ensures
            search_post(self@, rates@, query@, res),
    {
        let people = self.query_person(query);
        let ghost ps = select_persons(self@.persons, query@);
        let n = people.len();
        let mut rows: Vec<PersonOut> = Vec::new();
        let mut i: usize = 0;
        while i < n
            invariant
                n == people.len(),
                view_seq(people@) =~= ps,
                ps == select_persons(self@.persons, query@),
                i <= n,
                first_row_error(self@, rates@, ps, 0) == first_row_error(
                    self@,
                    rates@,
                    ps,
                    i as int,
                ),
                rows@.len() == i as int,
                forall|k: int|
                    0 <= k < i as int ==> (#[trigger] rows@[k])@ == report_row(
                        self@,
                        rates@,
                        ps[k],
                    ),
            decreases n - i,
        {
            let person = &people[i];
            proof {
                assert(person@ == ps[i as int]);
            }
            let b = match self.query_balance_by_person(person) {
                Ok(b) => b,
                Err(e) => {
                    proof {
                        assert(row_error(self@, rates@, ps[i as int]) == Some(
                            LedgerError::NotFound,
                        ));
                    }
                    return Err(e);
                },
            };
            let rate = match rates.get_rate(&person.currency) {
                Some(r) => r,
                None => {
                    proof {
                        assert(row_error(self@, rates@, ps[i as int]) == Some(
                            LedgerError::RateUnavailable,
                        ));
                    }
                    return Err(LedgerError::RateUnavailable);
                },
            };
            proof {
                lemma_mul_i64_u64_fits(b@.value, rate as int);
            }
            let prod: i128 = (b.value as i128) * (rate as i128);
            if prod < i64::MIN as i128 || prod > i64::MAX as i128 {
                proof {
                    assert(row_error(self@, rates@, ps[i as int]) == Some(LedgerError::Overflow));
                }
                return Err(LedgerError::Overflow);
            }
            let po = PersonOut {
                name: person.name.clone(),
                dept: person.dept.clone(),
                role: person.role.clone(),
                email: person.email.clone(),
                currency: person.currency.clone(),
                created: false,
                balance: b.value,
                value: prod as i64,
            };
            proof {
                assert(po@ == report_row(self@, rates@, ps[i as int]));
            }
            let ghost prev_rows = rows@;
            rows.push(po);
            i = i + 1;
            proof {
                assert(rows@ == prev_rows.push(po));
            }
        }
        proof {
            assert(first_row_error(self@, rates@, ps, n as int) is None);
            assert(view_seq(rows@) =~= Seq::new(
                ps.len(),
                |k: int| report_row(self@, rates@, ps[k]),
            ));
        }
        Ok(rows)
    }
}

/// The movement row the engine appends for the selected person at offset
/// `t` of a bulk move.
pub open spec fn moved_row(
    pre: LedgerView,
    t: int,
    pid: int,
    delta: int,
    actor: Seq<char>,
    now: u64,
) -> MovementView {
    MovementView {
        id: pre.movements.len() + t,
        person_id: pid,
        value: delta,
        actor: actor,
        date: stamp_of(pre, now),
    }
}

/// Why one leg of a bulk move fails, judged against the pre-move store.
pub open spec fn step_error(pre: LedgerView, pid: int, delta: int) -> Option<LedgerError> {
    if guard_rejects(pre, pid, delta) {
        Some(LedgerError::InsufficientBalance)
    } else if !total_fits(pre, pid, delta) {
        Some(LedgerError::Overflow)
    } else {
        None
    }
}

pub open spec fn first_step_error(
    pre: LedgerView,
    ps: Seq<PersonView>,
    delta: int,
    i: int,
) -> Option<(int, LedgerError)>
    decreases ps.len() - i,
{
    if i < 0 || i >= ps.len() {
        None
    } else if step_error(pre, ps[i].id, delta) is Some {
        Some((i, step_error(pre, ps[i].id, delta).unwrap()))
    } else {
        first_step_error(pre, ps, delta, i + 1)
    }
}

/// Is `q` the id of one of the first `k` selected persons?
pub open spec fn sel_pid_before(ps: Seq<PersonView>, k: int, q: int) -> bool {
    exists|t: int| 0 <= t < k && (#[trigger] ps[t]).id == q
}

/// The first `k` selected persons have received a movement of `delta` each:
/// one row per person, appended in selection order and all carrying the
/// same stamp, each balance refreshed to its full recomputed total, and
/// every other person's balance row untouched.
pub open spec fn movements_applied(
    pre: LedgerView,
    post: LedgerView,
    ps: Seq<PersonView>,
    delta: int,
    actor: Seq<char>,
    now: u64,
    k: int,
) -> bool {
    &&& post.persons == pre.persons
    &&& post.users == pre.users
    &&& post.clock == if k == 0 {
        pre.clock
    } else {
        stamp_of(pre, now)
    }
    &&& post.movements.len() == pre.movements.len() + k
    &&& post.movements.subrange(0, pre.movements.len() as int) == pre.movements
    &&& forall|t: int|
        0 <= t < k ==> post.movements[pre.movements.len() + t] == moved_row(
            pre,
            t,
            (#[trigger] ps[t]).id,
            delta,
            actor,
            now,
        )
    &&& forall|t: int|
        0 <= t < k ==> spec_balance_of(post.balances, (#[trigger] ps[t]).id) is Some
    &&& forall|t: int|
        0 <= t < k ==> spec_balance_of(post.balances, (#[trigger] ps[t]).id).unwrap().value
            == sum_values(pre.movements, ps[t].id) + delta
    &&& forall|q: int|
        !sel_pid_before(ps, k, q) ==> #[trigger] spec_balance_of(post.balances, q)
            == spec_balance_of(pre.balances, q)
}

/// What a bulk move does: each selected person receives the delta in
/// selection order; the first failing leg aborts the rest with its error,
/// leaving the earlier legs committed; on full success the same selection
/// is re-read as a converted report.
pub open spec fn move_points_post(
    pre: LedgerView,
    post: LedgerView,
    delta: int,
    actor: Seq<char>,
    sel: SelView,
    rs: Seq<RateView>,
    now: u64,
    res: Result<Vec<PersonOut>, LedgerError>,
) -> bool {
    let ps = select_persons(pre.persons, sel);
    match first_step_error(pre, ps, delta, 0) {
        Some((k, e)) => {
            &&& res == Err::<Vec<PersonOut>, LedgerError>(e)
            &&& movements_applied(pre, post, ps, delta, actor, now, k)
        },
        None => {
            &&& movements_applied(pre, post, ps, delta, actor, now, ps.len() as int)
            &&& search_post(post, rs, sel, res)
        },
    }
}

impl Ledger {
    /// Apply a signed delta to every person the selection picks, then
    /// re-read the selection as a report.
    pub fn move_points(
        &mut self,
        value: i64,
        actor: &String,
        query: &Selection,
        rates: &RateTable,
        now: u64,
    ) -> (res: Result<Vec<PersonOut>, LedgerError>)
        requires
            old(self)@.wf(),
        ensures
            final(self)@.wf(),
            move_points_post(
                old(self)@,
                final(self)@,
                value as int,
                actor@,
                query@,
                rates@,
                now,
                res,
            ),
    {
        let ghost pre = self@;
        let people = self.query_person(query);
        let ghost ps = select_persons(pre.persons, query@);
        proof {
            lemma_select_ids(pre.persons, query@);
            assert(pre.movements.subrange(0, pre.movements.len() as int) =~= pre.movements);
        }
        let n = people.len();
        let mut i: usize = 0;
        while i < n
            invariant
                self@.wf(),
                pre.wf(),
                pre == old(self)@,
                n == people.len(),
                view_seq(people@) =~= ps,
                ps == select_persons(pre.persons, query@),
                i <= n,
                forall|t: int| 0 <= t < ps.len() ==> 0 <= (#[trigger] ps[t]).id < pre.persons.len(),
                forall|t: int, u: int|
                    0 <= t < u < ps.len() ==> (#[trigger] ps[t]).id < (#[trigger] ps[u]).id,
                movements_applied(pre, self@, ps, value as int, actor@, now, i as int),
                first_step_error(pre, ps, value as int, 0) == first_step_error(
                    pre,
                    ps,
                    value as int,
                    i as int,
                ),
                forall|q: int|
                    !sel_pid_before(ps, i as int, q) ==> #[trigger] sum_values(self@.movements, q)
                        == sum_values(pre.movements, q),
            decreases n - i,
        {
            let ghost cur = self@;
            let ghost pid = ps[i as int].id;
            proof {
                assert(people@[i as int]@ == ps[i as int]);
                assert(!sel_pid_before(ps, i as int, pid));
                assert(guard_rejects(cur, pid, value as int) == guard_rejects(
                    pre,
                    pid,
                    value as int,
                ));
                assert(total_fits(cur, pid, value as int) == total_fits(pre, pid, value as int));
            }
            let r = self.add_movement(&people[i], value, Some(actor.clone()), now);
            match r {
                Err(e) => {
                    proof {
                        assert(step_error(pre, pid, value as int) == Some(e));
                        assert(first_step_error(pre, ps, value as int, i as int) == Some(
                            (i as int, e),
                        ));
                        assert(self@ == cur);
                    }
                    return Err(e);
                },
                Ok(_) => {},
            }
            proof {
                let nxt = self@;
                let mv = moved_row(pre, i as int, pid, value as int, actor@, now);
                assert(stamp_of(cur, now) == stamp_of(pre, now));
                assert(nxt.movements =~= cur.movements.push(mv));
                assert(nxt.movements.subrange(0, pre.movements.len() as int)
                    =~= pre.movements);
                assert forall|q: int|
                    !sel_pid_before(ps, i as int + 1, q) implies #[trigger] sum_values(
                    nxt.movements,
                    q,
                ) == sum_values(pre.movements, q) by {
                    assert(!sel_pid_before(ps, i as int, q));
                    assert(q != pid);
                    lemma_sum_push(cur.movements, mv, q);
                }
                assert forall|q: int|
                    !sel_pid_before(ps, i as int + 1, q) implies #[trigger] spec_balance_of(
                    nxt.balances,
                    q,
                ) == spec_balance_of(pre.balances, q) by {
                    assert(!sel_pid_before(ps, i as int, q));
                    assert(q != pid);
                }
                assert(step_error(pre, pid, value as int) is None);
                assert(first_step_error(pre, ps, value as int, i as int) == first_step_error(
                    pre,
                    ps,
                    value as int,
                    i as int + 1,
                ));
                assert forall|t: int| 0 <= t < i as int + 1 implies nxt.movements[pre.movements.len()
                    + t] == moved_row(pre, t, (#[trigger] ps[t]).id, value as int, actor@, now) by {
                    if t < i as int {
                        assert(cur.movements[pre.movements.len() + t] == moved_row(
                            pre,
                            t,
                            ps[t].id,
                            value as int,
                            actor@,
                            now,
                        ));
                    }
                }
                assert forall|t: int| 0 <= t < i as int + 1 implies spec_balance_of(
                    nxt.balances,
                    (#[trigger] ps[t]).id,
                ) is Some && spec_balance_of(nxt.balances, ps[t].id).unwrap().value == sum_values(
                    pre.movements,
                    ps[t].id,
                ) + value as int by {
                    if t < i as int {
                        assert(ps[t].id != pid);
                        assert(spec_balance_of(nxt.balances, ps[t].id) == spec_balance_of(
                            cur.balances,
                            ps[t].id,
                        ));
                    } else {
                        assert(sum_values(cur.movements, pid) == sum_values(pre.movements, pid));
                    }
                }
            }
            i = i + 1;
        }
        proof {
            assert(first_step_error(pre, ps, value as int, n as int) is None);
        }
        self.search(query, rates)
    }
}

/// The report row the bulk import shows for one record: the stored person,
/// whether it was created, and its raw balance; no conversion.
pub open spec fn load_row(p: PersonView, created: bool, balance: int) -> PersonOutView {
    PersonOutView {
        name: p.name,
        dept: p.dept,
        role: p.role,
        email: p.email,
        currency: p.currency,
        created: created,
        balance: balance,
        value: 0,
    }
}

/// A run of records has been imported, one upsert each, and one report row
/// per record shows the record's person, its created flag and the balance
/// read back right after its upsert.
pub open spec fn load_seg(
    pre: LedgerView,
    post: LedgerView,
    recs: Seq<PersonInView>,
    rows: Seq<PersonOutView>,
    now: u64,
) -> bool
    decreases recs.len(),
{
    if recs.len() == 0 {
        &&& post == pre
        &&& rows.len() == 0
    } else {
        &&& rows.len() == recs.len()
        &&& exists|mid: LedgerView, p: Person, created: bool|
            {
                &&& #[trigger] add_person_post(pre, mid, recs[0], now, Ok((p, created)))
                &&& spec_balance_of(mid.balances, p@.id) is Some
                &&& rows[0] == load_row(
                    p@,
                    created,
                    spec_balance_of(mid.balances, p@.id).unwrap().value,
                )
                &&& load_seg(mid, post, recs.drop_first(), rows.drop_first(), now)
            }
    }
}

/// Imported runs compose.
pub proof fn lemma_load_seg_concat(
    a: LedgerView,
    b: LedgerView,
    c: LedgerView,
    r1: Seq<PersonInView>,
    r2: Seq<PersonInView>,
    w1: Seq<PersonOutView>,
    w2: Seq<PersonOutView>,
    now: u64,
)
    requires
        load_seg(a, b, r1, w1, now),
        load_seg(b, c, r2, w2, now),
    ensures
        load_seg(a, c, r1 + r2, w1 + w2, now),
    decreases r1.len(),
{
    if r1.len() == 0 {
        assert(r1 + r2 =~= r2);
        assert(w1 + w2 =~= w2);
    } else {
        let (mid, p, created) = choose|mid: LedgerView, p: Person, created: bool|
            {
                &&& #[trigger] add_person_post(a, mid, r1[0], now, Ok((p, created)))
                &&& spec_balance_of(mid.balances, p@.id) is Some
                &&& w1[0] == load_row(
                    p@,
                    created,
                    spec_balance_of(mid.balances, p@.id).unwrap().value,
                )
                &&& load_seg(mid, b, r1.drop_first(), w1.drop_first(), now)
            };
        lemma_load_seg_concat(mid, b, c, r1.drop_first(), r2, w1.drop_first(), w2, now);
        assert((r1 + r2).drop_first() =~= r1.drop_first() + r2);
        assert((w1 + w2).drop_first() =~= w1.drop_first() + w2);
        assert((r1 + r2)[0] == r1[0]);
        assert((w1 + w2)[0] == w1[0]);
        assert(add_person_post(a, mid, (r1 + r2)[0], now, Ok((p, created))));
    }
}

/// How an import stops early: the record's upsert itself is rejected, or
/// the upsert goes through and the person still has no balance row to read
/// back.
pub open spec fn load_fail(
    mid: LedgerView,
    post: LedgerView,
    rec: PersonInView,
    e: LedgerError,
    now: u64,
) -> bool {
    ||| add_person_post(mid, post, rec, now, Err::<(Person, bool), LedgerError>(e))
    ||| exists|p: Person, created: bool|
        {
            &&& #[trigger] add_person_post(mid, post, rec, now, Ok((p, created)))
            &&& spec_balance_of(post.balances, p@.id) is None
            &&& e == LedgerError::NotFound
        }
}

/// What a bulk import does: records are upserted in order; the first
/// failure aborts the rest with its error, leaving earlier upserts
/// committed.
pub open spec fn load_post(
    pre: LedgerView,
    post: LedgerView,
    recs: Seq<PersonInView>,
    now: u64,
    res: Result<Vec<PersonOut>, LedgerError>,
) -> bool {
    match res {
        Ok(rows) => load_seg(pre, post, recs, view_seq(rows@), now),
        Err(e) => exists|mid: LedgerView, k: int, w: Seq<PersonOutView>|
            {
                &&& 0 <= k < recs.len()
                &&& #[trigger] load_seg(pre, mid, recs.subrange(0, k), w, now)
                &&& load_fail(mid, post, recs[k], e, now)
            },
    }
}

/// What a transfer does: a debit of the amount against the sender's email,
/// then, only if the debit went through, a credit of the same amount
/// against the destination email, both attributed to the acting user. A
/// failed credit does not undo the debit; a destination that matches
/// nobody fails with `NotFound`, the debit kept.
pub open spec fn transfer_post(
    pre: LedgerView,
    post: LedgerView,
    sender: PersonView,
    actor: Seq<char>,
    amount: int,
    to: Seq<char>,
    rs: Seq<RateView>,
    now: u64,
    res: Result<(PersonOut, PersonOut), LedgerError>,
) -> bool {
    exists|mid: LedgerView, r1: Result<Vec<PersonOut>, LedgerError>|
        {
            &&& #[trigger] move_points_post(
                pre,
                mid,
                -amount,
                actor,
                SelView::ByEmail(sender.email),
                rs,
                now,
                r1,
            )
            &&& match r1 {
                Err(e) => post == mid && res == Err::<(PersonOut, PersonOut), LedgerError>(e),
                Ok(rows1) => {
                    &&& rows1@.len() >= 1
                    &&& exists|r2: Result<Vec<PersonOut>, LedgerError>|
                        {
                            &&& #[trigger] move_points_post(
                                mid,
                                post,
                                amount,
                                actor,
                                SelView::ByEmail(to),
                                rs,
                                now,
                                r2,
                            )
                            &&& match r2 {
                                Err(e) => res == Err::<(PersonOut, PersonOut), LedgerError>(e),
                                Ok(rows2) => if rows2@.len() == 0 {
                                    res == Err::<(PersonOut, PersonOut), LedgerError>(
                                        LedgerError::NotFound,
                                    )
                                } else {
                                    match res {
                                        Ok((s, r)) => s@ == rows1@[0]@ && r@ == rows2@[0]@,
                                        Err(_) => false,
                                    }
                                },
                            }
                        }
                },
            }
        }
}

impl Ledger {
    /// The cached balance and the full movement history of one person,
    /// oldest movement first.
    pub fn get_statement(&self, person_id: usize) -> (res: Result<
        (Balance, Vec<Movement>),
        LedgerError,
    >)
        requires
            self@.wf(),
        ensures
            (person_id as int) >= self@.persons.len() ==> res == Err::<
                (Balance, Vec<Movement>),
                LedgerError,
            >(LedgerError::NotFound),
            (person_id as int) < self@.persons.len() ==> match spec_balance_of(
                self@.balances,
                person_id as int,
            ) {
                Some(b) => res matches Ok((rb, ms)) && rb@ == b && view_seq(ms@) == movements_of(
                    self@.movements,
                    person_id as int,
                ),
                None => res == Err::<(Balance, Vec<Movement>), LedgerError>(LedgerError::NotFound),
            },
    {
        let person = match self.query_person_by_id(person_id) {
            Ok(p) => p,
            Err(e) => {
                return Err(e);
            },
        };
        let movements = self.list_movements(&person);
        let balance = match self.query_balance_by_person(&person) {
            Ok(b) => b,
            Err(e) => {
                return Err(e);
            },
        };
        Ok((balance, movements))
    }

    /// Import a batch of person records, upserting each in order. The
    /// returned rows show each record's person, whether it was created,
    /// and its balance right after the upsert; the first failing record
    /// aborts the rest, earlier upserts kept.
    pub fn load(&mut self, records: &Vec<PersonIn>, now: u64) -> (res: Result<
        Vec<PersonOut>,
        LedgerError,
    >)
        requires
            old(self)@.wf(),
        ensures
            final(self)@.wf(),
            load_post(old(self)@, final(self)@, view_seq(records@), now, res),
    {
        let ghost pre = self@;
        let ghost recs = view_seq(records@);
        let n = records.len();
        let mut rows: Vec<PersonOut> = Vec::new();
        let mut t: usize = 0;
        while t < n
            invariant
                self@.wf(),
                pre == old(self)@,
                n == records.len(),
                recs == view_seq(records@),
                t <= n,
                rows@.len() == t as int,
                load_seg(pre, self@, recs.subrange(0, t as int), view_seq(rows@), now),
            decreases n - t,
        {
            let ghost cur = self@;
            let rec = &records[t];
            proof {
                assert(rec@ == recs[t as int]);
            }
            let pr = self.add_person(rec, now);
            let (p, created) = match pr {
                Ok(x) => x,
                Err(e) => {
                    proof {
                        assert(load_fail(cur, self@, recs[t as int], e, now));
                        assert(load_post(pre, self@, recs, now, Err::<Vec<PersonOut>, LedgerError>(e)));
                    }
                    return Err(e);
                },
            };
            let b = match self.query_balance_by_person(&p) {
                Ok(b) => b,
                Err(e) => {
                    proof {
                        assert(add_person_post(cur, self@, recs[t as int], now, Ok((p, created))));
                        assert(load_fail(cur, self@, recs[t as int], LedgerError::NotFound, now));
                        assert(load_post(
                            pre,
                            self@,
                            recs,
                            now,
                            Err::<Vec<PersonOut>, LedgerError>(LedgerError::NotFound),
                        ));
                    }
                    return Err(e);
                },
            };
            let po = PersonOut {
                name: p.name.clone(),
                dept: p.dept.clone(),
                role: p.role.clone(),
                email: p.email.clone(),
                currency: p.currency.clone(),
                created: created,
                balance: b.value,
                value: 0,
            };
            let ghost pov = po@;
            let ghost prev_rows = rows@;
            rows.push(po);
            t = t + 1;
            proof {
                let nxt = self@;
                let s1 = recs.subrange(t as int - 1, t as int);
                assert(s1[0] == recs[t as int - 1]);
                assert(add_person_post(cur, nxt, s1[0], now, Ok((p, created))));
                assert(pov == load_row(p@, created, spec_balance_of(nxt.balances, p@.id).unwrap().value));
                assert(s1.drop_first() =~= Seq::<PersonInView>::empty());
                assert(seq![pov].drop_first() =~= Seq::<PersonOutView>::empty());
                assert(load_seg(nxt, nxt, s1.drop_first(), seq![pov].drop_first(), now));
                assert(load_seg(cur, nxt, s1, seq![pov], now));
                lemma_load_seg_concat(
                    pre,
                    cur,
                    nxt,
                    recs.subrange(0, t as int - 1),
                    s1,
                    view_seq(prev_rows),
                    seq![pov],
                    now,
                );
                assert(recs.subrange(0, t as int - 1) + s1 =~= recs.subrange(0, t as int));
                assert(view_seq(prev_rows) + seq![pov] =~= view_seq(rows@));
            }
        }
        proof {
            assert(recs.subrange(0, n as int) =~= recs);
        }
        Ok(rows)
    }

    /// Move points from one person to the holder of a destination email:
    /// the debit leg first, then the credit leg, both as bulk moves keyed
    /// by email and attributed to the acting user.
    pub fn transfer(
        &mut self,
        person: &Person,
        user: &User,
        value: i64,
        to: &String,
        rates: &RateTable,
        now: u64,
    ) -> (res: Result<(PersonOut, PersonOut), LedgerError>)
        requires
            old(self)@.wf(),
            i64::MIN < value,
            0 <= person@.id < old(self)@.persons.len(),
            old(self)@.persons[person@.id] == person@,
        ensures
            final(self)@.wf(),
            transfer_post(
                old(self)@,
                final(self)@,
                person@,
                user@.username,
                value as int,
                to@,
                rates@,
                now,
                res,
            ),
    {
        let ghost pre = self@;
        let q1 = Selection::ByEmail(person.email.clone());
        let r1 = self.move_points(-value, &user.username, &q1, rates, now);
        let ghost midv = self@;
        let ghost r1v = r1;
        let rows1 = match r1 {
            Ok(rows) => rows,
            Err(e) => {
                proof {
                    assert(move_points_post(
                        pre,
                        midv,
                        -(value as int),
                        user@.username,
                        SelView::ByEmail(person@.email),
                        rates@,
                        now,
                        r1v,
                    ));
                }
                return Err(e);
            },
        };
        proof {
            let sel1 = SelView::ByEmail(person@.email);
            assert(move_points_post(
                pre,
                midv,
                -(value as int),
                user@.username,
                sel1,
                rates@,
                now,
                r1v,
            ));
            let ps1 = select_persons(pre.persons, sel1);
            assert(sel_matches(sel1, pre.persons[person@.id]));
            lemma_select_has(pre.persons, sel1, person@.id);
            assert(first_step_error(pre, ps1, -(value as int), 0) is None);
            assert(midv.persons == pre.persons);
            assert(select_persons(midv.persons, sel1) == ps1);
            assert(r1v == Ok::<Vec<PersonOut>, LedgerError>(rows1));
            assert(view_seq(rows1@).len() == ps1.len());
            assert(rows1@.len() >= 1);
        }
        let q2 = Selection::ByEmail(to.clone());
        let r2 = self.move_points(value, &user.username, &q2, rates, now);
        let ghost postv = self@;
        let ghost r2v = r2;
        match r2 {
            Err(e) => {
                proof {
                    assert(move_points_post(
                        midv,
                        postv,
                        value as int,
                        user@.username,
                        SelView::ByEmail(to@),
                        rates@,
                        now,
                        r2v,
                    ));
                }
                return Err(e);
            },
            Ok(rows2) => {
                if rows2.len() == 0 {
                    proof {
                        assert(move_points_post(
                            midv,
                            postv,
                            value as int,
                            user@.username,
                            SelView::ByEmail(to@),
                            rates@,
                            now,
                            r2v,
                        ));
                    }
                    return Err(LedgerError::NotFound);
                }
                let s = rows1[0].duplicate();
                let r = rows2[0].duplicate();
                proof {
                    assert(move_points_post(
                        midv,
                        postv,
                        value as int,
                        user@.username,
                        SelView::ByEmail(to@),
                        rates@,
                        now,
                        r2v,
                    ));
                }
                Ok((s, r))
            },
        }
    }
}

} // verus!
