//! What holds of single calls and of calls in pairs.
use vstd::prelude::*;

use crate::model::{cooldown_end, eligible, indexed, new_pool_entry, qualifies, tag_score, PoolState};
use crate::ranking::{
    lemma_ranked_is_ranking, lemma_ranking_drawn_from, lemma_with_score_in,
    lemma_with_score_members, lemma_with_score_order, lemma_with_score_positions_increase, ranked,
    with_score,
};
use crate::model::DripView;
use crate::types::{Error, PoolEntryView, RiskLevel, SECONDS_PER_MONTH};

verus! {

/// While the pool is globally paused, deposits and drips are refused with
/// `ContractPaused` and change nothing.
pub proof fn lemma_global_pause_blocks_deposit_and_drip(
    s: PoolState,
    user: Seq<char>,
    amount: i128,
    risk_profile: RiskLevel,
    preferred_tags: Seq<Seq<char>>,
    monthly_drip_amount: i128,
    now: u64,
)
    requires
        s.is_paused,
    ensures
        s.deposit(user, amount, risk_profile, preferred_tags, monthly_drip_amount, now) == (
            s,
            Err::<(), Error>(Error::ContractPaused),
        ),
        s.execute_drip(user, now).0 == s,
        s.execute_drip(user, now).1 == Err::<crate::model::DripView, Error>(Error::ContractPaused),
{
}

/// Pausing and then resuming an active user's entry gives back the state
/// before.
pub proof fn lemma_pause_resume_round_trip(s: PoolState, user: Seq<char>)
    requires
        s.pools.contains_key(user),
        !s.pools[user].is_paused,
    ensures
        s.pause(user).1 == Ok::<(), Error>(()),
        s.pause(user).0.pools[user].is_paused,
        s.pause(user).0.resume(user) == (s, Ok::<(), Error>(())),
{
    let s1 = s.pause(user).0;
    let s2 = s1.resume(user).0;
    assert(s2.pools[user] == s.pools[user]);
    assert(s2.pools =~= s.pools);
}

/// The administrator's pause followed by resume gives back an unpaused pool.
pub proof fn lemma_admin_pause_resume_round_trip(s: PoolState)
    requires
        s.admin is Some,
        !s.is_paused,
    ensures
        s.set_global_pause(true).0.is_paused,
        s.set_global_pause(true).0.set_global_pause(false) == (s, Ok::<(), Error>(())),
{
}

/// A pool initialises once: a second initialisation is refused and changes
/// nothing.
pub proof fn lemma_initialize_once(s: PoolState, first: Seq<char>, second: Seq<char>)
    requires
        s.admin is None,
    ensures
        s.initialize(first).1 == Ok::<(), Error>(()),
        s.initialize(first).0.initialize(second) == (
            s.initialize(first).0,
            Err::<(), Error>(Error::EntryAlreadyExists),
        ),
{
}

/// A successful deposit stores exactly the new entry: reading the user's pool
/// gives it back, and no other user's entry changes.
pub proof fn lemma_get_pool_after_deposit(
    s: PoolState,
    user: Seq<char>,
    amount: i128,
    risk_profile: RiskLevel,
    preferred_tags: Seq<Seq<char>>,
    monthly_drip_amount: i128,
    now: u64,
    other: Seq<char>,
)
    requires
        s.deposit(user, amount, risk_profile, preferred_tags, monthly_drip_amount, now).1 is Ok,
        other != user,
    ensures
        ({
            let s1 = s.deposit(user, amount, risk_profile, preferred_tags, monthly_drip_amount, now).0;
            &&& s1.get_pool(user) == Ok::<PoolEntryView, Error>(
                new_pool_entry(user, amount, risk_profile, preferred_tags, monthly_drip_amount, now),
            )
            &&& s1.get_pool(other) == s.get_pool(other)
        }),
{
}

/// A deposit is accepted exactly when the pool is not paused, the amount is
/// positive, the monthly drip is positive and at most the amount, some tag is
/// preferred and the user has no entry yet.
pub proof fn lemma_deposit_accepted_iff(
    s: PoolState,
    user: Seq<char>,
    amount: i128,
    risk_profile: RiskLevel,
    preferred_tags: Seq<Seq<char>>,
    monthly_drip_amount: i128,
    now: u64,
)
    ensures
        s.deposit(user, amount, risk_profile, preferred_tags, monthly_drip_amount, now).1 is Ok <==> (
        !s.is_paused && amount > 0 && 0 < monthly_drip_amount <= amount && preferred_tags.len() > 0
            && !s.pools.contains_key(user)),
{
}

/// Depositing and then withdrawing everything returns the deposit and leaves
/// the pool as it was.
pub proof fn lemma_deposit_then_withdraw_all(
    s: PoolState,
    user: Seq<char>,
    amount: i128,
    risk_profile: RiskLevel,
    preferred_tags: Seq<Seq<char>>,
    monthly_drip_amount: i128,
    now: u64,
)
    requires
        s.deposit(user, amount, risk_profile, preferred_tags, monthly_drip_amount, now).1 is Ok,
    ensures
        s.deposit(user, amount, risk_profile, preferred_tags, monthly_drip_amount, now).0.withdraw(
            user,
            None,
        ) == (s, Ok::<i128, Error>(amount)),
{
    let s1 = s.deposit(user, amount, risk_profile, preferred_tags, monthly_drip_amount, now).0;
    assert(s1.withdraw(user, None).0.pools =~= s.pools);
}

/// A withdrawal of more than the remaining balance is refused and changes
/// nothing; an accepted one lowers the balance by exactly the amount paid out,
/// and removes the entry once nothing is left.
pub proof fn lemma_withdraw_accounting(s: PoolState, user: Seq<char>, amount: Option<i128>)
    requires
        s.wf(),
        s.pools.contains_key(user),
        amount matches Some(a) ==> a >= 0,
    ensures
        ({
            let e = s.pools[user];
            let (s1, r) = s.withdraw(user, amount);
            let w = match amount {
                Some(a) => a,
                None => e.remaining_balance,
            };
            &&& w > e.remaining_balance ==> s1 == s && r == Err::<i128, Error>(
                Error::WithdrawalExceedsBalance,
            )
            &&& w <= e.remaining_balance ==> r == Ok::<i128, Error>(w)
            &&& w <= e.remaining_balance && w == e.remaining_balance ==> !s1.pools.contains_key(user)
            &&& w <= e.remaining_balance && w < e.remaining_balance ==> s1.pools.contains_key(user)
                && s1.pools[user].remaining_balance + w == e.remaining_balance
        }),
{
}

/// Every call keeps the balance rules of every entry: the monthly drip stays
/// positive and at most the deposit, and the remaining balance stays between
/// zero and the deposit.
pub proof fn lemma_balance_rules_kept(
    s: PoolState,
    user: Seq<char>,
    amount: i128,
    risk_profile: RiskLevel,
    preferred_tags: Seq<Seq<char>>,
    monthly_drip_amount: i128,
    now: u64,
    withdrawal: Option<i128>,
)
    requires
        s.wf(),
        withdrawal matches Some(a) ==> a >= 0,
    ensures
        s.deposit(user, amount, risk_profile, preferred_tags, monthly_drip_amount, now).0.wf(),
        s.execute_drip(user, now).0.wf(),
        s.withdraw(user, withdrawal).0.wf(),
        s.pause(user).0.wf(),
        s.resume(user).0.wf(),
{
    lemma_drip_accounting(s, user, now);
}

/// A successful drip invests at most [`crate::DEFAULT_MAX_PROJECTS_PER_DRIP`]
/// projects, the best-matching ones in order, each the same amount; the
/// balance falls by exactly what was invested, which is at most the monthly
/// drip; the projects are added to the user's investments, and the drip time
/// becomes `now`.
pub proof fn lemma_drip_accounting(s: PoolState, user: Seq<char>, now: u64)
    requires
        s.wf(),
    ensures
        s.execute_drip(user, now).1 matches Ok(d) ==> {
            let e = s.pools[user];
            let e1 = s.execute_drip(user, now).0.pools[user];
            let m = s.match_projects(e.risk_profile, e.preferred_tags, e.monthly_drip_amount);
            &&& s.pools.contains_key(user)
            &&& d.projects.len() <= crate::DEFAULT_MAX_PROJECTS_PER_DRIP
            &&& d.projects == m.take(d.projects.len() as int)
            &&& d.amount_per_project >= 0
            &&& d.amount_per_project * d.projects.len() <= e.monthly_drip_amount
            &&& e1.remaining_balance == e.remaining_balance - d.amount_per_project
                * d.projects.len()
            &&& e1.invested_projects == e.invested_projects + d.projects
            &&& e1.total_deposited == e.total_deposited
            &&& e1.last_drip_ledger == now
        },
        s.execute_drip(user, now).0.wf(),
{
    let (s1, r) = s.execute_drip(user, now);
    if r is Ok {
        let e = s.pools[user];
        assert(s.pools.contains_key(user));
        assert(e.balanced());
        let m = s.match_projects(e.risk_profile, e.preferred_tags, e.monthly_drip_amount);
        if m.len() > 0 {
            let n: int = if m.len() < crate::DEFAULT_MAX_PROJECTS_PER_DRIP {
                m.len() as int
            } else {
                crate::DEFAULT_MAX_PROJECTS_PER_DRIP as int
            };
            let monthly = e.monthly_drip_amount as int;
            let per: int = monthly / n;
            assert(per * n <= monthly && per >= 0) by (nonlinear_arith)
                requires
                    per == monthly / n,
                    monthly > 0,
                    n > 0,
            ;
            assert(m.take(n).len() == n);
        } else {
            assert(e.invested_projects + Seq::<Seq<char>>::empty() =~= e.invested_projects);
        }
    }
}

/// Right after a successful drip, another drip of the same user before a month
/// has passed is refused with `DripCooldownNotMet`.
pub proof fn lemma_drip_cooldown(s: PoolState, user: Seq<char>, now: u64, later: u64)
    requires
        s.execute_drip(user, now).1 is Ok,
        later < cooldown_end(now),
    ensures
        s.execute_drip(user, now).0.execute_drip(user, later).1 == Err::<
            crate::model::DripView,
            Error,
        >(Error::DripCooldownNotMet),
{
}

/// Every eligible project is registered and qualifies, and carries its tag
/// score.
pub proof fn lemma_eligible_members(
    registered: Seq<Seq<char>>,
    projects: Map<Seq<char>, crate::types::ProjectEntryView>,
    risk_profile: RiskLevel,
    preferred: Seq<Seq<char>>,
    monthly_drip_amount: i128,
)
    ensures
        forall|k: int|
            0 <= k < eligible(registered, projects, risk_profile, preferred, monthly_drip_amount).len()
                ==> {
                let p = #[trigger] eligible(
                    registered,
                    projects,
                    risk_profile,
                    preferred,
                    monthly_drip_amount,
                )[k];
                &&& registered.contains(p.1)
                &&& qualifies(projects, p.1, risk_profile, monthly_drip_amount)
                &&& p.0 == tag_score(projects[p.1].tags, preferred)
            },
    decreases registered.len(),
{
    if registered.len() > 0 {
        let rest = registered.drop_last();
        lemma_eligible_members(rest, projects, risk_profile, preferred, monthly_drip_amount);
        let e0 = eligible(rest, projects, risk_profile, preferred, monthly_drip_amount);
        let e = eligible(registered, projects, risk_profile, preferred, monthly_drip_amount);
        assert forall|k: int| 0 <= k < e.len() implies registered.contains((#[trigger] e[k]).1) by {
            if k < e0.len() {
                assert(e[k] == e0[k]);
                let j = choose|j: int| 0 <= j < rest.len() && rest[j] == e0[k].1;
                assert(registered[j] == rest[j]);
            } else {
                assert(registered[registered.len() - 1] == registered.last());
            }
        }
    }
}

/// Every project that [`PoolState::match_projects`] offers is registered,
/// active, no riskier than the profile and asks at most the monthly drip; and
/// every registered project that qualifies is offered.
pub proof fn lemma_matched_exactly_the_qualifying(
    s: PoolState,
    risk_profile: RiskLevel,
    preferred: Seq<Seq<char>>,
    monthly_drip_amount: i128,
)
    ensures
        forall|k: int|
            0 <= k < s.match_projects(risk_profile, preferred, monthly_drip_amount).len() ==> {
                let a = #[trigger] s.match_projects(risk_profile, preferred, monthly_drip_amount)[k];
                &&& s.registered_projects.contains(a)
                &&& qualifies(s.projects, a, risk_profile, monthly_drip_amount)
            },
        forall|k: int|
            0 <= k < s.registered_projects.len() && qualifies(
                s.projects,
                #[trigger] s.registered_projects[k],
                risk_profile,
                monthly_drip_amount,
            ) ==> s.match_projects(risk_profile, preferred, monthly_drip_amount).contains(
                s.registered_projects[k],
            ),
{
    let reg = s.registered_projects;
    let e = eligible(reg, s.projects, risk_profile, preferred, monthly_drip_amount);
    let ie = indexed(e);
    let r = ranked(ie);
    let m = s.match_projects(risk_profile, preferred, monthly_drip_amount);
    lemma_eligible_members(reg, s.projects, risk_profile, preferred, monthly_drip_amount);
    lemma_ranked_is_ranking(ie);
    lemma_ranking_drawn_from(ie, r);
    assert forall|k: int| 0 <= k < m.len() implies {
        let a = #[trigger] m[k];
        &&& reg.contains(a)
        &&& qualifies(s.projects, a, risk_profile, monthly_drip_amount)
    } by {
        assert(ie.contains(r[k]));
        let j = choose|j: int| 0 <= j < ie.len() && ie[j] == r[k];
        assert(m[k] == e[j].1);
        assert(e[j] == eligible(reg, s.projects, risk_profile, preferred, monthly_drip_amount)[j]);
    }
    assert forall|k: int|
        0 <= k < reg.len() && qualifies(
            s.projects,
            #[trigger] reg[k],
            risk_profile,
            monthly_drip_amount,
        ) implies m.contains(reg[k]) by {
        lemma_eligible_complete(reg, s.projects, risk_profile, preferred, monthly_drip_amount, k);
        let j = choose|j: int| 0 <= j < e.len() && e[j].1 == reg[k];
        let c = ie[j].0;
        lemma_with_score_in(ie, c, j);
        let p = choose|p: int| 0 <= p < with_score(ie, c).len() && with_score(ie, c)[p] == ie[j];
        assert(with_score(r, c) == with_score(ie, c));
        lemma_with_score_members(r, c);
        let q = choose|q: int| 0 <= q < r.len() && r[q] == with_score(r, c)[p];
        assert(m[q] == e[r[q].1].1);
    }
}

/// A registered project that qualifies is among the eligible ones.
pub proof fn lemma_eligible_complete(
    registered: Seq<Seq<char>>,
    projects: Map<Seq<char>, crate::types::ProjectEntryView>,
    risk_profile: RiskLevel,
    preferred: Seq<Seq<char>>,
    monthly_drip_amount: i128,
    k: int,
)
    requires
        0 <= k < registered.len(),
        qualifies(projects, registered[k], risk_profile, monthly_drip_amount),
    ensures
        exists|j: int|
            0 <= j < eligible(registered, projects, risk_profile, preferred, monthly_drip_amount).len()
                && (#[trigger] eligible(
                registered,
                projects,
                risk_profile,
                preferred,
                monthly_drip_amount,
            )[j]).1 == registered[k],
    decreases registered.len(),
{
    let rest = registered.drop_last();
    let e = eligible(registered, projects, risk_profile, preferred, monthly_drip_amount);
    let e0 = eligible(rest, projects, risk_profile, preferred, monthly_drip_amount);
    if k == registered.len() - 1 {
        assert(e[e.len() - 1].1 == registered[k]);
    } else {
        assert(rest[k] == registered[k]);
        lemma_eligible_complete(rest, projects, risk_profile, preferred, monthly_drip_amount, k);
        let j = choose|j: int| 0 <= j < e0.len() && (#[trigger] e0[j]).1 == rest[k];
        assert(e[j] == e0[j]);
    }
}

/// The offered projects come highest tag score first, and projects with equal
/// scores come in the order in which they are eligible, which is the order of
/// registration.
pub proof fn lemma_matched_order(
    s: PoolState,
    risk_profile: RiskLevel,
    preferred: Seq<Seq<char>>,
    monthly_drip_amount: i128,
)
    ensures
        ({
            let e = eligible(
                s.registered_projects,
                s.projects,
                risk_profile,
                preferred,
                monthly_drip_amount,
            );
            let r = ranked(indexed(e));
            &&& s.match_projects(risk_profile, preferred, monthly_drip_amount) == r.map_values(
                |p: (int, int)| e[p.1].1,
            )
            &&& forall|i: int| 0 <= i < r.len() ==> 0 <= #[trigger] r[i].1 < e.len() && r[i].0
                == e[r[i].1].0
            &&& forall|i: int, j: int|
                0 <= i < j < r.len() ==> #[trigger] r[i].0 >= #[trigger] r[j].0 && (r[i].0 == r[j].0
                    ==> r[i].1 < r[j].1)
        }),
{
    let e = eligible(s.registered_projects, s.projects, risk_profile, preferred, monthly_drip_amount);
    let ie = indexed(e);
    let r = ranked(ie);
    lemma_ranked_is_ranking(ie);
    lemma_ranking_drawn_from(ie, r);
    assert forall|i: int| 0 <= i < r.len() implies 0 <= #[trigger] r[i].1 < e.len() && r[i].0
        == e[r[i].1].0 by {
        assert(ie.contains(r[i]));
    }
    assert forall|i: int, j: int| 0 <= i < j < r.len() implies #[trigger] r[i].0 >= #[trigger] r[j].0
        && (r[i].0 == r[j].0 ==> r[i].1 < r[j].1) by {
        if r[i].0 == r[j].0 {
            let c = r[i].0;
            lemma_with_score_order(r, c, i, j);
            let (p, q) = choose|p: int, q: int|
                0 <= p < q < with_score(r, c).len() && with_score(r, c)[p] == r[i] && with_score(
                    r,
                    c,
                )[q] == r[j];
            assert(with_score(r, c) == with_score(ie, c));
            lemma_with_score_positions_increase(ie, c);
        }
    }
}

/// Once a project is deregistered it is never offered again (until storage is
/// changed otherwise).
pub proof fn lemma_deregistered_not_matched(
    s: PoolState,
    project_address: Seq<char>,
    risk_profile: RiskLevel,
    preferred: Seq<Seq<char>>,
    monthly_drip_amount: i128,
)
    requires
        s.deregister_project(project_address).1 is Ok,
    ensures
        !s.deregister_project(project_address).0.match_projects(
            risk_profile,
            preferred,
            monthly_drip_amount,
        ).contains(project_address),
{
    let s1 = s.deregister_project(project_address).0;
    lemma_matched_exactly_the_qualifying(s1, risk_profile, preferred, monthly_drip_amount);
}

/// A drip invests only in registered projects that suit the user: active, no
/// riskier than the user's profile and asking at most the monthly drip.
pub proof fn lemma_drip_invests_only_suitable_projects(s: PoolState, user: Seq<char>, now: u64)
    requires
        s.wf(),
    ensures
        s.execute_drip(user, now).1 matches Ok(d) ==> forall|k: int|
            0 <= k < d.projects.len() ==> {
                let e = s.pools[user];
                &&& s.registered_projects.contains(#[trigger] d.projects[k])
                &&& qualifies(s.projects, d.projects[k], e.risk_profile, e.monthly_drip_amount)
            },
{
    lemma_drip_accounting(s, user, now);
    if s.execute_drip(user, now).1 is Ok {
        let e = s.pools[user];
        lemma_matched_exactly_the_qualifying(
            s,
            e.risk_profile,
            e.preferred_tags,
            e.monthly_drip_amount,
        );
        let m = s.match_projects(e.risk_profile, e.preferred_tags, e.monthly_drip_amount);
        let d = s.execute_drip(user, now).1->Ok_0;
        assert forall|k: int| 0 <= k < d.projects.len() implies {
            &&& s.registered_projects.contains(#[trigger] d.projects[k])
            &&& qualifies(s.projects, d.projects[k], e.risk_profile, e.monthly_drip_amount)
        } by {
            assert(d.projects[k] == m[k]);
        }
    }
}

/// The project tags that the user prefers, each found anywhere among the
/// preferred tags.
pub open spec fn is_preferred(preferred: Seq<Seq<char>>) -> spec_fn(Seq<char>) -> bool {
    |x: Seq<char>| preferred.contains(x)
}

/// The number of a project's tags that occur anywhere among the preferred
/// tags (a tag listed twice on the project counts twice).
pub open spec fn preferred_count(project_tags: Seq<Seq<char>>, preferred: Seq<Seq<char>>) -> nat {
    project_tags.filter(is_preferred(preferred)).len()
}

/// A project's tag score counts exactly its tags that occur anywhere among
/// the user's preferred tags, and so lies between zero and its number of tags.
pub proof fn lemma_tag_score_counts_preferred_tags(
    project_tags: Seq<Seq<char>>,
    preferred: Seq<Seq<char>>,
)
    ensures
        tag_score(project_tags, preferred) == preferred_count(project_tags, preferred),
        0 <= tag_score(project_tags, preferred) <= project_tags.len(),
    decreases project_tags.len(),
{
    reveal(Seq::filter);
    project_tags.lemma_filter_len(is_preferred(preferred));
    if project_tags.len() > 0 {
        lemma_tag_score_counts_preferred_tags(project_tags.drop_last(), preferred);
    }
}

/// Eligible projects keep their order of registration.
pub proof fn lemma_eligible_in_registration_order(
    registered: Seq<Seq<char>>,
    projects: Map<Seq<char>, crate::types::ProjectEntryView>,
    risk_profile: RiskLevel,
    preferred: Seq<Seq<char>>,
    monthly_drip_amount: i128,
)
    ensures
        forall|k1: int, k2: int|
            0 <= k1 < k2 < eligible(registered, projects, risk_profile, preferred, monthly_drip_amount).len()
                ==> exists|a: int, b: int|
                0 <= a < b < registered.len() && registered[a] == (#[trigger] eligible(
                    registered,
                    projects,
                    risk_profile,
                    preferred,
                    monthly_drip_amount,
                )[k1]).1 && registered[b] == (#[trigger] eligible(
                    registered,
                    projects,
                    risk_profile,
                    preferred,
                    monthly_drip_amount,
                )[k2]).1,
    decreases registered.len(),
{
    if registered.len() > 0 {
        let rest = registered.drop_last();
        lemma_eligible_in_registration_order(rest, projects, risk_profile, preferred, monthly_drip_amount);
        lemma_eligible_members(rest, projects, risk_profile, preferred, monthly_drip_amount);
        let e0 = eligible(rest, projects, risk_profile, preferred, monthly_drip_amount);
        let e = eligible(registered, projects, risk_profile, preferred, monthly_drip_amount);
        assert forall|k1: int, k2: int| 0 <= k1 < k2 < e.len() implies exists|a: int, b: int|
            0 <= a < b < registered.len() && registered[a] == (#[trigger] e[k1]).1 && registered[b]
                == (#[trigger] e[k2]).1 by {
            assert(e[k1] == e0[k1]);
            if k2 < e0.len() {
                assert(e[k2] == e0[k2]);
                let (a, b) = choose|a: int, b: int|
                    0 <= a < b < rest.len() && rest[a] == (#[trigger] e0[k1]).1 && rest[b] == (
                    #[trigger] e0[k2]).1;
                assert(registered[a] == rest[a] && registered[b] == rest[b]);
            } else {
                let a = choose|a: int| 0 <= a < rest.len() && rest[a] == e0[k1].1;
                assert(registered[a] == rest[a]);
                assert(registered[registered.len() - 1] == e[k2].1);
            }
        }
    }
}

/// The offered projects are ordered by how many of their tags occur anywhere
/// among the user's preferred tags, most first; projects carrying equally many
/// come in order of registration.
pub proof fn lemma_matched_ranked_by_preferred_tags(
    s: PoolState,
    risk_profile: RiskLevel,
    preferred: Seq<Seq<char>>,
    monthly_drip_amount: i128,
)
    ensures
        ({
            let m = s.match_projects(risk_profile, preferred, monthly_drip_amount);
            forall|i: int, j: int|
                0 <= i < j < m.len() ==> {
                    &&& s.projects.contains_key(#[trigger] m[i])
                    &&& s.projects.contains_key(#[trigger] m[j])
                    &&& preferred_count(s.projects[m[i]].tags, preferred) >= preferred_count(
                        s.projects[m[j]].tags,
                        preferred,
                    )
                    &&& preferred_count(s.projects[m[i]].tags, preferred) == preferred_count(
                        s.projects[m[j]].tags,
                        preferred,
                    ) ==> exists|a: int, b: int|
                        0 <= a < b < s.registered_projects.len() && s.registered_projects[a] == m[i]
                            && s.registered_projects[b] == m[j]
                }
        }),
{
    let reg = s.registered_projects;
    let e = eligible(reg, s.projects, risk_profile, preferred, monthly_drip_amount);
    let r = ranked(indexed(e));
    let m = s.match_projects(risk_profile, preferred, monthly_drip_amount);
    lemma_matched_order(s, risk_profile, preferred, monthly_drip_amount);
    lemma_eligible_members(reg, s.projects, risk_profile, preferred, monthly_drip_amount);
    lemma_eligible_in_registration_order(reg, s.projects, risk_profile, preferred, monthly_drip_amount);
    assert forall|i: int, j: int| 0 <= i < j < m.len() implies {
        &&& s.projects.contains_key(#[trigger] m[i])
        &&& s.projects.contains_key(#[trigger] m[j])
        &&& preferred_count(s.projects[m[i]].tags, preferred) >= preferred_count(
            s.projects[m[j]].tags,
            preferred,
        )
        &&& preferred_count(s.projects[m[i]].tags, preferred) == preferred_count(
            s.projects[m[j]].tags,
            preferred,
        ) ==> exists|a: int, b: int|
            0 <= a < b < reg.len() && reg[a] == m[i] && reg[b] == m[j]
    } by {
        assert(r[i].0 >= r[j].0);
        let ki = r[i].1;
        let kj = r[j].1;
        assert(m[i] == e[ki].1);
        assert(m[j] == e[kj].1);
        assert(e[ki] == eligible(reg, s.projects, risk_profile, preferred, monthly_drip_amount)[ki]);
        assert(e[kj] == eligible(reg, s.projects, risk_profile, preferred, monthly_drip_amount)[kj]);
        lemma_tag_score_counts_preferred_tags(s.projects[m[i]].tags, preferred);
        lemma_tag_score_counts_preferred_tags(s.projects[m[j]].tags, preferred);
        if r[i].0 == r[j].0 {
            assert(ki < kj);
        }
    }
}

/// A successful deposit stores an entry made of exactly the arguments: the
/// user, the amount as deposit and remaining balance, the risk profile, the
/// preferred tags and the monthly drip, with the drip clock at `now`, nothing
/// invested and not paused; reading the user's pool gives that entry back.
pub proof fn lemma_deposit_stores_arguments(
    s: PoolState,
    user: Seq<char>,
    amount: i128,
    risk_profile: RiskLevel,
    preferred_tags: Seq<Seq<char>>,
    monthly_drip_amount: i128,
    now: u64,
)
    requires
        s.deposit(user, amount, risk_profile, preferred_tags, monthly_drip_amount, now).1 is Ok,
    ensures
        ({
            let s1 = s.deposit(user, amount, risk_profile, preferred_tags, monthly_drip_amount, now).0;
            let e = s1.pools[user];
            &&& s1.pools.contains_key(user)
            &&& s1.get_pool(user) == Ok::<PoolEntryView, Error>(e)
            &&& e.user == user
            &&& e.total_deposited == amount
            &&& e.remaining_balance == amount
            &&& e.monthly_drip_amount == monthly_drip_amount
            &&& e.risk_profile == risk_profile
            &&& e.preferred_tags == preferred_tags
            &&& !e.is_paused
            &&& e.last_drip_ledger == now
            &&& e.invested_projects.len() == 0
            &&& forall|other: Seq<char>| other != user ==> #[trigger] s1.pools.contains_key(other)
                == s.pools.contains_key(other) && (s.pools.contains_key(other) ==> s1.pools[other]
                == s.pools[other])
            &&& s1.registered_projects == s.registered_projects
            &&& s1.projects == s.projects
            &&& s1.admin == s.admin
            &&& s1.is_paused == s.is_paused
        }),
{
}

/// Pausing and resuming succeed exactly when the user has an entry; pausing
/// leaves it paused and resuming leaves it unpaused, each changing nothing
/// else of the entry or of the pool.
pub proof fn lemma_pause_and_resume_set_the_flag(s: PoolState, user: Seq<char>)
    ensures
        s.pause(user).1 is Ok <==> s.pools.contains_key(user),
        s.resume(user).1 is Ok <==> s.pools.contains_key(user),
        s.pause(user).1 is Err ==> s.pause(user) == (s, Err::<(), Error>(Error::EntryNotFound)),
        s.resume(user).1 is Err ==> s.resume(user) == (s, Err::<(), Error>(Error::EntryNotFound)),
        s.pools.contains_key(user) ==> ({
            let e = s.pools[user];
            let p = s.pause(user).0;
            let r = s.resume(user).0;
            &&& p.pools.contains_key(user) && p.pools[user].is_paused
            &&& r.pools.contains_key(user) && !r.pools[user].is_paused
            &&& p.pools[user].user == e.user && r.pools[user].user == e.user
            &&& p.pools[user].total_deposited == e.total_deposited
            &&& r.pools[user].total_deposited == e.total_deposited
            &&& p.pools[user].remaining_balance == e.remaining_balance
            &&& r.pools[user].remaining_balance == e.remaining_balance
            &&& p.pools[user].monthly_drip_amount == e.monthly_drip_amount
            &&& r.pools[user].monthly_drip_amount == e.monthly_drip_amount
            &&& p.pools[user].risk_profile == e.risk_profile
            &&& r.pools[user].risk_profile == e.risk_profile
            &&& p.pools[user].preferred_tags == e.preferred_tags
            &&& r.pools[user].preferred_tags == e.preferred_tags
            &&& p.pools[user].last_drip_ledger == e.last_drip_ledger
            &&& r.pools[user].last_drip_ledger == e.last_drip_ledger
            &&& p.pools[user].invested_projects == e.invested_projects
            &&& r.pools[user].invested_projects == e.invested_projects
            &&& p.pools.remove(user) == s.pools.remove(user)
            &&& r.pools.remove(user) == s.pools.remove(user)
            &&& p.is_paused == s.is_paused && r.is_paused == s.is_paused
            &&& p.projects == s.projects && r.projects == s.projects
            &&& p.registered_projects == s.registered_projects
            &&& r.registered_projects == s.registered_projects
            &&& p.admin == s.admin && r.admin == s.admin
        }),
{
    if s.pools.contains_key(user) {
        assert(s.pause(user).0.pools.remove(user) =~= s.pools.remove(user));
        assert(s.resume(user).0.pools.remove(user) =~= s.pools.remove(user));
    }
}

/// Reading a user's pool gives the stored entry whenever there is one, and
/// `EntryNotFound` only when there is none; a stored entry is exactly what
/// makes a valid deposit fail with `EntryAlreadyExists`; and an entry stays
/// readable after every successful drip, whatever its balance.
pub proof fn lemma_get_pool_reads_storage(
    s: PoolState,
    user: Seq<char>,
    amount: i128,
    risk_profile: RiskLevel,
    preferred_tags: Seq<Seq<char>>,
    monthly_drip_amount: i128,
    now: u64,
)
    ensures
        s.get_pool(user) is Ok <==> s.pools.contains_key(user),
        s.get_pool(user) is Ok ==> s.get_pool(user)->Ok_0 == s.pools[user],
        s.get_pool(user) is Err ==> s.get_pool(user) == Err::<PoolEntryView, Error>(
            Error::EntryNotFound,
        ),
        !s.is_paused && amount > 0 && 0 < monthly_drip_amount <= amount && preferred_tags.len() > 0
            ==> (s.deposit(user, amount, risk_profile, preferred_tags, monthly_drip_amount, now).1
            == Err::<(), Error>(Error::EntryAlreadyExists) <==> s.get_pool(user) is Ok),
        s.execute_drip(user, now).1 is Ok ==> s.execute_drip(user, now).0.get_pool(user) is Ok
            && s.execute_drip(user, now).0.get_pool(user)->Ok_0 == s.execute_drip(user, now).0.pools[user],
{
}

/// A pool initialises exactly when it has no administrator yet; then the given
/// administrator is stored, the pool is unpaused and the registry starts
/// empty, and entries are untouched. A refused initialisation changes nothing.
pub proof fn lemma_initialize_effect(s: PoolState, admin: Seq<char>)
    ensures
        s.initialize(admin).1 is Ok <==> s.admin is None,
        s.initialize(admin).1 is Err ==> s.initialize(admin) == (s, Err::<(), Error>(
            Error::EntryAlreadyExists,
        )),
        s.initialize(admin).1 is Ok ==> ({
            let s1 = s.initialize(admin).0;
            &&& s1.admin == Some(admin)
            &&& !s1.is_paused
            &&& s1.registered_projects.len() == 0
            &&& s1.projects == s.projects
            &&& s1.pools == s.pools
        }),
{
}

/// The administrator's pause and resume succeed exactly when the pool has an
/// administrator; they set the global flag and nothing else. A refused one
/// changes nothing.
pub proof fn lemma_global_pause_effect(s: PoolState, paused: bool)
    ensures
        s.set_global_pause(paused).1 is Ok <==> s.admin is Some,
        s.set_global_pause(paused).1 is Err ==> s.set_global_pause(paused) == (s, Err::<(), Error>(
            Error::NotAuthorised,
        )),
        s.set_global_pause(paused).1 is Ok ==> ({
            let s1 = s.set_global_pause(paused).0;
            &&& s1.is_paused == paused
            &&& s1.admin == s.admin
            &&& s1.registered_projects == s.registered_projects
            &&& s1.projects == s.projects
            &&& s1.pools == s.pools
        }),
{
}

/// Registration succeeds exactly when the pool has an administrator and the
/// address is new; the project is then stored with exactly the given risk,
/// tags, activity and minimum, appended to the registry, and nothing else
/// changes. A refusal says why and changes nothing.
pub proof fn lemma_register_project_effect(
    s: PoolState,
    p: Seq<char>,
    risk_level: RiskLevel,
    tags: Seq<Seq<char>>,
    is_active: bool,
    minimum_investment: i128,
)
    ensures
        ({
            let (s1, r) = s.register_project(p, risk_level, tags, is_active, minimum_investment);
            &&& r is Ok <==> s.admin is Some && !s.projects.contains_key(p)
            &&& s.admin is None ==> (s1, r) == (s, Err::<(), Error>(Error::NotAuthorised))
            &&& s.admin is Some && s.projects.contains_key(p) ==> (s1, r) == (s, Err::<(), Error>(
                Error::ProjectAlreadyRegistered,
            ))
            &&& r is Ok ==> {
                &&& s1.projects.contains_key(p)
                &&& s1.projects[p].project_address == p
                &&& s1.projects[p].risk_level == risk_level
                &&& s1.projects[p].tags == tags
                &&& s1.projects[p].is_active == is_active
                &&& s1.projects[p].minimum_investment == minimum_investment
                &&& s1.projects.remove(p) == s.projects
                &&& s1.registered_projects == s.registered_projects.push(p)
                &&& s1.pools == s.pools
                &&& s1.admin == s.admin
                &&& s1.is_paused == s.is_paused
            }
        }),
{
    if s.register_project(p, risk_level, tags, is_active, minimum_investment).1 is Ok {
        assert(s.register_project(p, risk_level, tags, is_active, minimum_investment).0.projects.remove(p)
            =~= s.projects);
    }
}

/// Deregistration succeeds exactly when the pool has an administrator and the
/// project is stored; the project then becomes inactive and keeps everything
/// else, and nothing else changes. A refusal says why and changes nothing.
pub proof fn lemma_deregister_project_effect(s: PoolState, p: Seq<char>)
    ensures
        ({
            let (s1, r) = s.deregister_project(p);
            &&& r is Ok <==> s.admin is Some && s.projects.contains_key(p)
            &&& s.admin is None ==> (s1, r) == (s, Err::<(), Error>(Error::NotAuthorised))
            &&& s.admin is Some && !s.projects.contains_key(p) ==> (s1, r) == (s, Err::<(), Error>(
                Error::ProjectNotFound,
            ))
            &&& r is Ok ==> {
                &&& s1.projects.contains_key(p)
                &&& !s1.projects[p].is_active
                &&& s1.projects[p].project_address == s.projects[p].project_address
                &&& s1.projects[p].risk_level == s.projects[p].risk_level
                &&& s1.projects[p].tags == s.projects[p].tags
                &&& s1.projects[p].minimum_investment == s.projects[p].minimum_investment
                &&& s1.projects.remove(p) == s.projects.remove(p)
                &&& s1.registered_projects == s.registered_projects
                &&& s1.pools == s.pools
                &&& s1.admin == s.admin
                &&& s1.is_paused == s.is_paused
            }
        }),
{
    if s.deregister_project(p).1 is Ok {
        assert(s.deregister_project(p).0.projects.remove(p) =~= s.projects.remove(p));
    }
}

/// A withdrawal succeeds exactly when the user has an entry and asks for at
/// most the remaining balance (all of it when no amount is named); it pays
/// out the amount asked, lowers only the remaining balance, removes the entry
/// once nothing is left, and touches nothing else. A refusal says why and
/// changes nothing.
pub proof fn lemma_withdraw_effect(s: PoolState, user: Seq<char>, amount: Option<i128>)
    requires
        s.wf(),
        amount matches Some(a) ==> a >= 0,
    ensures
        ({
            let (s1, r) = s.withdraw(user, amount);
            &&& !s.pools.contains_key(user) ==> (s1, r) == (s, Err::<i128, Error>(Error::EntryNotFound))
            &&& s.pools.contains_key(user) ==> {
                let e = s.pools[user];
                let w: i128 = match amount {
                    Some(a) => a,
                    None => e.remaining_balance,
                };
                &&& w > e.remaining_balance ==> (s1, r) == (s, Err::<i128, Error>(
                    Error::WithdrawalExceedsBalance,
                ))
                &&& w <= e.remaining_balance ==> {
                    &&& r == Ok::<i128, Error>(w)
                    &&& s1.pools.remove(user) == s.pools.remove(user)
                    &&& s1.admin == s.admin && s1.is_paused == s.is_paused
                    &&& s1.projects == s.projects
                    &&& s1.registered_projects == s.registered_projects
                    &&& (w == e.remaining_balance <==> !s1.pools.contains_key(user))
                    &&& s1.pools.contains_key(user) ==> {
                        let e1 = s1.pools[user];
                        &&& e1.remaining_balance == e.remaining_balance - w
                        &&& e1.user == e.user
                        &&& e1.total_deposited == e.total_deposited
                        &&& e1.monthly_drip_amount == e.monthly_drip_amount
                        &&& e1.risk_profile == e.risk_profile
                        &&& e1.preferred_tags == e.preferred_tags
                        &&& e1.is_paused == e.is_paused
                        &&& e1.last_drip_ledger == e.last_drip_ledger
                        &&& e1.invested_projects == e.invested_projects
                    }
                }
            }
        }),
{
    if s.pools.contains_key(user) {
        let (s1, r) = s.withdraw(user, amount);
        if r is Ok {
            assert(s1.pools.remove(user) =~= s.pools.remove(user));
        }
    }
}

/// When a drip succeeds, and why it is refused: a drip of `user` at `now`
/// succeeds exactly when the pool is not paused, the user has an unpaused
/// entry, a month has passed since its last drip (or the clock stands at its
/// end) and the remaining balance covers the monthly amount. Each refusal
/// names the first failed condition and changes nothing.
pub proof fn lemma_drip_accepted_iff(s: PoolState, user: Seq<char>, now: u64)
    ensures
        ({
            let (s1, r) = s.execute_drip(user, now);
            let e = s.pools[user];
            let month_passed = if e.last_drip_ledger + SECONDS_PER_MONTH <= u64::MAX {
                now >= e.last_drip_ledger + SECONDS_PER_MONTH
            } else {
                now == u64::MAX
            };
            &&& r is Ok <==> !s.is_paused && s.pools.contains_key(user) && !e.is_paused
                && month_passed && e.remaining_balance >= e.monthly_drip_amount
            &&& s.is_paused ==> (s1, r) == (s, Err::<DripView, Error>(Error::ContractPaused))
            &&& !s.is_paused && !s.pools.contains_key(user) ==> (s1, r) == (s, Err::<DripView, Error>(
                Error::EntryNotFound,
            ))
            &&& !s.is_paused && s.pools.contains_key(user) && e.is_paused ==> (s1, r) == (s, Err::<
                DripView,
                Error,
            >(Error::UserPaused))
            &&& !s.is_paused && s.pools.contains_key(user) && !e.is_paused && !month_passed ==> (s1, r)
                == (s, Err::<DripView, Error>(Error::DripCooldownNotMet))
            &&& !s.is_paused && s.pools.contains_key(user) && !e.is_paused && month_passed
                && e.remaining_balance < e.monthly_drip_amount ==> (s1, r) == (s, Err::<
                DripView,
                Error,
            >(Error::InsufficientBalance))
        }),
{
}

/// What a successful drip does: with `m` the projects offered to the user,
/// it invests in the first `min(m.len(), 5)` of them, each receiving the
/// monthly amount divided by their number (nothing when none is offered);
/// the balance falls by exactly what is invested, the drip clock moves to
/// `now`, the entry keeps everything else, and no other entry, project or
/// setting changes.
pub proof fn lemma_drip_effect(s: PoolState, user: Seq<char>, now: u64)
    requires
        s.wf(),
        s.execute_drip(user, now).1 is Ok,
    ensures
        ({
            let (s1, r) = s.execute_drip(user, now);
            let d = r->Ok_0;
            let e = s.pools[user];
            let e1 = s1.pools[user];
            let m = s.match_projects(e.risk_profile, e.preferred_tags, e.monthly_drip_amount);
            let n = d.projects.len();
            &&& n == if m.len() < crate::DEFAULT_MAX_PROJECTS_PER_DRIP {
                m.len()
            } else {
                crate::DEFAULT_MAX_PROJECTS_PER_DRIP as nat
            }
            &&& d.projects == m.take(n as int)
            &&& n > 0 ==> d.amount_per_project == e.monthly_drip_amount / (n as i128)
            &&& n == 0 ==> d.amount_per_project == 0
            &&& s1.pools.contains_key(user)
            &&& e1.remaining_balance == e.remaining_balance - d.amount_per_project * n
            &&& e1.invested_projects == e.invested_projects + d.projects
            &&& e1.last_drip_ledger == now
            &&& e1.user == e.user
            &&& e1.total_deposited == e.total_deposited
            &&& e1.monthly_drip_amount == e.monthly_drip_amount
            &&& e1.risk_profile == e.risk_profile
            &&& e1.preferred_tags == e.preferred_tags
            &&& e1.is_paused == e.is_paused
            &&& s1.pools.remove(user) == s.pools.remove(user)
            &&& s1.projects == s.projects
            &&& s1.registered_projects == s.registered_projects
            &&& s1.admin == s.admin
            &&& s1.is_paused == s.is_paused
        }),
{
    lemma_drip_accounting(s, user, now);
    let (s1, r) = s.execute_drip(user, now);
    assert(s1.pools.remove(user) =~= s.pools.remove(user));
}

/// The risk levels are ordered Conservative < Moderate < Aggressive.
pub proof fn lemma_risk_levels_ordered()
    ensures
        RiskLevel::Conservative.level() < RiskLevel::Moderate.level(),
        RiskLevel::Moderate.level() < RiskLevel::Aggressive.level(),
{
}

/// The offered projects are exactly the registered ones that are active, no
/// riskier than the profile and ask at most the monthly drip; when the
/// registry lists each project once, each is offered once.
pub proof fn lemma_matched_filters(
    s: PoolState,
    risk_profile: RiskLevel,
    preferred: Seq<Seq<char>>,
    monthly_drip_amount: i128,
)
    ensures
        ({
            let m = s.match_projects(risk_profile, preferred, monthly_drip_amount);
            &&& forall|k: int|
                0 <= k < m.len() ==> {
                    &&& s.registered_projects.contains(#[trigger] m[k])
                    &&& s.projects.contains_key(m[k])
                    &&& s.projects[m[k]].is_active
                    &&& s.projects[m[k]].risk_level.level() <= risk_profile.level()
                    &&& s.projects[m[k]].minimum_investment <= monthly_drip_amount
                }
            &&& forall|k: int|
                0 <= k < s.registered_projects.len() && s.projects.contains_key(
                    #[trigger] s.registered_projects[k],
                ) && s.projects[s.registered_projects[k]].is_active
                    && s.projects[s.registered_projects[k]].risk_level.level() <= risk_profile.level()
                    && s.projects[s.registered_projects[k]].minimum_investment <= monthly_drip_amount
                    ==> m.contains(s.registered_projects[k])
            &&& (forall|i: int, j: int|
                0 <= i < j < s.registered_projects.len() ==> s.registered_projects[i]
                    != s.registered_projects[j]) ==> forall|i: int, j: int|
                0 <= i < j < m.len() ==> #[trigger] m[i] != #[trigger] m[j]
        }),
{
    let reg = s.registered_projects;
    let m = s.match_projects(risk_profile, preferred, monthly_drip_amount);
    lemma_matched_exactly_the_qualifying(s, risk_profile, preferred, monthly_drip_amount);
    assert forall|k: int|
        0 <= k < reg.len() && s.projects.contains_key(#[trigger] reg[k]) && s.projects[reg[k]].is_active
            && s.projects[reg[k]].risk_level.level() <= risk_profile.level()
            && s.projects[reg[k]].minimum_investment <= monthly_drip_amount implies m.contains(reg[k]) by {
        assert(qualifies(s.projects, reg[k], risk_profile, monthly_drip_amount));
    }
    if forall|i: int, j: int| 0 <= i < j < reg.len() ==> reg[i] != reg[j] {
        let e = eligible(reg, s.projects, risk_profile, preferred, monthly_drip_amount);
        let r = ranked(indexed(e));
        lemma_matched_order(s, risk_profile, preferred, monthly_drip_amount);
        lemma_eligible_in_registration_order(reg, s.projects, risk_profile, preferred, monthly_drip_amount);
        assert forall|i: int, j: int| 0 <= i < j < m.len() implies #[trigger] m[i] != #[trigger] m[j] by {
            assert(m[i] == e[r[i].1].1);
            assert(m[j] == e[r[j].1].1);
            if r[i].1 == r[j].1 {
                assert(r[i].0 == e[r[i].1].0 && r[j].0 == e[r[j].1].0);
                assert(r[i].1 < r[j].1);
            }
            let (k1, k2) = if r[i].1 < r[j].1 { (r[i].1, r[j].1) } else { (r[j].1, r[i].1) };
            assert(e[k1] == eligible(reg, s.projects, risk_profile, preferred, monthly_drip_amount)[k1]);
            assert(e[k2] == eligible(reg, s.projects, risk_profile, preferred, monthly_drip_amount)[k2]);
            let (a, b) = choose|a: int, b: int|
                0 <= a < b < reg.len() && reg[a] == (#[trigger] eligible(
                    reg,
                    s.projects,
                    risk_profile,
                    preferred,
                    monthly_drip_amount,
                )[k1]).1 && reg[b] == (#[trigger] eligible(
                    reg,
                    s.projects,
                    risk_profile,
                    preferred,
                    monthly_drip_amount,
                )[k2]).1;
        }
    }
}

/// Why a deposit is refused: each check names its own error, in the order
/// global pause, amount, monthly drip, tags, existing entry; a refusal changes
/// nothing.
pub proof fn lemma_deposit_refusals(
    s: PoolState,
    user: Seq<char>,
    amount: i128,
    risk_profile: RiskLevel,
    preferred_tags: Seq<Seq<char>>,
    monthly_drip_amount: i128,
    now: u64,
)
    ensures
        ({
            let (s1, r) = s.deposit(user, amount, risk_profile, preferred_tags, monthly_drip_amount, now);
            &&& r is Err ==> s1 == s
            &&& s.is_paused ==> r == Err::<(), Error>(Error::ContractPaused)
            &&& !s.is_paused && amount <= 0 ==> r == Err::<(), Error>(Error::InvalidDepositAmount)
            &&& !s.is_paused && amount > 0 && (monthly_drip_amount <= 0 || monthly_drip_amount > amount)
                ==> r == Err::<(), Error>(Error::InvalidDripAmount)
            &&& !s.is_paused && amount > 0 && 0 < monthly_drip_amount <= amount && preferred_tags.len()
                == 0 ==> r == Err::<(), Error>(Error::InvalidDripAmount)
            &&& !s.is_paused && amount > 0 && 0 < monthly_drip_amount <= amount && preferred_tags.len()
                > 0 && s.pools.contains_key(user) ==> r == Err::<(), Error>(Error::EntryAlreadyExists)
        }),
{
}

} // verus!
