//! What holds of the pool over any sequence of calls.
use vstd::prelude::*;

use crate::laws::{
    lemma_balance_rules_kept, lemma_drip_accounting, lemma_drip_invests_only_suitable_projects,
    lemma_global_pause_blocks_deposit_and_drip, lemma_matched_exactly_the_qualifying,
};
use crate::model::{cooldown_end, Call, DripView, PoolState};
use crate::types::{Error, PoolEntryView, RiskLevel, SECONDS_PER_MONTH};

verus! {

/// A property that each allowed call keeps holds after every run of allowed
/// calls.
pub proof fn lemma_run_keeps(
    s: PoolState,
    calls: Seq<Call>,
    inv: spec_fn(PoolState) -> bool,
    allowed: spec_fn(PoolState, Call) -> bool,
)
    requires
        inv(s),
        forall|t: PoolState, c: Call| inv(t) && #[trigger] allowed(t, c) ==> inv(t.apply(c)),
        forall|k: int| 0 <= k < calls.len() ==> allowed(s.run(calls.take(k)), #[trigger] calls[k]),
    ensures
        inv(s.run(calls)),
    decreases calls.len(),
{
    if calls.len() > 0 {
        let d = calls.drop_last();
        assert forall|k: int| 0 <= k < d.len() implies allowed(s.run(d.take(k)), #[trigger] d[k]) by {
            assert(d.take(k) =~= calls.take(k));
            assert(d[k] == calls[k]);
        }
        lemma_run_keeps(s, d, inv, allowed);
        let n = calls.len() - 1;
        assert(calls.take(n) =~= d);
        assert(allowed(s.run(calls.take(n)), calls[n]));
    }
}

/// A call that does not act on `u`'s entry leaves it as it was.
pub proof fn lemma_other_calls_keep_entry(t: PoolState, c: Call, u: Seq<char>)
    requires
        !c.concerns(u),
    ensures
        t.apply(c).pools.contains_key(u) == t.pools.contains_key(u),
        t.pools.contains_key(u) ==> t.apply(c).pools[u] == t.pools[u],
{
}

/// Every allowed call keeps a consistent state consistent.
pub proof fn lemma_call_keeps_consistent(t: PoolState, c: Call)
    requires
        t.consistent(),
        c.admissible(),
    ensures
        t.apply(c).consistent(),
{
    let t1 = t.apply(c);
    match c {
        Call::Initialize { admin } => {
            if t.admin is None {
                assert forall|a: Seq<char>| #[trigger] t1.projects.contains_key(a) implies t1.registered_projects.contains(a) by {
                    assert(t.registered_projects.contains(a));
                }
            }
        },
        Call::Deposit { user, amount, risk_profile, preferred_tags, monthly_drip_amount, now } => {
            lemma_balance_rules_kept(
                t,
                user,
                amount,
                risk_profile,
                preferred_tags,
                monthly_drip_amount,
                now,
                None,
            );
        },
        Call::ExecuteDrip { user, now } => {
            lemma_drip_accounting(t, user, now);
        },
        Call::Pause { user } => {
            lemma_balance_rules_kept(t, user, 0, RiskLevel::Moderate, Seq::empty(), 0, 0, None);
        },
        Call::Resume { user } => {
            lemma_balance_rules_kept(t, user, 0, RiskLevel::Moderate, Seq::empty(), 0, 0, None);
        },
        Call::Withdraw { user, requested } => {
            lemma_balance_rules_kept(t, user, 0, RiskLevel::Moderate, Seq::empty(), 0, 0, requested);
        },
        Call::RegisterProject { project_address, risk_level, tags, is_active, minimum_investment } => {
            if t.admin is Some && !t.projects.contains_key(project_address) {
                let r = t.registered_projects;
                assert(!r.contains(project_address));
                let r1 = r.push(project_address);
                assert(t1.registered_projects == r1);
                assert forall|i: int, j: int| 0 <= i < j < r1.len() implies #[trigger] r1[i] != #[trigger] r1[j] by {
                    if j == r.len() {
                        assert(r[i] == r1[i]);
                    } else {
                        assert(r[i] == r1[i] && r[j] == r1[j]);
                    }
                }
                assert forall|i: int| 0 <= i < r1.len() implies t1.projects.contains_key(#[trigger] r1[i]) by {
                    if i < r.len() {
                        assert(r[i] == r1[i]);
                    }
                }
                assert forall|a: Seq<char>| #[trigger] t1.projects.contains_key(a) implies r1.contains(a) by {
                    if a == project_address {
                        assert(r1[r.len() as int] == a);
                    } else {
                        let i = choose|i: int| 0 <= i < r.len() && r[i] == a;
                        assert(r1[i] == a);
                    }
                }
            }
        },
        Call::DeregisterProject { project_address } => {},
        Call::AdminPauseContract => {},
        Call::AdminResumeContract => {},
    }
}

/// Every state reached from empty storage by allowed calls is consistent: each
/// entry is filed under its own address, keeps the balance rules and prefers
/// some tag; the registry lists each project once and exactly the stored
/// projects.
pub proof fn lemma_reachable_states_consistent(calls: Seq<Call>)
    requires
        forall|k: int| 0 <= k < calls.len() ==> (#[trigger] calls[k]).admissible(),
    ensures
        PoolState::empty().run(calls).consistent(),
{
    lemma_consistent_runs_stay_consistent(PoolState::empty(), calls);
}

/// A consistent state stays consistent through any allowed calls.
pub proof fn lemma_consistent_runs_stay_consistent(s: PoolState, calls: Seq<Call>)
    requires
        s.consistent() || s == PoolState::empty(),
        forall|k: int| 0 <= k < calls.len() ==> (#[trigger] calls[k]).admissible(),
    ensures
        s.run(calls).consistent(),
{
    let inv = |t: PoolState| t.consistent();
    let allowed = |t: PoolState, c: Call| c.admissible();
    assert(PoolState::empty().registered_projects =~= Seq::<Seq<char>>::empty());
    assert(inv(s));
    assert forall|t: PoolState, c: Call| inv(t) && #[trigger] allowed(t, c) implies inv(t.apply(c)) by {
        lemma_call_keeps_consistent(t, c);
    }
    assert forall|k: int| 0 <= k < calls.len() implies allowed(s.run(calls.take(k)), #[trigger] calls[k]) by {}
    lemma_run_keeps(s, calls, inv, allowed);
}

/// Once initialised, the pool keeps its administrator through any calls.
pub proof fn lemma_admin_is_fixed(s: PoolState, admin: Seq<char>, calls: Seq<Call>)
    requires
        s.admin == Some(admin),
    ensures
        s.run(calls).admin == Some(admin),
{
    let inv = |t: PoolState| t.admin == Some(admin);
    let allowed = |t: PoolState, c: Call| true;
    assert forall|t: PoolState, c: Call| inv(t) && #[trigger] allowed(t, c) implies inv(t.apply(c)) by {}
    assert forall|k: int| 0 <= k < calls.len() implies allowed(s.run(calls.take(k)), #[trigger] calls[k]) by {}
    lemma_run_keeps(s, calls, inv, allowed);
}

/// The administrator's pause lasts until the administrator resumes: through
/// any calls but `admin_resume_contract`, the pool stays paused, and every
/// deposit and drip is refused with `ContractPaused` and changes nothing.
pub proof fn lemma_global_pause_lasts(s: PoolState, calls: Seq<Call>)
    requires
        s.set_global_pause(true).1 is Ok,
        forall|k: int| 0 <= k < calls.len() ==> !(#[trigger] calls[k] is AdminResumeContract),
    ensures
        ({
            let s2 = s.set_global_pause(true).0.run(calls);
            &&& s2.is_paused
            &&& forall|user: Seq<char>, amount: i128, risk_profile: RiskLevel, preferred_tags: Seq<Seq<char>>, monthly_drip_amount: i128, now: u64|
                #[trigger] s2.deposit(user, amount, risk_profile, preferred_tags, monthly_drip_amount, now)
                    == (s2, Err::<(), Error>(Error::ContractPaused))
            &&& forall|user: Seq<char>, now: u64|
                #[trigger] s2.execute_drip(user, now) == (s2, Err::<DripView, Error>(Error::ContractPaused))
        }),
{
    let s1 = s.set_global_pause(true).0;
    let inv = |t: PoolState| t.is_paused && t.admin is Some;
    let allowed = |t: PoolState, c: Call| !(c is AdminResumeContract);
    assert forall|t: PoolState, c: Call| inv(t) && #[trigger] allowed(t, c) implies inv(t.apply(c)) by {}
    assert forall|k: int| 0 <= k < calls.len() implies allowed(s1.run(calls.take(k)), #[trigger] calls[k]) by {}
    lemma_run_keeps(s1, calls, inv, allowed);
}

/// While `u`'s entry stays stored, its deposit, risk profile, preferred tags
/// and monthly drip never change.
pub proof fn lemma_entry_terms_fixed(s: PoolState, u: Seq<char>, calls: Seq<Call>)
    requires
        s.pools.contains_key(u),
        forall|k: int|
            0 <= k < calls.len() ==> s.run(calls.take(k)).apply(#[trigger] calls[k]).pools.contains_key(u),
    ensures
        ({
            let e = s.pools[u];
            let e2 = s.run(calls).pools[u];
            &&& s.run(calls).pools.contains_key(u)
            &&& e2.total_deposited == e.total_deposited
            &&& e2.risk_profile == e.risk_profile
            &&& e2.preferred_tags == e.preferred_tags
            &&& e2.monthly_drip_amount == e.monthly_drip_amount
        }),
{
    let e = s.pools[u];
    let inv = |t: PoolState| {
        &&& t.pools.contains_key(u)
        &&& t.pools[u].total_deposited == e.total_deposited
        &&& t.pools[u].risk_profile == e.risk_profile
        &&& t.pools[u].preferred_tags == e.preferred_tags
        &&& t.pools[u].monthly_drip_amount == e.monthly_drip_amount
    };
    let allowed = |t: PoolState, c: Call| t.apply(c).pools.contains_key(u);
    assert forall|t: PoolState, c: Call| inv(t) && #[trigger] allowed(t, c) implies inv(t.apply(c)) by {
        if !c.concerns(u) {
            lemma_other_calls_keep_entry(t, c, u);
        }
    }
    lemma_run_keeps(s, calls, inv, allowed);
}

/// A paused user is never dripped until resumed: through any calls that
/// neither resume nor open an entry for `u`, the entry stays paused with its
/// drip time unchanged or is gone, and every drip of `u` is refused and
/// changes nothing.
pub proof fn lemma_paused_user_not_dripped(s: PoolState, u: Seq<char>, calls: Seq<Call>)
    requires
        s.pause(u).1 is Ok,
        forall|k: int|
            0 <= k < calls.len() ==> !(#[trigger] calls[k]).resumes(u) && !calls[k].deposits(u),
    ensures
        ({
            let s2 = s.pause(u).0.run(calls);
            &&& s2.pools.contains_key(u) ==> s2.pools[u].is_paused
                && s2.pools[u].last_drip_ledger == s.pools[u].last_drip_ledger
            &&& forall|now: u64|
                #[trigger] s2.execute_drip(u, now).0 == s2 && (s2.execute_drip(u, now).1 == Err::<
                    DripView,
                    Error,
                >(Error::UserPaused) || s2.execute_drip(u, now).1 == Err::<DripView, Error>(
                    Error::ContractPaused,
                ) || s2.execute_drip(u, now).1 == Err::<DripView, Error>(Error::EntryNotFound))
        }),
{
    let s1 = s.pause(u).0;
    let last = s.pools[u].last_drip_ledger;
    let inv = |t: PoolState|
        t.pools.contains_key(u) ==> t.pools[u].is_paused && t.pools[u].last_drip_ledger == last;
    let allowed = |t: PoolState, c: Call| !c.resumes(u) && !c.deposits(u);
    assert forall|t: PoolState, c: Call| inv(t) && #[trigger] allowed(t, c) implies inv(t.apply(c)) by {
        if !c.concerns(u) {
            lemma_other_calls_keep_entry(t, c, u);
        }
    }
    assert forall|k: int| 0 <= k < calls.len() implies allowed(s1.run(calls.take(k)), #[trigger] calls[k]) by {}
    lemma_run_keeps(s1, calls, inv, allowed);
}

/// A drip that fails changes nothing.
pub proof fn lemma_failed_drip_changes_nothing(t: PoolState, u: Seq<char>, now: u64)
    ensures
        t.execute_drip(u, now).1 is Err ==> t.execute_drip(u, now).0 == t,
{
    if t.execute_drip(u, now).1 is Err {
        if !t.is_paused && t.pools.contains_key(u) {
            let e = t.pools[u];
            if !e.is_paused && now >= cooldown_end(e.last_drip_ledger) && e.remaining_balance
                >= e.monthly_drip_amount {
                assert(t.execute_drip(u, now).1 is Ok);
            }
        }
    }
}

/// A call keeps a stored inactive project stored and inactive.
pub proof fn lemma_call_keeps_inactive(t: PoolState, c: Call, p: Seq<char>)
    requires
        t.projects.contains_key(p),
        !t.projects[p].is_active,
    ensures
        t.apply(c).projects.contains_key(p),
        !t.apply(c).projects[p].is_active,
{
    match c {
        Call::RegisterProject { project_address, risk_level, tags, is_active, minimum_investment } => {},
        Call::DeregisterProject { project_address } => {},
        _ => {},
    }
}

/// A call other than a withdrawal of `u`, and other than a drip of `u` that
/// succeeds, keeps `u`'s entry and its remaining balance.
pub proof fn lemma_call_keeps_balance(t: PoolState, c: Call, u: Seq<char>, amount: i128)
    requires
        t.pools.contains_key(u),
        t.pools[u].remaining_balance == amount,
        !c.withdraws(u),
        c.drip_time_of(u) matches Some(now) ==> t.execute_drip(u, now).1 is Err,
    ensures
        t.apply(c).pools.contains_key(u),
        t.apply(c).pools[u].remaining_balance == amount,
{
    if !c.concerns(u) {
        lemma_other_calls_keep_entry(t, c, u);
    } else {
        match c {
            Call::ExecuteDrip { user, now } => {
                lemma_failed_drip_changes_nothing(t, u, now);
            },
            Call::Deposit { user, amount, risk_profile, preferred_tags, monthly_drip_amount, now } => {},
            Call::Pause { user } => {},
            Call::Resume { user } => {},
            _ => {},
        }
    }
}

/// After a deposit, as long as no drip of the user succeeds and the user
/// withdraws nothing, whatever else happens, withdrawing everything pays back
/// the whole deposit and removes the entry, after which the user may deposit
/// again.
pub proof fn lemma_full_withdrawal_after_deposit(
    s: PoolState,
    u: Seq<char>,
    amount: i128,
    risk_profile: RiskLevel,
    preferred_tags: Seq<Seq<char>>,
    monthly_drip_amount: i128,
    now: u64,
    calls: Seq<Call>,
)
    requires
        s.deposit(u, amount, risk_profile, preferred_tags, monthly_drip_amount, now).1 is Ok,
        forall|k: int|
            0 <= k < calls.len() ==> !(#[trigger] calls[k]).withdraws(u) && (calls[k].drip_time_of(u) matches Some(t)
                ==> s.deposit(u, amount, risk_profile, preferred_tags, monthly_drip_amount, now).0.run(
                calls.take(k),
            ).execute_drip(u, t).1 is Err),
    ensures
        ({
            let s2 = s.deposit(u, amount, risk_profile, preferred_tags, monthly_drip_amount, now).0.run(
                calls,
            );
            let (s3, r) = s2.withdraw(u, None);
            &&& r == Ok::<i128, Error>(amount)
            &&& !s3.pools.contains_key(u)
            &&& s3.deposit(u, amount, risk_profile, preferred_tags, monthly_drip_amount, now).1
                != Err::<(), Error>(Error::EntryAlreadyExists)
        }),
{
    let s1 = s.deposit(u, amount, risk_profile, preferred_tags, monthly_drip_amount, now).0;
    let inv = |t: PoolState|
        t.pools.contains_key(u) && t.pools[u].remaining_balance == amount;
    let allowed = |t: PoolState, c: Call|
        !c.withdraws(u) && (c.drip_time_of(u) matches Some(n) ==> t.execute_drip(u, n).1 is Err);
    assert forall|t: PoolState, c: Call| inv(t) && #[trigger] allowed(t, c) implies inv(t.apply(c)) by {
        lemma_call_keeps_balance(t, c, u, amount);
    }
    assert forall|k: int| 0 <= k < calls.len() implies allowed(s1.run(calls.take(k)), #[trigger] calls[k]) by {}
    lemma_run_keeps(s1, calls, inv, allowed);
}

/// `cooldown_end` never decreases.
pub proof fn lemma_cooldown_end_monotone(a: u64, b: u64)
    requires
        a <= b,
    ensures
        cooldown_end(a) <= cooldown_end(b),
{
}

/// Drips are spaced a month apart: if `u` has no entry or its last drip is at
/// `start` or later, then through calls that read no time before `start`, any
/// successful drip of `u` comes at `cooldown_end(start)` or later.
pub proof fn lemma_drips_spaced(s: PoolState, u: Seq<char>, start: u64, calls: Seq<Call>, t: u64)
    requires
        s.pools.contains_key(u) ==> s.pools[u].last_drip_ledger >= start,
        forall|k: int|
            0 <= k < calls.len() ==> ((#[trigger] calls[k]).time() matches Some(n) ==> n >= start),
        s.run(calls).execute_drip(u, t).1 is Ok,
    ensures
        t >= cooldown_end(start),
{
    let inv = |x: PoolState|
        x.pools.contains_key(u) ==> x.pools[u].last_drip_ledger >= start;
    let allowed = |x: PoolState, c: Call| (c.time() matches Some(n) ==> n >= start);
    assert forall|x: PoolState, c: Call| inv(x) && #[trigger] allowed(x, c) implies inv(x.apply(c)) by {
        if !c.concerns(u) {
            lemma_other_calls_keep_entry(x, c, u);
        }
    }
    assert forall|k: int| 0 <= k < calls.len() implies allowed(s.run(calls.take(k)), #[trigger] calls[k]) by {}
    lemma_run_keeps(s, calls, inv, allowed);
    let s2 = s.run(calls);
    lemma_cooldown_end_monotone(start, s2.pools[u].last_drip_ledger);
}

/// After a successful drip at `t1`, through calls that read no earlier time,
/// the next successful drip of the user comes at `cooldown_end(t1)` or later,
/// which is `t1 + SECONDS_PER_MONTH` unless that passes `u64::MAX`.
pub proof fn lemma_drip_after_drip(s: PoolState, u: Seq<char>, t1: u64, calls: Seq<Call>, t2: u64)
    requires
        s.execute_drip(u, t1).1 is Ok,
        forall|k: int|
            0 <= k < calls.len() ==> ((#[trigger] calls[k]).time() matches Some(n) ==> n >= t1),
        s.execute_drip(u, t1).0.run(calls).execute_drip(u, t2).1 is Ok,
    ensures
        t2 >= cooldown_end(t1),
        t1 + SECONDS_PER_MONTH <= u64::MAX ==> t2 >= t1 + SECONDS_PER_MONTH,
{
    lemma_drips_spaced(s.execute_drip(u, t1).0, u, t1, calls, t2);
}

/// After a deposit at `t0`, through calls that read no earlier time, the
/// user's first successful drip comes at `cooldown_end(t0)` or later.
pub proof fn lemma_drip_after_deposit(
    s: PoolState,
    u: Seq<char>,
    amount: i128,
    risk_profile: RiskLevel,
    preferred_tags: Seq<Seq<char>>,
    monthly_drip_amount: i128,
    t0: u64,
    calls: Seq<Call>,
    t: u64,
)
    requires
        s.deposit(u, amount, risk_profile, preferred_tags, monthly_drip_amount, t0).1 is Ok,
        forall|k: int|
            0 <= k < calls.len() ==> ((#[trigger] calls[k]).time() matches Some(n) ==> n >= t0),
        s.deposit(u, amount, risk_profile, preferred_tags, monthly_drip_amount, t0).0.run(
            calls,
        ).execute_drip(u, t).1 is Ok,
    ensures
        t >= cooldown_end(t0),
        t0 + SECONDS_PER_MONTH <= u64::MAX ==> t >= t0 + SECONDS_PER_MONTH,
{
    lemma_drips_spaced(
        s.deposit(u, amount, risk_profile, preferred_tags, monthly_drip_amount, t0).0,
        u,
        t0,
        calls,
        t,
    );
}

/// Once deregistered, a project stays stored and inactive through any allowed
/// calls, and the state stays consistent.
pub proof fn lemma_deregistered_stays_inactive(s: PoolState, p: Seq<char>, calls: Seq<Call>)
    requires
        s.consistent(),
        s.deregister_project(p).1 is Ok,
        forall|k: int| 0 <= k < calls.len() ==> (#[trigger] calls[k]).admissible(),
    ensures
        ({
            let s2 = s.deregister_project(p).0.run(calls);
            &&& s2.consistent()
            &&& s2.projects.contains_key(p)
            &&& !s2.projects[p].is_active
        }),
{
    let s1 = s.deregister_project(p).0;
    lemma_call_keeps_consistent(s, Call::DeregisterProject { project_address: p });
    let inv = |t: PoolState| t.consistent() && t.projects.contains_key(p) && !t.projects[p].is_active;
    let allowed = |t: PoolState, c: Call| c.admissible();
    assert forall|t: PoolState, c: Call| inv(t) && #[trigger] allowed(t, c) implies inv(t.apply(c)) by {
        lemma_call_keeps_consistent(t, c);
        lemma_call_keeps_inactive(t, c, p);
    }
    assert forall|k: int| 0 <= k < calls.len() implies allowed(s1.run(calls.take(k)), #[trigger] calls[k]) by {}
    lemma_run_keeps(s1, calls, inv, allowed);
}

/// In a consistent state, an inactive project cannot be registered again, no
/// match offers it and no drip invests in it.
pub proof fn lemma_inactive_project_left_out(s2: PoolState, p: Seq<char>)
    requires
        s2.consistent(),
        s2.projects.contains_key(p),
        !s2.projects[p].is_active,
    ensures
        forall|risk_level: RiskLevel, tags: Seq<Seq<char>>, is_active: bool, minimum_investment: i128|
            #[trigger] s2.register_project(p, risk_level, tags, is_active, minimum_investment)
                == (s2, Err::<(), Error>(Error::ProjectAlreadyRegistered)),
        forall|risk_profile: RiskLevel, preferred: Seq<Seq<char>>, monthly_drip_amount: i128|
            !(#[trigger] s2.match_projects(risk_profile, preferred, monthly_drip_amount)).contains(p),
        forall|user: Seq<char>, now: u64|
            (#[trigger] s2.execute_drip(user, now)).1 is Ok ==> !s2.execute_drip(user, now).1->Ok_0.projects.contains(p),
{
    assert(s2.registered_projects.contains(p));
    assert(s2.admin is Some);
    assert forall|risk_profile: RiskLevel, preferred: Seq<Seq<char>>, monthly_drip_amount: i128|
        !(#[trigger] s2.match_projects(risk_profile, preferred, monthly_drip_amount)).contains(p) by {
        lemma_matched_exactly_the_qualifying(s2, risk_profile, preferred, monthly_drip_amount);
    }
    assert forall|user: Seq<char>, now: u64|
        (#[trigger] s2.execute_drip(user, now)).1 is Ok implies !s2.execute_drip(user, now).1->Ok_0.projects.contains(p) by {
        lemma_drip_invests_only_suitable_projects(s2, user, now);
        let d = s2.execute_drip(user, now).1->Ok_0;
        if d.projects.contains(p) {
            let k = choose|k: int| 0 <= k < d.projects.len() && d.projects[k] == p;
        }
    }
}

/// Once deregistered, a project stays out for good: through any allowed calls
/// it stays stored but inactive, cannot be registered again, no match offers
/// it and no drip invests in it.
pub proof fn lemma_deregistered_stays_out(s: PoolState, p: Seq<char>, calls: Seq<Call>)
    requires
        s.consistent(),
        s.deregister_project(p).1 is Ok,
        forall|k: int| 0 <= k < calls.len() ==> (#[trigger] calls[k]).admissible(),
    ensures
        ({
            let s2 = s.deregister_project(p).0.run(calls);
            &&& s2.projects.contains_key(p)
            &&& !s2.projects[p].is_active
            &&& forall|risk_level: RiskLevel, tags: Seq<Seq<char>>, is_active: bool, minimum_investment: i128|
                #[trigger] s2.register_project(p, risk_level, tags, is_active, minimum_investment)
                    == (s2, Err::<(), Error>(Error::ProjectAlreadyRegistered))
            &&& forall|risk_profile: RiskLevel, preferred: Seq<Seq<char>>, monthly_drip_amount: i128|
                !(#[trigger] s2.match_projects(risk_profile, preferred, monthly_drip_amount)).contains(p)
            &&& forall|user: Seq<char>, now: u64|
                (#[trigger] s2.execute_drip(user, now)).1 is Ok ==> !s2.execute_drip(user, now).1->Ok_0.projects.contains(p)
        }),
{
    lemma_deregistered_stays_inactive(s, p, calls);
    lemma_inactive_project_left_out(s.deregister_project(p).0.run(calls), p);
}

/// What a pool looks like with its global pause set to `global` and, when `u`
/// has an entry, that entry's pause set to `user_paused`.
pub open spec fn with_pauses(s: PoolState, u: Seq<char>, global: bool, user_paused: bool) -> PoolState {
    PoolState {
        is_paused: global,
        pools: if s.pools.contains_key(u) {
            s.pools.insert(u, PoolEntryView { is_paused: user_paused, ..s.pools[u] })
        } else {
            s.pools
        },
        ..s
    }
}

/// Neither pause stops a withdrawal: with any global and user pause flags the
/// withdrawal gives the same result and changes the entry the same way.
pub proof fn lemma_withdraw_ignores_pauses(
    s: PoolState,
    u: Seq<char>,
    amount: Option<i128>,
    global: bool,
    user_paused: bool,
)
    ensures
        with_pauses(s, u, global, user_paused).withdraw(u, amount).1 == s.withdraw(u, amount).1,
        with_pauses(s, u, global, user_paused).withdraw(u, amount).0 == with_pauses(
            s.withdraw(u, amount).0,
            u,
            global,
            user_paused,
        ),
{
    let f = with_pauses(s, u, global, user_paused);
    if s.pools.contains_key(u) {
        let e = s.pools[u];
        let w = match amount {
            Some(a) => a,
            None => e.remaining_balance,
        };
        if w <= e.remaining_balance {
            if e.remaining_balance - w == 0 {
                assert(f.withdraw(u, amount).0.pools =~= s.withdraw(u, amount).0.pools);
            } else {
                assert(f.withdraw(u, amount).0.pools =~= with_pauses(
                    s.withdraw(u, amount).0,
                    u,
                    global,
                    user_paused,
                ).pools);
            }
        }
    }
}

} // verus!
