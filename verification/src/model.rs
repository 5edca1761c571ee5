//! The mathematical model of the pool: its state and what each call does to it.
use vstd::prelude::*;

use crate::ranking::ranked;
use crate::types::{
    Error, PoolEntryView, ProjectEntryView, RiskLevel, DEFAULT_MAX_PROJECTS_PER_DRIP,
    SECONDS_PER_MONTH,
};

verus! {

/// What the pool's storage holds.
pub struct PoolState {
    /// The administrator, once the pool is initialised.
    pub admin: Option<Seq<char>>,
    /// Whether the administrator has paused the whole pool.
    pub is_paused: bool,
    /// Project addresses in order of registration.
    pub registered_projects: Seq<Seq<char>>,
    /// Registered projects by address.
    pub projects: Map<Seq<char>, ProjectEntryView>,
    /// Users' pool entries by user address.
    pub pools: Map<Seq<char>, PoolEntryView>,
}

/// What a successful drip invests: the projects, in order, and the amount
/// each of them receives.
pub struct DripView {
    pub projects: Seq<Seq<char>>,
    pub amount_per_project: i128,
}

/// The number of a project's tags that are among the user's preferred tags
/// (a project tag that occurs twice counts twice).
pub open spec fn tag_score(project_tags: Seq<Seq<char>>, preferred: Seq<Seq<char>>) -> int
    decreases project_tags.len(),
{
    if project_tags.len() == 0 {
        0
    } else {
        tag_score(project_tags.drop_last(), preferred) + if preferred.contains(
            project_tags.last(),
        ) {
            1int
        } else {
            0int
        }
    }
}

/// The project registered at `addr` exists, is active, is not riskier than
/// the user's profile and asks for no more than the monthly drip.
pub open spec fn qualifies(
    projects: Map<Seq<char>, ProjectEntryView>,
    addr: Seq<char>,
    risk_profile: RiskLevel,
    monthly_drip_amount: i128,
) -> bool {
    &&& projects.contains_key(addr)
    &&& projects[addr].risk_level.level() <= risk_profile.level()
    &&& projects[addr].is_active
    &&& projects[addr].minimum_investment <= monthly_drip_amount
}

/// The registered projects that qualify, each with its tag score, in order of
/// registration.
pub open spec fn eligible(
    registered: Seq<Seq<char>>,
    projects: Map<Seq<char>, ProjectEntryView>,
    risk_profile: RiskLevel,
    preferred: Seq<Seq<char>>,
    monthly_drip_amount: i128,
) -> Seq<(int, Seq<char>)>
    decreases registered.len(),
{
    if registered.len() == 0 {
        Seq::empty()
    } else {
        let rest = eligible(
            registered.drop_last(),
            projects,
            risk_profile,
            preferred,
            monthly_drip_amount,
        );
        let addr = registered.last();
        if qualifies(projects, addr, risk_profile, monthly_drip_amount) {
            rest.push((tag_score(projects[addr].tags, preferred), addr))
        } else {
            rest
        }
    }
}

/// Each scored project paired with its position.
pub open spec fn indexed(e: Seq<(int, Seq<char>)>) -> Seq<(int, int)> {
    Seq::new(e.len(), |k: int| (e[k].0, k))
}

/// The qualifying projects ranked by descending tag score, projects of equal
/// score in order of registration.
pub open spec fn matched(
    registered: Seq<Seq<char>>,
    projects: Map<Seq<char>, ProjectEntryView>,
    risk_profile: RiskLevel,
    preferred: Seq<Seq<char>>,
    monthly_drip_amount: i128,
) -> Seq<Seq<char>> {
    let e = eligible(registered, projects, risk_profile, preferred, monthly_drip_amount);
    ranked(indexed(e)).map_values(|p: (int, int)| e[p.1].1)
}

/// `t + SECONDS_PER_MONTH`, saturated at `u64::MAX`.
pub open spec fn cooldown_end(t: u64) -> u64 {
    if t + SECONDS_PER_MONTH > u64::MAX {
        u64::MAX
    } else {
        (t + SECONDS_PER_MONTH) as u64
    }
}

/// The entry that a successful deposit creates.
pub open spec fn new_pool_entry(
    user: Seq<char>,
    amount: i128,
    risk_profile: RiskLevel,
    preferred_tags: Seq<Seq<char>>,
    monthly_drip_amount: i128,
    now: u64,
) -> PoolEntryView {
    PoolEntryView {
        user,
        total_deposited: amount,
        remaining_balance: amount,
        monthly_drip_amount,
        risk_profile,
        preferred_tags,
        is_paused: false,
        last_drip_ledger: now,
        invested_projects: Seq::empty(),
    }
}

impl PoolState {
    /// Storage before anything was written.
    pub open spec fn empty() -> PoolState {
        PoolState {
            admin: None,
            is_paused: false,
            registered_projects: Seq::empty(),
            projects: Map::empty(),
            pools: Map::empty(),
        }
    }

    /// Every stored entry is filed under its own address, and every pool entry
    /// keeps the balance rules.
    pub open spec fn wf(self) -> bool {
        &&& forall|u: Seq<char>| #[trigger]
            self.pools.contains_key(u) ==> self.pools[u].user == u && self.pools[u].balanced()
        &&& forall|a: Seq<char>| #[trigger]
            self.projects.contains_key(a) ==> self.projects[a].project_address == a
    }

    pub open spec fn initialize(self, admin: Seq<char>) -> (PoolState, Result<(), Error>) {
        if self.admin is Some {
            (self, Err(Error::EntryAlreadyExists))
        } else {
            (
                PoolState {
                    admin: Some(admin),
                    is_paused: false,
                    registered_projects: Seq::empty(),
                    ..self
                },
                Ok(()),
            )
        }
    }

    pub open spec fn deposit(
        self,
        user: Seq<char>,
        amount: i128,
        risk_profile: RiskLevel,
        preferred_tags: Seq<Seq<char>>,
        monthly_drip_amount: i128,
        now: u64,
    ) -> (PoolState, Result<(), Error>) {
        if self.is_paused {
            (self, Err(Error::ContractPaused))
        } else if amount <= 0 {
            (self, Err(Error::InvalidDepositAmount))
        } else if monthly_drip_amount <= 0 || monthly_drip_amount > amount {
            (self, Err(Error::InvalidDripAmount))
        } else if preferred_tags.len() == 0 {
            (self, Err(Error::InvalidDripAmount))
        } else if self.pools.contains_key(user) {
            (self, Err(Error::EntryAlreadyExists))
        } else {
            (
                PoolState {
                    pools: self.pools.insert(
                        user,
                        new_pool_entry(
                            user,
                            amount,
                            risk_profile,
                            preferred_tags,
                            monthly_drip_amount,
                            now,
                        ),
                    ),
                    ..self
                },
                Ok(()),
            )
        }
    }

    /// The projects that [`PoolState::match_projects`] offers for the given
    /// profile.
    pub open spec fn match_projects(
        self,
        risk_profile: RiskLevel,
        preferred_tags: Seq<Seq<char>>,
        monthly_drip_amount: i128,
    ) -> Seq<Seq<char>> {
        matched(
            self.registered_projects,
            self.projects,
            risk_profile,
            preferred_tags,
            monthly_drip_amount,
        )
    }

    pub open spec fn execute_drip(self, user: Seq<char>, now: u64) -> (
        PoolState,
        Result<DripView, Error>,
    ) {
        if self.is_paused {
            (self, Err(Error::ContractPaused))
        } else if !self.pools.contains_key(user) {
            (self, Err(Error::EntryNotFound))
        } else {
            let e = self.pools[user];
            if e.is_paused {
                (self, Err(Error::UserPaused))
            } else if now < cooldown_end(e.last_drip_ledger) {
                (self, Err(Error::DripCooldownNotMet))
            } else if e.remaining_balance < e.monthly_drip_amount {
                (self, Err(Error::InsufficientBalance))
            } else {
                let m = self.match_projects(
                    e.risk_profile,
                    e.preferred_tags,
                    e.monthly_drip_amount,
                );
                if m.len() == 0 {
                    (
                        PoolState {
                            pools: self.pools.insert(
                                user,
                                PoolEntryView { last_drip_ledger: now, ..e },
                            ),
                            ..self
                        },
                        Ok(DripView { projects: Seq::empty(), amount_per_project: 0 }),
                    )
                } else {
                    let n: int = if m.len() < DEFAULT_MAX_PROJECTS_PER_DRIP {
                        m.len() as int
                    } else {
                        DEFAULT_MAX_PROJECTS_PER_DRIP as int
                    };
                    let per: int = (e.monthly_drip_amount as int) / n;
                    let chosen = m.take(n);
                    (
                        PoolState {
                            pools: self.pools.insert(
                                user,
                                PoolEntryView {
                                    remaining_balance: (e.remaining_balance - per * n) as i128,
                                    invested_projects: e.invested_projects + chosen,
                                    last_drip_ledger: now,
                                    ..e
                                },
                            ),
                            ..self
                        },
                        Ok(DripView { projects: chosen, amount_per_project: per as i128 }),
                    )
                }
            }
        }
    }

    /// Sets the user's own pause flag.
    pub open spec fn set_user_paused(self, user: Seq<char>, paused: bool) -> (
        PoolState,
        Result<(), Error>,
    ) {
        if !self.pools.contains_key(user) {
            (self, Err(Error::EntryNotFound))
        } else {
            (
                PoolState {
                    pools: self.pools.insert(
                        user,
                        PoolEntryView { is_paused: paused, ..self.pools[user] },
                    ),
                    ..self
                },
                Ok(()),
            )
        }
    }

    pub open spec fn pause(self, user: Seq<char>) -> (PoolState, Result<(), Error>) {
        self.set_user_paused(user, true)
    }

    pub open spec fn resume(self, user: Seq<char>) -> (PoolState, Result<(), Error>) {
        self.set_user_paused(user, false)
    }

    pub open spec fn withdraw(self, user: Seq<char>, amount: Option<i128>) -> (
        PoolState,
        Result<i128, Error>,
    ) {
        if !self.pools.contains_key(user) {
            (self, Err(Error::EntryNotFound))
        } else {
            let e = self.pools[user];
            let w = match amount {
                Some(a) => a,
                None => e.remaining_balance,
            };
            if w > e.remaining_balance {
                (self, Err(Error::WithdrawalExceedsBalance))
            } else if e.remaining_balance - w == 0 {
                (PoolState { pools: self.pools.remove(user), ..self }, Ok(w))
            } else {
                (
                    PoolState {
                        pools: self.pools.insert(
                            user,
                            PoolEntryView {
                                remaining_balance: (e.remaining_balance - w) as i128,
                                ..e
                            },
                        ),
                        ..self
                    },
                    Ok(w),
                )
            }
        }
    }

    pub open spec fn register_project(
        self,
        project_address: Seq<char>,
        risk_level: RiskLevel,
        tags: Seq<Seq<char>>,
        is_active: bool,
        minimum_investment: i128,
    ) -> (PoolState, Result<(), Error>) {
        if self.admin is None {
            (self, Err(Error::NotAuthorised))
        } else if self.projects.contains_key(project_address) {
            (self, Err(Error::ProjectAlreadyRegistered))
        } else {
            (
                PoolState {
                    registered_projects: self.registered_projects.push(project_address),
                    projects: self.projects.insert(
                        project_address,
                        ProjectEntryView {
                            project_address,
                            risk_level,
                            tags,
                            is_active,
                            minimum_investment,
                        },
                    ),
                    ..self
                },
                Ok(()),
            )
        }
    }

    pub open spec fn deregister_project(self, project_address: Seq<char>) -> (
        PoolState,
        Result<(), Error>,
    ) {
        if self.admin is None {
            (self, Err(Error::NotAuthorised))
        } else if !self.projects.contains_key(project_address) {
            (self, Err(Error::ProjectNotFound))
        } else {
            (
                PoolState {
                    projects: self.projects.insert(
                        project_address,
                        ProjectEntryView { is_active: false, ..self.projects[project_address] },
                    ),
                    ..self
                },
                Ok(()),
            )
        }
    }

    /// Sets the global pause flag; only an initialised pool has an
    /// administrator to do so.
    pub open spec fn set_global_pause(self, paused: bool) -> (PoolState, Result<(), Error>) {
        if self.admin is None {
            (self, Err(Error::NotAuthorised))
        } else {
            (PoolState { is_paused: paused, ..self }, Ok(()))
        }
    }

    pub open spec fn get_pool(self, user: Seq<char>) -> Result<PoolEntryView, Error> {
        if self.pools.contains_key(user) {
            Ok(self.pools[user])
        } else {
            Err(Error::EntryNotFound)
        }
    }
}

/// A call that changes the pool, with its arguments (the reads
/// `get_pool` and `match_projects` change nothing).
pub enum Call {
    Initialize { admin: Seq<char> },
    Deposit {
        user: Seq<char>,
        amount: i128,
        risk_profile: RiskLevel,
        preferred_tags: Seq<Seq<char>>,
        monthly_drip_amount: i128,
        now: u64,
    },
    ExecuteDrip { user: Seq<char>, now: u64 },
    Pause { user: Seq<char> },
    Resume { user: Seq<char> },
    Withdraw { user: Seq<char>, requested: Option<i128> },
    RegisterProject {
        project_address: Seq<char>,
        risk_level: RiskLevel,
        tags: Seq<Seq<char>>,
        is_active: bool,
        minimum_investment: i128,
    },
    DeregisterProject { project_address: Seq<char> },
    AdminPauseContract,
    AdminResumeContract,
}

impl Call {
    /// The call can be made: a withdrawal names no negative amount (the token
    /// transfer refuses one).
    pub open spec fn admissible(self) -> bool {
        self matches Call::Withdraw { requested: Some(a), .. } ==> a >= 0
    }

    /// The ledger time the call reads, if it reads one.
    pub open spec fn time(self) -> Option<u64> {
        match self {
            Call::Deposit { now, .. } => Some(now),
            Call::ExecuteDrip { now, .. } => Some(now),
            _ => None,
        }
    }

    /// The time of the call if it is a drip of `u`.
    pub open spec fn drip_time_of(self, u: Seq<char>) -> Option<u64> {
        match self {
            Call::ExecuteDrip { user, now } => if user == u {
                Some(now)
            } else {
                None
            },
            _ => None,
        }
    }

    /// The call is a withdrawal of `u`.
    pub open spec fn withdraws(self, u: Seq<char>) -> bool {
        match self {
            Call::Withdraw { user, .. } => user == u,
            _ => false,
        }
    }

    /// The call is a resume of `u`.
    pub open spec fn resumes(self, u: Seq<char>) -> bool {
        match self {
            Call::Resume { user } => user == u,
            _ => false,
        }
    }

    /// The call is a deposit of `u`.
    pub open spec fn deposits(self, u: Seq<char>) -> bool {
        match self {
            Call::Deposit { user, .. } => user == u,
            _ => false,
        }
    }

    /// The call acts on the pool entry of `u`.
    pub open spec fn concerns(self, u: Seq<char>) -> bool {
        match self {
            Call::Deposit { user, .. } => user == u,
            Call::ExecuteDrip { user, .. } => user == u,
            Call::Pause { user } => user == u,
            Call::Resume { user } => user == u,
            Call::Withdraw { user, .. } => user == u,
            _ => false,
        }
    }
}

impl PoolState {
    /// The state after `c`, whether `c` succeeds or not.
    pub open spec fn apply(self, c: Call) -> PoolState {
        match c {
            Call::Initialize { admin } => self.initialize(admin).0,
            Call::Deposit {
                user,
                amount,
                risk_profile,
                preferred_tags,
                monthly_drip_amount,
                now,
            } => self.deposit(user, amount, risk_profile, preferred_tags, monthly_drip_amount, now).0,
            Call::ExecuteDrip { user, now } => self.execute_drip(user, now).0,
            Call::Pause { user } => self.pause(user).0,
            Call::Resume { user } => self.resume(user).0,
            Call::Withdraw { user, requested } => self.withdraw(user, requested).0,
            Call::RegisterProject {
                project_address,
                risk_level,
                tags,
                is_active,
                minimum_investment,
            } => self.register_project(
                project_address,
                risk_level,
                tags,
                is_active,
                minimum_investment,
            ).0,
            Call::DeregisterProject { project_address } => self.deregister_project(
                project_address,
            ).0,
            Call::AdminPauseContract => self.set_global_pause(true).0,
            Call::AdminResumeContract => self.set_global_pause(false).0,
        }
    }

    /// The state after the calls, in order.
    pub open spec fn run(self, calls: Seq<Call>) -> PoolState
        decreases calls.len(),
    {
        if calls.len() == 0 {
            self
        } else {
            self.run(calls.drop_last()).apply(calls.last())
        }
    }

    /// The rules every state reached from empty storage keeps: entries filed
    /// under their own address, balance rules, a preferred tag on every entry;
    /// the registry lists each project once, in step with the projects; and
    /// before initialisation nothing is registered or paused.
    pub open spec fn consistent(self) -> bool {
        &&& self.wf()
        &&& forall|u: Seq<char>| #[trigger]
            self.pools.contains_key(u) ==> self.pools[u].preferred_tags.len() > 0
        &&& forall|i: int, j: int|
            0 <= i < j < self.registered_projects.len() ==> #[trigger] self.registered_projects[i]
                != #[trigger] self.registered_projects[j]
        &&& forall|i: int|
            0 <= i < self.registered_projects.len() ==> self.projects.contains_key(
                #[trigger] self.registered_projects[i],
            )
        &&& forall|a: Seq<char>| #[trigger]
            self.projects.contains_key(a) ==> self.registered_projects.contains(a)
        &&& self.admin is None ==> self.registered_projects.len() == 0 && !self.is_paused
    }
}

} // verus!
