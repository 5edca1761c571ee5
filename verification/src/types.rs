use vstd::prelude::*;

verus! {

/// Approximately 30 days in seconds.
pub const SECONDS_PER_MONTH: u64 = 2_592_000;

/// Maximum number of projects to invest in per drip cycle.
pub const DEFAULT_MAX_PROJECTS_PER_DRIP: u32 = 5;

/// Risk levels for users and projects, from the least to the most risky.
#[derive(Clone, Copy, Debug, PartialEq, Eq, Structural, PartialOrd, Ord)]
pub enum RiskLevel {
    Conservative,
    Moderate,
    Aggressive,
}

impl RiskLevel {
    /// Position of the level in the order Conservative < Moderate < Aggressive.
    pub open spec fn level(self) -> int {
        match self {
            RiskLevel::Conservative => 0,
            RiskLevel::Moderate => 1,
            RiskLevel::Aggressive => 2,
        }
    }

    /// Whether `self` is a strictly riskier level than `other`.
    pub fn exceeds(&self, other: &RiskLevel) -> (r: bool)
        ensures
            r == (self.level() > other.level()),
    {
        let a: u8 = match self {
            RiskLevel::Conservative => 0,
            RiskLevel::Moderate => 1,
            RiskLevel::Aggressive => 2,
        };
        let b: u8 = match other {
            RiskLevel::Conservative => 0,
            RiskLevel::Moderate => 1,
            RiskLevel::Aggressive => 2,
        };
        a > b
    }
}

/// Every error the pool reports.
#[derive(Clone, Copy, Debug, PartialEq, Eq, Structural)]
pub enum Error {
    InsufficientBalance,
    EntryAlreadyExists,
    EntryNotFound,
    NotAuthorised,
    ContractPaused,
    UserPaused,
    DripCooldownNotMet,
    NoEligibleProjects,
    InvalidDepositAmount,
    InvalidDripAmount,
    ProjectNotFound,
    ProjectAlreadyRegistered,
    WithdrawalExceedsBalance,
    NotInitialized,
}

/// A user's pool entry. Addresses and tags are held as their text.
pub struct PoolEntry {
    pub user: String,
    pub total_deposited: i128,
    pub remaining_balance: i128,
    pub monthly_drip_amount: i128,
    pub risk_profile: RiskLevel,
    pub preferred_tags: Vec<String>,
    pub is_paused: bool,
    pub last_drip_ledger: u64,
    pub invested_projects: Vec<String>,
}

/// A registered project.
pub struct ProjectEntry {
    pub project_address: String,
    pub risk_level: RiskLevel,
    pub tags: Vec<String>,
    pub is_active: bool,
    pub minimum_investment: i128,
}

/// The mathematical value of a [`PoolEntry`].
pub struct PoolEntryView {
    pub user: Seq<char>,
    pub total_deposited: i128,
    pub remaining_balance: i128,
    pub monthly_drip_amount: i128,
    pub risk_profile: RiskLevel,
    pub preferred_tags: Seq<Seq<char>>,
    pub is_paused: bool,
    pub last_drip_ledger: u64,
    pub invested_projects: Seq<Seq<char>>,
}

/// The mathematical value of a [`ProjectEntry`].
pub struct ProjectEntryView {
    pub project_address: Seq<char>,
    pub risk_level: RiskLevel,
    pub tags: Seq<Seq<char>>,
    pub is_active: bool,
    pub minimum_investment: i128,
}

impl View for PoolEntry {
    type V = PoolEntryView;

    open spec fn view(&self) -> PoolEntryView {
        PoolEntryView {
            user: self.user@,
            total_deposited: self.total_deposited,
            remaining_balance: self.remaining_balance,
            monthly_drip_amount: self.monthly_drip_amount,
            risk_profile: self.risk_profile,
            preferred_tags: self.preferred_tags.deep_view(),
            is_paused: self.is_paused,
            last_drip_ledger: self.last_drip_ledger,
            invested_projects: self.invested_projects.deep_view(),
        }
    }
}

impl View for ProjectEntry {
    type V = ProjectEntryView;

    open spec fn view(&self) -> ProjectEntryView {
        ProjectEntryView {
            project_address: self.project_address@,
            risk_level: self.risk_level,
            tags: self.tags.deep_view(),
            is_active: self.is_active,
            minimum_investment: self.minimum_investment,
        }
    }
}

impl PoolEntryView {
    /// The balance rules every stored entry keeps: the monthly drip is positive
    /// and at most the deposit, and the remaining balance lies between zero and
    /// the deposit.
    pub open spec fn balanced(self) -> bool {
        &&& 0 < self.monthly_drip_amount <= self.total_deposited
        &&& 0 <= self.remaining_balance <= self.total_deposited
    }
}

/// A copy of a list of strings.
pub fn copy_strings(v: &Vec<String>) -> (r: Vec<String>)
    ensures
        r.deep_view() == v.deep_view(),
{
    let mut r: Vec<String> = Vec::new();
    let mut i: usize = 0;
    while i < v.len()
        invariant
            i <= v.len(),
            r@.len() == i,
            forall|k: int| 0 <= k < i ==> #[trigger] r@[k]@ == v@[k]@,
        decreases v.len() - i,
    {
        let s = v[i].clone();
        r.push(s);
        i = i + 1;
    }
    assert(r.deep_view() =~= v.deep_view());
    r
}

impl Clone for PoolEntry {
    fn clone(&self) -> (r: Self)
        ensures
            r@ == self@,
    {
        PoolEntry {
            user: self.user.clone(),
            total_deposited: self.total_deposited,
            remaining_balance: self.remaining_balance,
            monthly_drip_amount: self.monthly_drip_amount,
            risk_profile: self.risk_profile,
            preferred_tags: copy_strings(&self.preferred_tags),
            is_paused: self.is_paused,
            last_drip_ledger: self.last_drip_ledger,
            invested_projects: copy_strings(&self.invested_projects),
        }
    }
}

impl Clone for ProjectEntry {
    fn clone(&self) -> (r: Self)
        ensures
            r@ == self@,
    {
        ProjectEntry {
            project_address: self.project_address.clone(),
            risk_level: self.risk_level,
            tags: copy_strings(&self.tags),
            is_active: self.is_active,
            minimum_investment: self.minimum_investment,
        }
    }
}

} // verus!
