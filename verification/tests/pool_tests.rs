use auto_invest_pool::{AutoInvestPool, Error, PoolEntry, ProjectEntry, RiskLevel, SECONDS_PER_MONTH};

const CONTRACT: &str = "CPOOL";

fn s(x: &str) -> String {
    x.to_string()
}

fn tags(xs: &[&str]) -> Vec<String> {
    xs.iter().map(|x| x.to_string()).collect()
}

/// A token ledger standing in for the token contract that the pool moves
/// funds with.
struct Token {
    balances: Vec<(String, i128)>,
}

impl Token {
    fn balance(&self, who: &str) -> i128 {
        self.balances.iter().find(|(a, _)| a == who).map(|(_, b)| *b).unwrap_or(0)
    }

    fn add(&mut self, who: &str, amount: i128) {
        match self.balances.iter_mut().find(|(a, _)| a == who) {
            Some((_, b)) => *b += amount,
            None => self.balances.push((who.to_string(), amount)),
        }
    }

    fn transfer(&mut self, from: &str, to: &str, amount: i128) {
        assert!(amount >= 0, "negative amount is not allowed");
        assert!(self.balance(from) >= amount, "balance is not sufficient to spend");
        self.add(from, -amount);
        self.add(to, amount);
    }
}

struct TestContext {
    now: u64,
    admin: String,
    user: String,
    token: Token,
    contract: AutoInvestPool,
    next_project: u32,
}

impl TestContext {
    fn setup() -> Self {
        let admin = s("GADMIN");
        let user = s("GUSER");
        let mut contract = AutoInvestPool::new();
        contract.initialize(admin.clone()).unwrap();
        let mut token = Token { balances: Vec::new() };
        token.add(&user, 1_000_000);
        TestContext { now: 0, admin, user, token, contract, next_project: 0 }
    }

    fn register_mock_project(&mut self, risk: RiskLevel, tags: Vec<String>, min_inv: i128) -> String {
        self.next_project += 1;
        let project_addr = format!("CPROJECT{}", self.next_project);
        self.contract.register_project(project_addr.clone(), risk, tags, true, min_inv).unwrap();
        project_addr
    }

    /// Deposits as the contract does: the entry is opened, then the lump sum
    /// moves from the user to the pool.
    fn deposit(&mut self, amount: i128, risk: RiskLevel, tags: Vec<String>, monthly: i128) -> Result<(), Error> {
        let user = self.user.clone();
        let r = self.contract.deposit(user.clone(), amount, risk, tags, monthly, self.now);
        if r.is_ok() {
            self.token.transfer(&user, CONTRACT, amount);
        }
        r
    }

    fn withdraw(&mut self, amount: Option<i128>) -> Result<i128, Error> {
        let user = self.user.clone();
        let r = self.contract.withdraw(&user, amount);
        if let Ok(w) = r {
            self.token.transfer(CONTRACT, &user, w);
        }
        r
    }

    fn drip(&mut self) -> Result<Vec<String>, Error> {
        let user = self.user.clone();
        self.contract.execute_drip(&user, self.now).map(|d| d.projects)
    }
}

#[test]
fn test_deposit_and_drip_flow() {
    let mut ctx = TestContext::setup();
    ctx.deposit(1000, RiskLevel::Moderate, tags(&["tech", "green"]), 200).unwrap();

    assert_eq!(ctx.token.balance(&ctx.user), 999000);
    assert_eq!(ctx.token.balance(CONTRACT), 1000);

    let pool = ctx.contract.get_pool(&ctx.user).unwrap();
    assert_eq!(pool.remaining_balance, 1000);

    let p1 = ctx.register_mock_project(RiskLevel::Conservative, tags(&["tech"]), 50);
    let p2 = ctx.register_mock_project(RiskLevel::Moderate, tags(&["real", "green"]), 50);
    let p3 = ctx.register_mock_project(RiskLevel::Aggressive, tags(&["crypto"]), 50);

    ctx.now = ctx.now + SECONDS_PER_MONTH + 1;

    let invested = ctx.drip().unwrap();

    assert_eq!(invested.len(), 2);
    assert!(invested.contains(&p1));
    assert!(invested.contains(&p2));
    assert!(!invested.contains(&p3));

    let pool = ctx.contract.get_pool(&ctx.user).unwrap();
    assert_eq!(pool.remaining_balance, 800);
    assert_eq!(pool.invested_projects.len(), 2);
}

#[test]
fn test_matching_logic_ranking() {
    let mut ctx = TestContext::setup();
    let user_tags = tags(&["a", "b", "c"]);

    let p1 = ctx.register_mock_project(RiskLevel::Aggressive, user_tags.clone(), 10);
    let p2 = ctx.register_mock_project(RiskLevel::Aggressive, tags(&["a"]), 10);
    let p3 = ctx.register_mock_project(RiskLevel::Aggressive, tags(&["a", "b"]), 10);

    let matched = ctx.contract.match_projects(RiskLevel::Aggressive, &user_tags, 100);

    assert_eq!(matched[0], p1);
    assert_eq!(matched[1], p3);
    assert_eq!(matched[2], p2);
}

#[test]
fn test_pause_resume() {
    let mut ctx = TestContext::setup();
    ctx.deposit(1000, RiskLevel::Moderate, tags(&["a"]), 200).unwrap();

    let user = ctx.user.clone();
    ctx.contract.pause(&user).unwrap();
    ctx.contract.resume(&user).unwrap();
    ctx.now = ctx.now + SECONDS_PER_MONTH + 1;

    let drip_res = ctx.drip().unwrap();
    assert_eq!(drip_res.len(), 0);

    let fail_res = ctx.drip();
    assert_eq!(fail_res.err().unwrap(), Error::DripCooldownNotMet);
}

#[test]
fn test_withdrawals() {
    let mut ctx = TestContext::setup();
    ctx.deposit(1000, RiskLevel::Moderate, tags(&["a"]), 200).unwrap();

    ctx.withdraw(Some(400)).unwrap();
    assert_eq!(ctx.token.balance(&ctx.user), 999400);

    let pool = ctx.contract.get_pool(&ctx.user).unwrap();
    assert_eq!(pool.remaining_balance, 600);

    ctx.withdraw(None).unwrap();
    assert_eq!(ctx.token.balance(&ctx.user), 1000000);

    let res = ctx.contract.get_pool(&ctx.user);
    assert!(res.is_err());
}

#[test]
fn test_admin_global_pause() {
    let mut ctx = TestContext::setup();
    ctx.contract.admin_pause_contract().unwrap();

    let res = ctx.deposit(1000, RiskLevel::Moderate, tags(&["a"]), 200);
    assert_eq!(res.err().unwrap(), Error::ContractPaused);
}

#[test]
fn test_risk_filters() {
    let mut ctx = TestContext::setup();
    let p_cons = ctx.register_mock_project(RiskLevel::Conservative, Vec::new(), 10);
    let p_mod = ctx.register_mock_project(RiskLevel::Moderate, Vec::new(), 10);
    let _p_agg = ctx.register_mock_project(RiskLevel::Aggressive, Vec::new(), 10);

    let matched = ctx.contract.match_projects(RiskLevel::Conservative, &Vec::new(), 100);
    assert_eq!(matched.len(), 1);
    assert!(matched.contains(&p_cons));

    let matched = ctx.contract.match_projects(RiskLevel::Moderate, &Vec::new(), 100);
    assert_eq!(matched.len(), 2);
    assert!(matched.contains(&p_cons));
    assert!(matched.contains(&p_mod));

    let matched = ctx.contract.match_projects(RiskLevel::Aggressive, &Vec::new(), 100);
    assert_eq!(matched.len(), 3);
}

#[test]
fn test_admin_functions() {
    let mut ctx = TestContext::setup();
    let p1 = ctx.register_mock_project(RiskLevel::Conservative, Vec::new(), 10);

    ctx.contract.deregister_project(&p1).unwrap();

    let user_tags = Vec::new();
    let matched = ctx.contract.match_projects(RiskLevel::Aggressive, &user_tags, 100);
    assert_eq!(matched.len(), 0);
}

#[test]
fn test_errors() {
    let mut ctx = TestContext::setup();

    let admin = ctx.admin.clone();
    let res = ctx.contract.initialize(admin);
    assert_eq!(res.err().unwrap(), Error::EntryAlreadyExists);

    let t = tags(&["a"]);
    ctx.deposit(100, RiskLevel::Moderate, t.clone(), 100).unwrap();

    let res = ctx.deposit(100, RiskLevel::Moderate, t.clone(), 100);
    assert_eq!(res.err().unwrap(), Error::EntryAlreadyExists);

    ctx.now = ctx.now + SECONDS_PER_MONTH + 1;

    ctx.register_mock_project(RiskLevel::Moderate, t.clone(), 10);
    ctx.drip().unwrap();

    ctx.now = ctx.now + SECONDS_PER_MONTH + 1;
    let res = ctx.drip();
    assert_eq!(res.err().unwrap(), Error::InsufficientBalance);
}

// ---- further cases ----

#[test]
fn deposit_rejects_bad_amounts() {
    let mut ctx = TestContext::setup();
    assert_eq!(ctx.deposit(0, RiskLevel::Moderate, tags(&["a"]), 1), Err(Error::InvalidDepositAmount));
    assert_eq!(ctx.deposit(-5, RiskLevel::Moderate, tags(&["a"]), 1), Err(Error::InvalidDepositAmount));
    assert_eq!(ctx.deposit(100, RiskLevel::Moderate, tags(&["a"]), 0), Err(Error::InvalidDripAmount));
    assert_eq!(ctx.deposit(100, RiskLevel::Moderate, tags(&["a"]), 101), Err(Error::InvalidDripAmount));
    assert_eq!(ctx.deposit(100, RiskLevel::Moderate, Vec::new(), 10), Err(Error::InvalidDripAmount));
    assert!(ctx.contract.get_pool(&ctx.user).is_err());
    assert_eq!(ctx.token.balance(&ctx.user), 1_000_000);
}

#[test]
fn deposit_records_entry() {
    let mut ctx = TestContext::setup();
    ctx.now = 77;
    ctx.deposit(500, RiskLevel::Aggressive, tags(&["x", "y"]), 50).unwrap();
    let e: PoolEntry = ctx.contract.get_pool(&ctx.user).unwrap();
    assert_eq!(e.user, "GUSER");
    assert_eq!(e.total_deposited, 500);
    assert_eq!(e.remaining_balance, 500);
    assert_eq!(e.monthly_drip_amount, 50);
    assert_eq!(e.risk_profile, RiskLevel::Aggressive);
    assert_eq!(e.preferred_tags, tags(&["x", "y"]));
    assert!(!e.is_paused);
    assert_eq!(e.last_drip_ledger, 77);
    assert!(e.invested_projects.is_empty());
}

#[test]
fn missing_entries_are_reported() {
    let mut ctx = TestContext::setup();
    let nobody = s("GNOBODY");
    assert_eq!(ctx.contract.pause(&nobody), Err(Error::EntryNotFound));
    assert_eq!(ctx.contract.resume(&nobody), Err(Error::EntryNotFound));
    assert_eq!(ctx.contract.withdraw(&nobody, None), Err(Error::EntryNotFound));
    assert_eq!(ctx.contract.execute_drip(&nobody, 10).err().unwrap(), Error::EntryNotFound);
    assert_eq!(ctx.contract.get_pool(&nobody).err().unwrap(), Error::EntryNotFound);
    assert_eq!(ctx.contract.deregister_project(&s("CNONE")), Err(Error::ProjectNotFound));
}

#[test]
fn paused_user_is_not_dripped() {
    let mut ctx = TestContext::setup();
    ctx.deposit(1000, RiskLevel::Moderate, tags(&["a"]), 200).unwrap();
    let user = ctx.user.clone();
    ctx.contract.pause(&user).unwrap();
    assert!(ctx.contract.get_pool(&user).unwrap().is_paused);
    ctx.now = SECONDS_PER_MONTH * 3;
    assert_eq!(ctx.drip(), Err(Error::UserPaused));
    ctx.contract.resume(&user).unwrap();
    assert!(ctx.drip().is_ok());
}

#[test]
fn drip_waits_a_full_month() {
    let mut ctx = TestContext::setup();
    ctx.now = 1000;
    ctx.deposit(1000, RiskLevel::Moderate, tags(&["a"]), 200).unwrap();
    ctx.now = 1000 + SECONDS_PER_MONTH - 1;
    assert_eq!(ctx.drip(), Err(Error::DripCooldownNotMet));
    ctx.now = 1000 + SECONDS_PER_MONTH;
    assert_eq!(ctx.drip(), Ok(Vec::new()));
    assert_eq!(ctx.contract.get_pool(&ctx.user).unwrap().last_drip_ledger, 1000 + SECONDS_PER_MONTH);
    assert_eq!(ctx.contract.get_pool(&ctx.user).unwrap().remaining_balance, 1000);
}

#[test]
fn cooldown_saturates_near_the_end_of_time() {
    let mut ctx = TestContext::setup();
    ctx.now = u64::MAX - 10;
    ctx.deposit(1000, RiskLevel::Moderate, tags(&["a"]), 200).unwrap();
    assert_eq!(ctx.drip(), Err(Error::DripCooldownNotMet));
    ctx.now = u64::MAX;
    assert_eq!(ctx.drip(), Ok(Vec::new()));
}

#[test]
fn global_pause_blocks_drip_and_resume_lifts_it() {
    let mut ctx = TestContext::setup();
    ctx.deposit(1000, RiskLevel::Moderate, tags(&["a"]), 200).unwrap();
    ctx.contract.admin_pause_contract().unwrap();
    assert!(ctx.contract.is_globally_paused());
    ctx.now = SECONDS_PER_MONTH + 1;
    assert_eq!(ctx.drip(), Err(Error::ContractPaused));
    ctx.contract.admin_resume_contract().unwrap();
    assert!(!ctx.contract.is_globally_paused());
    assert!(ctx.drip().is_ok());
}

#[test]
fn admin_calls_need_an_initialised_pool() {
    let mut pool = AutoInvestPool::new();
    assert_eq!(pool.admin(), None);
    assert_eq!(pool.register_project(s("CP"), RiskLevel::Moderate, Vec::new(), true, 1), Err(Error::NotAuthorised));
    assert_eq!(pool.deregister_project(&s("CP")), Err(Error::NotAuthorised));
    assert_eq!(pool.admin_pause_contract(), Err(Error::NotAuthorised));
    assert_eq!(pool.admin_resume_contract(), Err(Error::NotAuthorised));
    assert_eq!(pool.initialize(s("GA")), Ok(()));
    assert_eq!(pool.admin(), Some(s("GA")));
    assert_eq!(pool.register_project(s("CP"), RiskLevel::Moderate, Vec::new(), true, 1), Ok(()));
    assert_eq!(pool.register_project(s("CP"), RiskLevel::Aggressive, Vec::new(), true, 1), Err(Error::ProjectAlreadyRegistered));
    assert_eq!(pool.registered_projects(), vec![s("CP")]);
}

#[test]
fn withdraw_more_than_balance_is_refused() {
    let mut ctx = TestContext::setup();
    ctx.deposit(1000, RiskLevel::Moderate, tags(&["a"]), 200).unwrap();
    assert_eq!(ctx.withdraw(Some(1001)), Err(Error::WithdrawalExceedsBalance));
    assert_eq!(ctx.contract.get_pool(&ctx.user).unwrap().remaining_balance, 1000);
    assert_eq!(ctx.withdraw(Some(1000)), Ok(1000));
    assert!(ctx.contract.get_pool(&ctx.user).is_err());
}

#[test]
fn withdraw_zero_keeps_entry() {
    let mut ctx = TestContext::setup();
    ctx.deposit(1000, RiskLevel::Moderate, tags(&["a"]), 200).unwrap();
    assert_eq!(ctx.withdraw(Some(0)), Ok(0));
    assert_eq!(ctx.contract.get_pool(&ctx.user).unwrap().remaining_balance, 1000);
}

#[test]
fn drip_is_capped_and_split_evenly() {
    let mut ctx = TestContext::setup();
    ctx.deposit(10_000, RiskLevel::Aggressive, tags(&["a"]), 1003).unwrap();
    let mut projects = Vec::new();
    for _ in 0..7 {
        projects.push(ctx.register_mock_project(RiskLevel::Conservative, tags(&["a"]), 1));
    }
    ctx.now = SECONDS_PER_MONTH;
    let user = ctx.user.clone();
    let d = ctx.contract.execute_drip(&user, ctx.now).unwrap();
    assert_eq!(d.projects, projects[..5].to_vec());
    assert_eq!(d.amount_per_project, 200);
    let e = ctx.contract.get_pool(&user).unwrap();
    assert_eq!(e.remaining_balance, 10_000 - 1000);
    assert_eq!(e.invested_projects, projects[..5].to_vec());
    assert_eq!(e.total_deposited, 10_000);
}

#[test]
fn drip_divides_among_fewer_projects() {
    let mut ctx = TestContext::setup();
    ctx.deposit(1000, RiskLevel::Moderate, tags(&["a"]), 100).unwrap();
    let p1 = ctx.register_mock_project(RiskLevel::Moderate, tags(&["a"]), 1);
    let p2 = ctx.register_mock_project(RiskLevel::Moderate, Vec::new(), 1);
    let p3 = ctx.register_mock_project(RiskLevel::Moderate, tags(&["a"]), 1);
    ctx.now = SECONDS_PER_MONTH;
    let user = ctx.user.clone();
    let d = ctx.contract.execute_drip(&user, ctx.now).unwrap();
    assert_eq!(d.projects, vec![p1, p3, p2]);
    assert_eq!(d.amount_per_project, 33);
    assert_eq!(ctx.contract.get_pool(&user).unwrap().remaining_balance, 1000 - 99);
}

#[test]
fn matching_filters_inactive_and_expensive_projects() {
    let mut ctx = TestContext::setup();
    let cheap = ctx.register_mock_project(RiskLevel::Moderate, Vec::new(), 100);
    let _dear = ctx.register_mock_project(RiskLevel::Moderate, Vec::new(), 101);
    ctx.contract.register_project(s("CIDLE"), RiskLevel::Moderate, Vec::new(), false, 1).unwrap();
    let matched = ctx.contract.match_projects(RiskLevel::Moderate, &Vec::new(), 100);
    assert_eq!(matched, vec![cheap]);
}

#[test]
fn ranking_keeps_registration_order_among_ties() {
    let mut ctx = TestContext::setup();
    let pref = tags(&["a", "b"]);
    let q1 = ctx.register_mock_project(RiskLevel::Conservative, tags(&["z"]), 0);
    let q2 = ctx.register_mock_project(RiskLevel::Conservative, tags(&["a"]), 0);
    let q3 = ctx.register_mock_project(RiskLevel::Conservative, tags(&["b", "a"]), 0);
    let q4 = ctx.register_mock_project(RiskLevel::Conservative, tags(&["y"]), 0);
    let q5 = ctx.register_mock_project(RiskLevel::Conservative, tags(&["b"]), 0);
    let q6 = ctx.register_mock_project(RiskLevel::Conservative, tags(&["a", "a", "a"]), 0);
    let matched = ctx.contract.match_projects(RiskLevel::Conservative, &pref, 0);
    assert_eq!(matched, vec![q6, q3, q2, q5, q1, q4]);
}

#[test]
fn project_lookup_returns_registered_entry() {
    let mut ctx = TestContext::setup();
    let p = ctx.register_mock_project(RiskLevel::Moderate, tags(&["t"]), 5);
    let entry: ProjectEntry = ctx.contract.project(&p).unwrap();
    assert_eq!(entry.project_address, p);
    assert_eq!(entry.risk_level, RiskLevel::Moderate);
    assert_eq!(entry.tags, tags(&["t"]));
    assert!(entry.is_active);
    assert_eq!(entry.minimum_investment, 5);
    ctx.contract.deregister_project(&p).unwrap();
    assert!(!ctx.contract.project(&p).unwrap().is_active);
    assert!(ctx.contract.project(&s("CNONE")).is_none());
}

#[test]
fn pause_then_resume_restores_entry() {
    let mut ctx = TestContext::setup();
    ctx.deposit(1000, RiskLevel::Moderate, tags(&["a"]), 200).unwrap();
    let user = ctx.user.clone();
    let before = ctx.contract.get_pool(&user).unwrap();
    ctx.contract.pause(&user).unwrap();
    ctx.contract.resume(&user).unwrap();
    let after = ctx.contract.get_pool(&user).unwrap();
    assert_eq!(before.is_paused, after.is_paused);
    assert_eq!(before.remaining_balance, after.remaining_balance);
    assert_eq!(before.last_drip_ledger, after.last_drip_ledger);
}

#[test]
fn deposit_then_withdraw_all_returns_deposit() {
    let mut ctx = TestContext::setup();
    ctx.deposit(4321, RiskLevel::Conservative, tags(&["a"]), 21).unwrap();
    assert_eq!(ctx.withdraw(None), Ok(4321));
    assert!(ctx.contract.get_pool(&ctx.user).is_err());
    assert_eq!(ctx.token.balance(&ctx.user), 1_000_000);
    assert!(ctx.deposit(10, RiskLevel::Conservative, tags(&["a"]), 1).is_ok());
}

#[test]
fn balance_never_negative_over_many_drips() {
    let mut ctx = TestContext::setup();
    ctx.deposit(1000, RiskLevel::Moderate, tags(&["a"]), 300).unwrap();
    ctx.register_mock_project(RiskLevel::Moderate, tags(&["a"]), 1);
    ctx.register_mock_project(RiskLevel::Moderate, tags(&["a"]), 1);
    for month in 1..=3u64 {
        ctx.now = month * SECONDS_PER_MONTH;
        assert!(ctx.drip().is_ok());
    }
    ctx.now = 4 * SECONDS_PER_MONTH;
    assert_eq!(ctx.drip(), Err(Error::InsufficientBalance));
    let e = ctx.contract.get_pool(&ctx.user).unwrap();
    assert_eq!(e.remaining_balance, 100);
    assert_eq!(e.invested_projects.len(), 6);
}

#[test]
fn from_parts_rejects_inconsistent_storage() {
    let entry = |user: &str| PoolEntry {
        user: s(user),
        total_deposited: 100,
        remaining_balance: 50,
        monthly_drip_amount: 10,
        risk_profile: RiskLevel::Moderate,
        preferred_tags: tags(&["a"]),
        is_paused: false,
        last_drip_ledger: 0,
        invested_projects: Vec::new(),
    };
    let ok = AutoInvestPool::from_parts(Some(s("GA")), false, Vec::new(), Vec::new(), vec![entry("GU"), entry("GV")]);
    assert!(ok.is_some());
    assert_eq!(ok.unwrap().get_pool(&s("GV")).unwrap().remaining_balance, 50);
    let dup = AutoInvestPool::from_parts(Some(s("GA")), false, Vec::new(), Vec::new(), vec![entry("GU"), entry("GU")]);
    assert!(dup.is_none());
    let mut bad = entry("GW");
    bad.remaining_balance = 101;
    assert!(AutoInvestPool::from_parts(None, false, Vec::new(), Vec::new(), vec![bad]).is_none());
    let p = ProjectEntry { project_address: s("CP"), risk_level: RiskLevel::Moderate, tags: Vec::new(), is_active: true, minimum_investment: 0 };
    let q = ProjectEntry { project_address: s("CP"), risk_level: RiskLevel::Aggressive, tags: Vec::new(), is_active: true, minimum_investment: 0 };
    assert!(AutoInvestPool::from_parts(None, false, vec![s("CP")], vec![p, q], Vec::new()).is_none());
}

#[test]
fn risk_level_order() {
    assert!(RiskLevel::Aggressive.exceeds(&RiskLevel::Moderate));
    assert!(RiskLevel::Moderate.exceeds(&RiskLevel::Conservative));
    assert!(!RiskLevel::Moderate.exceeds(&RiskLevel::Moderate));
    assert!(!RiskLevel::Conservative.exceeds(&RiskLevel::Aggressive));
}

#[test]
fn admin_stays_after_other_calls() {
    let mut ctx = TestContext::setup();
    ctx.deposit(1000, RiskLevel::Moderate, tags(&["a"]), 200).unwrap();
    ctx.register_mock_project(RiskLevel::Moderate, tags(&["a"]), 1);
    ctx.contract.admin_pause_contract().unwrap();
    ctx.contract.admin_resume_contract().unwrap();
    assert_eq!(ctx.contract.initialize(s("GOTHER")), Err(Error::EntryAlreadyExists));
    assert_eq!(ctx.contract.admin(), Some(ctx.admin.clone()));
}

#[test]
fn global_pause_lasts_until_resumed() {
    let mut ctx = TestContext::setup();
    ctx.deposit(1000, RiskLevel::Moderate, tags(&["a"]), 200).unwrap();
    ctx.contract.admin_pause_contract().unwrap();
    let user = ctx.user.clone();
    ctx.contract.pause(&user).unwrap();
    ctx.contract.resume(&user).unwrap();
    ctx.register_mock_project(RiskLevel::Moderate, tags(&["a"]), 1);
    ctx.contract.admin_pause_contract().unwrap();
    ctx.now = 5 * SECONDS_PER_MONTH;
    assert_eq!(ctx.drip(), Err(Error::ContractPaused));
    assert_eq!(ctx.contract.deposit(s("GNEW"), 10, RiskLevel::Moderate, tags(&["a"]), 1, ctx.now), Err(Error::ContractPaused));
    ctx.contract.admin_resume_contract().unwrap();
    assert!(ctx.drip().is_ok());
}

#[test]
fn paused_user_stays_undripped() {
    let mut ctx = TestContext::setup();
    ctx.deposit(1000, RiskLevel::Moderate, tags(&["a"]), 200).unwrap();
    let user = ctx.user.clone();
    ctx.contract.pause(&user).unwrap();
    ctx.register_mock_project(RiskLevel::Moderate, tags(&["a"]), 1);
    ctx.withdraw(Some(100)).unwrap();
    ctx.contract.pause(&user).unwrap();
    for month in 1..=3u64 {
        ctx.now = month * SECONDS_PER_MONTH;
        assert_eq!(ctx.drip(), Err(Error::UserPaused));
    }
    let e = ctx.contract.get_pool(&user).unwrap();
    assert!(e.is_paused);
    assert_eq!(e.last_drip_ledger, 0);
    assert_eq!(e.remaining_balance, 900);
    assert!(e.invested_projects.is_empty());
}

#[test]
fn withdraw_works_under_both_pauses() {
    let mut ctx = TestContext::setup();
    ctx.deposit(1000, RiskLevel::Moderate, tags(&["a"]), 200).unwrap();
    let user = ctx.user.clone();
    ctx.contract.pause(&user).unwrap();
    ctx.contract.admin_pause_contract().unwrap();
    assert_eq!(ctx.withdraw(Some(300)), Ok(300));
    assert_eq!(ctx.contract.get_pool(&user).unwrap().remaining_balance, 700);
    assert!(ctx.contract.get_pool(&user).unwrap().is_paused);
    assert_eq!(ctx.withdraw(None), Ok(700));
    assert_eq!(ctx.token.balance(&user), 1_000_000);
}

#[test]
fn entry_terms_stay_fixed() {
    let mut ctx = TestContext::setup();
    ctx.deposit(1000, RiskLevel::Aggressive, tags(&["a", "b"]), 250).unwrap();
    ctx.register_mock_project(RiskLevel::Moderate, tags(&["a"]), 1);
    let user = ctx.user.clone();
    ctx.now = SECONDS_PER_MONTH;
    ctx.drip().unwrap();
    ctx.contract.pause(&user).unwrap();
    ctx.contract.resume(&user).unwrap();
    ctx.withdraw(Some(50)).unwrap();
    let e = ctx.contract.get_pool(&user).unwrap();
    assert_eq!(e.total_deposited, 1000);
    assert_eq!(e.risk_profile, RiskLevel::Aggressive);
    assert_eq!(e.preferred_tags, tags(&["a", "b"]));
    assert_eq!(e.monthly_drip_amount, 250);
    assert_eq!(e.remaining_balance, 700);
}

#[test]
fn full_withdrawal_after_other_calls() {
    let mut ctx = TestContext::setup();
    ctx.deposit(1000, RiskLevel::Moderate, tags(&["a"]), 200).unwrap();
    let user = ctx.user.clone();
    ctx.contract.pause(&user).unwrap();
    ctx.contract.resume(&user).unwrap();
    ctx.register_mock_project(RiskLevel::Moderate, tags(&["a"]), 1);
    assert_eq!(ctx.drip(), Err(Error::DripCooldownNotMet));
    ctx.contract.admin_pause_contract().unwrap();
    assert_eq!(ctx.withdraw(None), Ok(1000));
    assert!(ctx.contract.get_pool(&user).is_err());
    assert_eq!(ctx.token.balance(&user), 1_000_000);
    ctx.contract.admin_resume_contract().unwrap();
    assert!(ctx.deposit(1000, RiskLevel::Moderate, tags(&["a"]), 200).is_ok());
}

#[test]
fn deregistered_project_never_invested() {
    let mut ctx = TestContext::setup();
    ctx.deposit(1000, RiskLevel::Moderate, tags(&["a"]), 200).unwrap();
    let gone = ctx.register_mock_project(RiskLevel::Moderate, tags(&["a"]), 1);
    let kept = ctx.register_mock_project(RiskLevel::Moderate, tags(&["a"]), 1);
    ctx.contract.deregister_project(&gone).unwrap();
    assert_eq!(ctx.contract.register_project(gone.clone(), RiskLevel::Moderate, tags(&["a"]), true, 1), Err(Error::ProjectAlreadyRegistered));
    for month in 1..=3u64 {
        ctx.now = month * SECONDS_PER_MONTH;
        let invested = ctx.drip().unwrap();
        assert_eq!(invested, vec![kept.clone()]);
    }
    assert!(!ctx.contract.project(&gone).unwrap().is_active);
}

#[test]
fn successful_drips_are_a_month_apart() {
    let mut ctx = TestContext::setup();
    ctx.deposit(10_000, RiskLevel::Moderate, tags(&["a"]), 100).unwrap();
    ctx.now = SECONDS_PER_MONTH + 5;
    ctx.drip().unwrap();
    let user = ctx.user.clone();
    ctx.withdraw(Some(10)).unwrap();
    ctx.contract.pause(&user).unwrap();
    ctx.contract.resume(&user).unwrap();
    ctx.now = 2 * SECONDS_PER_MONTH + 4;
    assert_eq!(ctx.drip(), Err(Error::DripCooldownNotMet));
    ctx.now = 2 * SECONDS_PER_MONTH + 5;
    assert!(ctx.drip().is_ok());
}
