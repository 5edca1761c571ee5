//! The pool's storage and the calls that read and change it.
use vstd::prelude::*;

use crate::keyed::{
    has_key, keyed_map, keys_distinct, lemma_keyed_index, lemma_keyed_push, lemma_keyed_remove,
    lemma_keyed_update,
};
use crate::model::{eligible, indexed, new_pool_entry, tag_score, DripView, PoolState};
use crate::ranking::{
    lemma_ranked_is_ranking, lemma_ranking_drawn_from, pairs_view, rank_by_score, ranked,
};
use crate::types::{
    copy_strings, Error, PoolEntry, PoolEntryView, ProjectEntry, RiskLevel,
    DEFAULT_MAX_PROJECTS_PER_DRIP, SECONDS_PER_MONTH,
};

verus! {

/// The key under which a pool entry is stored.
pub open spec fn pool_key() -> spec_fn(PoolEntry) -> Seq<char> {
    |e: PoolEntry| e.user@
}

/// The value of a pool entry.
pub open spec fn pool_val() -> spec_fn(PoolEntry) -> PoolEntryView {
    |e: PoolEntry| e@
}

/// The key under which a project is stored.
pub open spec fn project_key() -> spec_fn(ProjectEntry) -> Seq<char> {
    |p: ProjectEntry| p.project_address@
}

/// The value of a project.
pub open spec fn project_val() -> spec_fn(ProjectEntry) -> crate::types::ProjectEntryView {
    |p: ProjectEntry| p@
}

/// Entries as read from storage can form a pool: no address is filed twice and
/// every pool entry keeps the balance rules.
pub open spec fn entries_ok(projects: Seq<ProjectEntry>, pools: Seq<PoolEntry>) -> bool {
    &&& keys_distinct(projects, project_key())
    &&& keys_distinct(pools, pool_key())
    &&& forall|k: int| 0 <= k < pools.len() ==> (#[trigger] pools[k])@.balanced()
}

/// The value of an optional address.
pub open spec fn opt_view(a: Option<String>) -> Option<Seq<char>> {
    match a {
        Some(s) => Some(s@),
        None => None,
    }
}

/// Adding a balanced entry for a new user keeps the entries in order.
proof fn lemma_pools_push(projects: Seq<ProjectEntry>, pools: Seq<PoolEntry>, x: PoolEntry)
    requires
        entries_ok(projects, pools),
        !has_key(pools, pool_key(), x.user@),
        x@.balanced(),
    ensures
        entries_ok(projects, pools.push(x)),
        keyed_map(pools.push(x), pool_key(), pool_val()) == keyed_map(pools, pool_key(), pool_val()).insert(x.user@, x@),
{
    lemma_keyed_push(pools, pool_key(), pool_val(), x);
    assert forall|k: int| 0 <= k < pools.push(x).len() implies (#[trigger] pools.push(x)[k])@.balanced() by {
        if k < pools.len() {
            assert(pools.push(x)[k] == pools[k]);
        }
    }
}

/// Replacing an entry by a balanced one of the same user keeps the entries in
/// order.
proof fn lemma_pools_update(projects: Seq<ProjectEntry>, pools: Seq<PoolEntry>, i: int, x: PoolEntry)
    requires
        entries_ok(projects, pools),
        0 <= i < pools.len(),
        x.user@ == pools[i].user@,
        x@.balanced(),
    ensures
        entries_ok(projects, pools.update(i, x)),
        keyed_map(pools.update(i, x), pool_key(), pool_val()) == keyed_map(pools, pool_key(), pool_val()).insert(x.user@, x@),
{
    lemma_keyed_update(pools, pool_key(), pool_val(), i, x);
    assert forall|k: int| 0 <= k < pools.update(i, x).len() implies (#[trigger] pools.update(i, x)[k])@.balanced() by {
        if k != i {
            assert(pools.update(i, x)[k] == pools[k]);
        }
    }
}

/// Dropping an entry keeps the entries in order.
proof fn lemma_pools_remove(projects: Seq<ProjectEntry>, pools: Seq<PoolEntry>, i: int)
    requires
        entries_ok(projects, pools),
        0 <= i < pools.len(),
    ensures
        entries_ok(projects, pools.remove(i)),
        keyed_map(pools.remove(i), pool_key(), pool_val()) == keyed_map(pools, pool_key(), pool_val()).remove(pools[i].user@),
{
    lemma_keyed_remove(pools, pool_key(), pool_val(), i);
    assert forall|k: int| 0 <= k < pools.remove(i).len() implies (#[trigger] pools.remove(i)[k])@.balanced() by {
        if k < i {
            assert(pools.remove(i)[k] == pools[k]);
        } else {
            assert(pools.remove(i)[k] == pools[k + 1]);
        }
    }
}


/// The auto-invest pool: what the contract keeps in storage.
pub struct AutoInvestPool {
    admin: Option<String>,
    is_paused: bool,
    registered_projects: Vec<String>,
    projects: Vec<ProjectEntry>,
    pools: Vec<PoolEntry>,
}

impl View for AutoInvestPool {
    type V = PoolState;

    closed spec fn view(&self) -> PoolState {
        PoolState {
            admin: opt_view(self.admin),
            is_paused: self.is_paused,
            registered_projects: self.registered_projects.deep_view(),
            projects: keyed_map(self.projects@, project_key(), project_val()),
            pools: keyed_map(self.pools@, pool_key(), pool_val()),
        }
    }
}

fn find_pool(pools: &Vec<PoolEntry>, user: &String) -> (r: Option<usize>)
    ensures
        match r {
            Some(i) => i < pools@.len() && pools@[i as int].user@ == user@,
            None => !has_key(pools@, pool_key(), user@),
        },
{
    let mut i: usize = 0;
    while i < pools.len()
        invariant
            i <= pools@.len(),
            forall|k: int| 0 <= k < i ==> (#[trigger] pools@[k]).user@ != user@,
        decreases pools@.len() - i,
    {
        if pools[i].user == *user {
            return Some(i);
        }
        i = i + 1;
    }
    assert forall|k: int| 0 <= k < pools@.len() implies #[trigger] pool_key()(pools@[k]) != user@ by {
        assert(pools@[k].user@ != user@);
    }
    None
}

fn find_project(projects: &Vec<ProjectEntry>, addr: &String) -> (r: Option<usize>)
    ensures
        match r {
            Some(i) => i < projects@.len() && projects@[i as int].project_address@ == addr@,
            None => !has_key(projects@, project_key(), addr@),
        },
{
    let mut i: usize = 0;
    while i < projects.len()
        invariant
            i <= projects@.len(),
            forall|k: int| 0 <= k < i ==> (#[trigger] projects@[k]).project_address@ != addr@,
        decreases projects@.len() - i,
    {
        if projects[i].project_address == *addr {
            return Some(i);
        }
        i = i + 1;
    }
    assert forall|k: int| 0 <= k < projects@.len() implies #[trigger] project_key()(projects@[k])
        != addr@ by {
        assert(projects@[k].project_address@ != addr@);
    }
    None
}

impl AutoInvestPool {
    /// The pool's entries are filed under distinct addresses and keep the
    /// balance rules.
    #[verifier::type_invariant]
    closed spec fn wf(&self) -> bool {
        entries_ok(self.projects@, self.pools@)
    }

    /// The state of a pool with its entries in order is well formed.
    proof fn lemma_view_wf(&self)
        requires
            entries_ok(self.projects@, self.pools@),
        ensures
            self@.wf(),
    {
        assert forall|u: Seq<char>| #[trigger] self@.pools.contains_key(u) implies self@.pools[u].user
            == u && self@.pools[u].balanced() by {
            let i = choose|i: int| 0 <= i < self.pools@.len() && #[trigger] pool_key()(self.pools@[i]) == u;
            lemma_keyed_index(self.pools@, pool_key(), pool_val(), i);
        }
        assert forall|a: Seq<char>| #[trigger] self@.projects.contains_key(a) implies self@.projects[a].project_address
            == a by {
            let i = choose|i: int| 0 <= i < self.projects@.len() && #[trigger] project_key()(self.projects@[i]) == a;
            lemma_keyed_index(self.projects@, project_key(), project_val(), i);
        }
    }

    /// Empty storage: nothing has been written yet.
    pub fn new() -> (r: Self)
        ensures
            r@ == PoolState::empty(),
    {
        let r = AutoInvestPool {
            admin: None,
            is_paused: false,
            registered_projects: Vec::new(),
            projects: Vec::new(),
            pools: Vec::new(),
        };
        proof {
            assert(r@.registered_projects =~= Seq::<Seq<char>>::empty());
            assert(r@.projects =~= Map::empty());
            assert(r@.pools =~= Map::empty());
        }
        r
    }

    /// Builds the pool from what storage holds; `None` when two entries are
    /// filed under one address or a pool entry breaks the balance rules.
    pub fn from_parts(
        admin: Option<String>,
        is_paused: bool,
        registered_projects: Vec<String>,
        projects: Vec<ProjectEntry>,
        pools: Vec<PoolEntry>,
    ) -> (r: Option<Self>)
        ensures
            r is Some <==> entries_ok(projects@, pools@),
            r matches Some(p) ==> p@.wf() && p@ == (PoolState {
                admin: opt_view(admin),
                is_paused,
                registered_projects: registered_projects.deep_view(),
                projects: keyed_map(projects@, project_key(), project_val()),
                pools: keyed_map(pools@, pool_key(), pool_val()),
            }),
    {
        let mut i: usize = 0;
        while i < projects.len()
            invariant
                i <= projects@.len(),
                forall|a: int, b: int|
                    0 <= a < i && 0 <= b < projects@.len() && a != b ==> #[trigger] project_key()(
                        projects@[a],
                    ) != #[trigger] project_key()(projects@[b]),
            decreases projects@.len() - i,
        {
            let mut j: usize = 0;
            while j < projects.len()
                invariant
                    i < projects@.len(),
                    j <= projects@.len(),
                    forall|a: int, b: int|
                        0 <= a < i && 0 <= b < projects@.len() && a != b ==> #[trigger] project_key()(
                            projects@[a],
                        ) != #[trigger] project_key()(projects@[b]),
                    forall|b: int|
                        0 <= b < j && b != i ==> project_key()(projects@[i as int])
                            != #[trigger] project_key()(projects@[b]),
                decreases projects@.len() - j,
            {
                if j != i && projects[i].project_address == projects[j].project_address {
                    assert(project_key()(projects@[i as int]) == project_key()(projects@[j as int]));
                    return None;
                }
                j = j + 1;
            }
            i = i + 1;
        }
        let mut i: usize = 0;
        while i < pools.len()
            invariant
                i <= pools@.len(),
                keys_distinct(projects@, project_key()),
                forall|k: int| 0 <= k < i ==> (#[trigger] pools@[k])@.balanced(),
                forall|a: int, b: int|
                    0 <= a < i && 0 <= b < pools@.len() && a != b ==> #[trigger] pool_key()(
                        pools@[a],
                    ) != #[trigger] pool_key()(pools@[b]),
            decreases pools@.len() - i,
        {
            let e = &pools[i];
            if !(0 < e.monthly_drip_amount && e.monthly_drip_amount <= e.total_deposited
                && 0 <= e.remaining_balance && e.remaining_balance <= e.total_deposited) {
                return None;
            }
            let mut j: usize = 0;
            while j < pools.len()
                invariant
                    i < pools@.len(),
                    j <= pools@.len(),
                    forall|a: int, b: int|
                        0 <= a < i && 0 <= b < pools@.len() && a != b ==> #[trigger] pool_key()(
                            pools@[a],
                        ) != #[trigger] pool_key()(pools@[b]),
                    forall|b: int|
                        0 <= b < j && b != i ==> pool_key()(pools@[i as int])
                            != #[trigger] pool_key()(pools@[b]),
                decreases pools@.len() - j,
            {
                if j != i && pools[i].user == pools[j].user {
                    assert(pool_key()(pools@[i as int]) == pool_key()(pools@[j as int]));
                    return None;
                }
                j = j + 1;
            }
            i = i + 1;
        }
        let p = AutoInvestPool { admin, is_paused, registered_projects, projects, pools };
        proof {
            p.lemma_view_wf();
        }
        Some(p)
    }

}

impl AutoInvestPool {
    /// Initialises the pool with its administrator.
    pub fn initialize(&mut self, admin: String) -> (r: Result<(), Error>)
        ensures
            final(self)@.wf(),
            (final(self)@, r) == old(self)@.initialize(admin@),
    {
        proof {
            use_type_invariant(&*self);
            self.lemma_view_wf();
        }
        if self.admin.is_some() {
            return Err(Error::EntryAlreadyExists);
        }
        self.admin = Some(admin);
        self.is_paused = false;
        self.registered_projects = Vec::new();
        proof {
            assert(self.registered_projects.deep_view() =~= Seq::<Seq<char>>::empty());
            self.lemma_view_wf();
        }
        Ok(())
    }

    /// Whether the administrator has paused the whole pool.
    pub fn is_globally_paused(&self) -> (r: bool)
        ensures
            r == self@.is_paused,
    {
        self.is_paused
    }

    /// The administrator, if the pool is initialised.
    pub fn admin(&self) -> (r: Option<String>)
        ensures
            opt_view(r) == self@.admin,
    {
        match &self.admin {
            Some(a) => Some(a.clone()),
            None => None,
        }
    }

    /// The registered project addresses in order of registration.
    pub fn registered_projects(&self) -> (r: Vec<String>)
        ensures
            r.deep_view() == self@.registered_projects,
    {
        copy_strings(&self.registered_projects)
    }

    /// The project registered at `project_address`, if any.
    pub fn project(&self, project_address: &String) -> (r: Option<ProjectEntry>)
        ensures
            match r {
                Some(p) => self@.projects.contains_key(project_address@) && p@
                    == self@.projects[project_address@],
                None => !self@.projects.contains_key(project_address@),
            },
    {
        proof {
            use_type_invariant(self);
        }
        match find_project(&self.projects, project_address) {
            Some(i) => {
                proof {
                    lemma_keyed_index(self.projects@, project_key(), project_val(), i as int);
                }
                Some(self.projects[i].clone())
            },
            None => None,
        }
    }

    /// Checks that the pool has an administrator.
    fn check_admin(&self) -> (r: Result<(), Error>)
        ensures
            r == (if self@.admin is Some {
                Ok::<(), Error>(())
            } else {
                Err(Error::NotAuthorised)
            }),
    {
        if self.admin.is_none() {
            return Err(Error::NotAuthorised);
        }
        Ok(())
    }

    /// Opens a pool entry for `user` with a lump sum `amount`, a monthly drip
    /// and the user's risk profile and preferred tags, at time `now`.
    pub fn deposit(
        &mut self,
        user: String,
        amount: i128,
        risk_profile: RiskLevel,
        preferred_tags: Vec<String>,
        monthly_drip_amount: i128,
        now: u64,
    ) -> (r: Result<(), Error>)
        ensures
            final(self)@.wf(),
            (final(self)@, r) == old(self)@.deposit(
                user@,
                amount,
                risk_profile,
                preferred_tags.deep_view(),
                monthly_drip_amount,
                now,
            ),
    {
        proof {
            use_type_invariant(&*self);
            self.lemma_view_wf();
        }
        if self.is_paused {
            return Err(Error::ContractPaused);
        }
        if amount <= 0 {
            return Err(Error::InvalidDepositAmount);
        }
        if monthly_drip_amount <= 0 || monthly_drip_amount > amount {
            return Err(Error::InvalidDripAmount);
        }
        if preferred_tags.len() == 0 {
            return Err(Error::InvalidDripAmount);
        }
        if find_pool(&self.pools, &user).is_some() {
            proof {
                let i = choose|i: int| 0 <= i < self.pools@.len() && self.pools@[i].user@ == user@;
                lemma_keyed_index(self.pools@, pool_key(), pool_val(), i);
            }
            return Err(Error::EntryAlreadyExists);
        }
        let ghost tags = preferred_tags.deep_view();
        let entry = PoolEntry {
            user,
            total_deposited: amount,
            remaining_balance: amount,
            monthly_drip_amount,
            risk_profile,
            preferred_tags,
            is_paused: false,
            last_drip_ledger: now,
            invested_projects: Vec::new(),
        };
        proof {
            assert(entry.invested_projects.deep_view() =~= Seq::<Seq<char>>::empty());
            assert(entry@ == new_pool_entry(
                entry.user@,
                amount,
                risk_profile,
                tags,
                monthly_drip_amount,
                now,
            ));
        }
        let mut pools: Vec<PoolEntry> = Vec::new();
        std::mem::swap(&mut pools, &mut self.pools);
        let ghost before = pools@;
        pools.push(entry);
        proof {
            lemma_pools_push(self.projects@, before, entry);
        }
        self.pools = pools;
        proof {
            self.lemma_view_wf();
        }
        Ok(())
    }

    /// The pool entry of `user`.
    pub fn get_pool(&self, user: &String) -> (r: Result<PoolEntry, Error>)
        ensures
            match r {
                Ok(e) => self@.get_pool(user@) == Ok::<PoolEntryView, Error>(e@),
                Err(x) => self@.get_pool(user@) == Err::<PoolEntryView, Error>(x),
            },
    {
        proof {
            use_type_invariant(self);
        }
        match find_pool(&self.pools, user) {
            Some(i) => {
                proof {
                    lemma_keyed_index(self.pools@, pool_key(), pool_val(), i as int);
                }
                Ok(self.pools[i].clone())
            },
            None => Err(Error::EntryNotFound),
        }
    }

    fn set_user_paused(&mut self, user: &String, paused: bool) -> (r: Result<(), Error>)
        ensures
            final(self)@.wf(),
            (final(self)@, r) == old(self)@.set_user_paused(user@, paused),
    {
        proof {
            use_type_invariant(&*self);
            self.lemma_view_wf();
        }
        match find_pool(&self.pools, user) {
            None => Err(Error::EntryNotFound),
            Some(i) => {
                let mut pools: Vec<PoolEntry> = Vec::new();
                std::mem::swap(&mut pools, &mut self.pools);
                let ghost before = pools@;
                proof {
                    lemma_keyed_index(before, pool_key(), pool_val(), i as int);
                }
                let mut e = pools.remove(i);
                e.is_paused = paused;
                pools.insert(i, e);
                proof {
                    assert(pools@ =~= before.update(i as int, e));
                    lemma_pools_update(self.projects@, before, i as int, e);
                    assert(e@ == PoolEntryView { is_paused: paused, ..before[i as int]@ });
                }
                self.pools = pools;
                proof {
                    self.lemma_view_wf();
                }
                Ok(())
            },
        }
    }

    /// Pauses the user's auto-investment.
    pub fn pause(&mut self, user: &String) -> (r: Result<(), Error>)
        ensures
            final(self)@.wf(),
            (final(self)@, r) == old(self)@.pause(user@),
    {
        self.set_user_paused(user, true)
    }

    /// Resumes the user's auto-investment.
    pub fn resume(&mut self, user: &String) -> (r: Result<(), Error>)
        ensures
            final(self)@.wf(),
            (final(self)@, r) == old(self)@.resume(user@),
    {
        self.set_user_paused(user, false)
    }

    /// Withdraws `amount` from the user's remaining balance, or all of it when
    /// `amount` is `None`; an entry left with nothing is removed. Returns the
    /// amount withdrawn.
    pub fn withdraw(&mut self, user: &String, amount: Option<i128>) -> (r: Result<i128, Error>)
        requires
            amount matches Some(a) ==> a >= 0,
        ensures
            final(self)@.wf(),
            (final(self)@, r) == old(self)@.withdraw(user@, amount),
    {
        proof {
            use_type_invariant(&*self);
            self.lemma_view_wf();
        }
        match find_pool(&self.pools, user) {
            None => Err(Error::EntryNotFound),
            Some(i) => {
                proof {
                    lemma_keyed_index(self.pools@, pool_key(), pool_val(), i as int);
                }
                let remaining = self.pools[i].remaining_balance;
                let w = match amount {
                    Some(a) => a,
                    None => remaining,
                };
                if w > remaining {
                    return Err(Error::WithdrawalExceedsBalance);
                }
                let mut pools: Vec<PoolEntry> = Vec::new();
                std::mem::swap(&mut pools, &mut self.pools);
                let ghost before = pools@;
                assert(before[i as int]@.balanced());
                let mut e = pools.remove(i);
                e.remaining_balance = remaining - w;
                if e.remaining_balance == 0 {
                    proof {
                        lemma_pools_remove(self.projects@, before, i as int);
                    }
                } else {
                    pools.insert(i, e);
                    proof {
                        assert(pools@ =~= before.update(i as int, e));
                        lemma_pools_update(self.projects@, before, i as int, e);
                    }
                }
                self.pools = pools;
                proof {
                    self.lemma_view_wf();
                }
                Ok(w)
            },
        }
    }

    /// Registers a new project; only an initialised pool accepts projects.
    pub fn register_project(
        &mut self,
        project_address: String,
        risk_level: RiskLevel,
        tags: Vec<String>,
        is_active: bool,
        minimum_investment: i128,
    ) -> (r: Result<(), Error>)
        ensures
            final(self)@.wf(),
            (final(self)@, r) == old(self)@.register_project(
                project_address@,
                risk_level,
                tags.deep_view(),
                is_active,
                minimum_investment,
            ),
    {
        proof {
            use_type_invariant(&*self);
            self.lemma_view_wf();
        }
        let checked = self.check_admin();
        if checked.is_err() {
            return Err(Error::NotAuthorised);
        }
        if find_project(&self.projects, &project_address).is_some() {
            proof {
                let i = choose|i: int| 0 <= i < self.projects@.len() && self.projects@[i].project_address@ == project_address@;
                lemma_keyed_index(self.projects@, project_key(), project_val(), i);
            }
            return Err(Error::ProjectAlreadyRegistered);
        }
        let ghost old_registered = self.registered_projects.deep_view();
        let mut registered: Vec<String> = Vec::new();
        std::mem::swap(&mut registered, &mut self.registered_projects);
        registered.push(project_address.clone());
        self.registered_projects = registered;
        proof {
            assert(self.registered_projects.deep_view() =~= old_registered.push(project_address@));
        }
        let entry = ProjectEntry { project_address, risk_level, tags, is_active, minimum_investment };
        let mut projects: Vec<ProjectEntry> = Vec::new();
        std::mem::swap(&mut projects, &mut self.projects);
        let ghost before = projects@;
        projects.push(entry);
        proof {
            lemma_keyed_push(before, project_key(), project_val(), entry);
        }
        self.projects = projects;
        proof {
            self.lemma_view_wf();
        }
        Ok(())
    }

    /// Marks a registered project inactive; only an initialised pool accepts
    /// this.
    pub fn deregister_project(&mut self, project_address: &String) -> (r: Result<(), Error>)
        ensures
            final(self)@.wf(),
            (final(self)@, r) == old(self)@.deregister_project(project_address@),
    {
        proof {
            use_type_invariant(&*self);
            self.lemma_view_wf();
        }
        let checked = self.check_admin();
        if checked.is_err() {
            return Err(Error::NotAuthorised);
        }
        match find_project(&self.projects, project_address) {
            None => Err(Error::ProjectNotFound),
            Some(i) => {
                let mut projects: Vec<ProjectEntry> = Vec::new();
                std::mem::swap(&mut projects, &mut self.projects);
                let ghost before = projects@;
                proof {
                    lemma_keyed_index(before, project_key(), project_val(), i as int);
                }
                let mut p = projects.remove(i);
                p.is_active = false;
                projects.insert(i, p);
                proof {
                    assert(projects@ =~= before.update(i as int, p));
                    lemma_keyed_update(before, project_key(), project_val(), i as int, p);
                }
                self.projects = projects;
                proof {
                    self.lemma_view_wf();
                }
                Ok(())
            },
        }
    }

    /// Pauses the whole pool; only an initialised pool accepts this.
    pub fn admin_pause_contract(&mut self) -> (r: Result<(), Error>)
        ensures
            final(self)@.wf(),
            (final(self)@, r) == old(self)@.set_global_pause(true),
    {
        proof {
            use_type_invariant(&*self);
            self.lemma_view_wf();
        }
        let checked = self.check_admin();
        if checked.is_err() {
            return Err(Error::NotAuthorised);
        }
        self.is_paused = true;
        proof {
            self.lemma_view_wf();
        }
        Ok(())
    }

    /// Resumes the whole pool; only an initialised pool accepts this.
    pub fn admin_resume_contract(&mut self) -> (r: Result<(), Error>)
        ensures
            final(self)@.wf(),
            (final(self)@, r) == old(self)@.set_global_pause(false),
    {
        proof {
            use_type_invariant(&*self);
            self.lemma_view_wf();
        }
        let checked = self.check_admin();
        if checked.is_err() {
            return Err(Error::NotAuthorised);
        }
        self.is_paused = false;
        proof {
            self.lemma_view_wf();
        }
        Ok(())
    }
}

/// Whether `tags` holds `tag`.
fn has_tag(tags: &Vec<String>, tag: &String) -> (r: bool)
    ensures
        r == tags.deep_view().contains(tag@),
{
    let mut i: usize = 0;
    while i < tags.len()
        invariant
            i <= tags@.len(),
            forall|k: int| 0 <= k < i ==> (#[trigger] tags@[k])@ != tag@,
        decreases tags@.len() - i,
    {
        if tags[i] == *tag {
            assert(tags.deep_view()[i as int] == tag@);
            return true;
        }
        i = i + 1;
    }
    assert forall|k: int| 0 <= k < tags.deep_view().len() implies tags.deep_view()[k] != tag@ by {
        assert(tags.deep_view()[k] == tags@[k]@);
    }
    false
}

/// The number of a project's tags that the user prefers.
fn score_tags(project_tags: &Vec<String>, preferred: &Vec<String>) -> (score: usize)
    ensures
        score == tag_score(project_tags.deep_view(), preferred.deep_view()),
{
    let ghost pt = project_tags.deep_view();
    let ghost pref = preferred.deep_view();
    let mut score: usize = 0;
    let mut i: usize = 0;
    while i < project_tags.len()
        invariant
            i <= project_tags@.len(),
            pt == project_tags.deep_view(),
            pref == preferred.deep_view(),
            score <= i,
            score == tag_score(pt.take(i as int), pref),
        decreases project_tags@.len() - i,
    {
        let found = has_tag(preferred, &project_tags[i]);
        proof {
            assert(pt.take(i + 1).drop_last() =~= pt.take(i as int));
            assert(pt.take(i + 1).last() == project_tags@[i as int]@);
        }
        if found {
            score = score + 1;
        }
        i = i + 1;
    }
    assert(pt.take(project_tags@.len() as int) =~= pt);
    score
}

impl AutoInvestPool {
    /// The registered projects that suit a user: active, no riskier than
    /// `risk_profile`, asking at most `monthly_drip_amount`; ranked by the
    /// number of their tags among `preferred_tags`, highest first, projects
    /// with equal counts in order of registration.
    pub fn match_projects(
        &self,
        risk_profile: RiskLevel,
        preferred_tags: &Vec<String>,
        monthly_drip_amount: i128,
    ) -> (r: Vec<String>)
        ensures
            r.deep_view() == self@.match_projects(
                risk_profile,
                preferred_tags.deep_view(),
                monthly_drip_amount,
            ),
    {
        proof {
            use_type_invariant(self);
        }
        let ghost reg = self.registered_projects.deep_view();
        let ghost pmap = self@.projects;
        let ghost pref = preferred_tags.deep_view();
        let mut addrs: Vec<String> = Vec::new();
        let mut pairs: Vec<(usize, usize)> = Vec::new();
        let mut idx: usize = 0;
        while idx < self.registered_projects.len()
            invariant
                keys_distinct(self.projects@, project_key()),
                idx <= self.registered_projects@.len(),
                reg == self.registered_projects.deep_view(),
                pmap == self@.projects,
                pref == preferred_tags.deep_view(),
                addrs@.len() == pairs@.len(),
                ({
                    let e = eligible(reg.take(idx as int), pmap, risk_profile, pref, monthly_drip_amount);
                    &&& e.len() == addrs@.len()
                    &&& pairs_view(pairs@) == indexed(e)
                    &&& forall|k: int| 0 <= k < e.len() ==> (#[trigger] addrs@[k])@ == e[k].1
                }),
            decreases self.registered_projects@.len() - idx,
        {
            let ghost e0 = eligible(reg.take(idx as int), pmap, risk_profile, pref, monthly_drip_amount);
            proof {
                assert(reg.take(idx + 1).drop_last() =~= reg.take(idx as int));
                assert(reg.take(idx + 1).last() == self.registered_projects@[idx as int]@);
            }
            let addr = &self.registered_projects[idx];
            match find_project(&self.projects, addr) {
                None => {},
                Some(pi) => {
                    proof {
                        lemma_keyed_index(self.projects@, project_key(), project_val(), pi as int);
                    }
                    let entry = &self.projects[pi];
                    if !entry.risk_level.exceeds(&risk_profile) && entry.is_active
                        && entry.minimum_investment <= monthly_drip_amount {
                        let score = score_tags(&entry.tags, preferred_tags);
                        let ghost before_pairs = pairs@;
                        pairs.push((score, addrs.len()));
                        addrs.push(addr.clone());
                        proof {
                            let e1 = e0.push((score as int, addr@));
                            assert(pairs_view(pairs@) =~= indexed(e1)) by {
                                assert(pairs_view(before_pairs) == indexed(e0));
                                assert forall|k: int| 0 <= k < e1.len() implies #[trigger] pairs_view(pairs@)[k] == indexed(e1)[k] by {
                                    if k < e0.len() {
                                        assert(pairs@[k] == before_pairs[k]);
                                        assert(pairs_view(before_pairs)[k] == indexed(e0)[k]);
                                    }
                                }
                            }
                        }
                    }
                },
            }
            idx = idx + 1;
        }
        let ghost e = eligible(reg, pmap, risk_profile, pref, monthly_drip_amount);
        proof {
            assert(reg.take(self.registered_projects@.len() as int) =~= reg);
        }
        let ranked_pairs = rank_by_score(pairs);
        proof {
            lemma_ranked_is_ranking(indexed(e));
            lemma_ranking_drawn_from(indexed(e), ranked(indexed(e)));
        }
        let mut r: Vec<String> = Vec::new();
        let mut k: usize = 0;
        while k < ranked_pairs.len()
            invariant
                k <= ranked_pairs@.len(),
                e.len() == addrs@.len(),
                forall|q: int| 0 <= q < e.len() ==> (#[trigger] addrs@[q])@ == e[q].1,
                pairs_view(ranked_pairs@) == ranked(indexed(e)),
                forall|q: int| 0 <= q < ranked(indexed(e)).len() ==> indexed(e).contains(#[trigger] ranked(indexed(e))[q]),
                r@.len() == k,
                forall|q: int| 0 <= q < k ==> (#[trigger] r@[q])@ == e[ranked(indexed(e))[q].1].1,
            decreases ranked_pairs@.len() - k,
        {
            let which = ranked_pairs[k].1;
            proof {
                let rk = ranked(indexed(e))[k as int];
                assert(pairs_view(ranked_pairs@)[k as int] == rk);
                assert(indexed(e).contains(rk));
                let j = choose|j: int| 0 <= j < indexed(e).len() && indexed(e)[j] == rk;
                assert(rk.1 == j);
            }
            r.push(addrs[which].clone());
            k = k + 1;
        }
        proof {
            let m = ranked(indexed(e)).map_values(|p: (int, int)| e[p.1].1);
            assert(r.deep_view() =~= m);
        }
        r
    }
}

/// What a successful drip invests: the projects, in order, and the amount
/// each of them receives.
pub struct Drip {
    pub projects: Vec<String>,
    pub amount_per_project: i128,
}

impl View for Drip {
    type V = DripView;

    open spec fn view(&self) -> DripView {
        DripView { projects: self.projects.deep_view(), amount_per_project: self.amount_per_project }
    }
}

/// The value of a drip's outcome.
pub open spec fn drip_result_view(r: Result<Drip, Error>) -> Result<DripView, Error> {
    match r {
        Ok(d) => Ok(d@),
        Err(x) => Err(x),
    }
}

impl AutoInvestPool {
    /// Executes the monthly drip of `user` at time `now`: invests the monthly
    /// amount, split evenly, in the best-matching projects (at most
    /// [`DEFAULT_MAX_PROJECTS_PER_DRIP`] of them) and returns them with the
    /// amount each receives. When no project matches, only the drip time moves.
    pub fn execute_drip(&mut self, user: &String, now: u64) -> (r: Result<Drip, Error>)
        ensures
            final(self)@.wf(),
            (final(self)@, drip_result_view(r)) == old(self)@.execute_drip(user@, now),
    {
        proof {
            use_type_invariant(&*self);
            self.lemma_view_wf();
        }
        if self.is_paused {
            return Err(Error::ContractPaused);
        }
        let i = match find_pool(&self.pools, user) {
            None => {
                return Err(Error::EntryNotFound);
            },
            Some(i) => i,
        };
        proof {
            lemma_keyed_index(self.pools@, pool_key(), pool_val(), i as int);
            assert(self.pools@[i as int]@.balanced());
        }
        if self.pools[i].is_paused {
            return Err(Error::UserPaused);
        }
        if now < self.pools[i].last_drip_ledger.saturating_add(SECONDS_PER_MONTH) {
            return Err(Error::DripCooldownNotMet);
        }
        if self.pools[i].remaining_balance < self.pools[i].monthly_drip_amount {
            return Err(Error::InsufficientBalance);
        }
        let eligible = self.match_projects(
            self.pools[i].risk_profile,
            &self.pools[i].preferred_tags,
            self.pools[i].monthly_drip_amount,
        );
        let ghost m = eligible.deep_view();
        let mut pools: Vec<PoolEntry> = Vec::new();
        std::mem::swap(&mut pools, &mut self.pools);
        let ghost before = pools@;
        let ghost old_e = before[i as int]@;
        let mut e = pools.remove(i);
        if eligible.len() == 0 {
            e.last_drip_ledger = now;
            pools.insert(i, e);
            proof {
                assert(pools@ =~= before.update(i as int, e));
                lemma_pools_update(self.projects@, before, i as int, e);
                assert(e@ == PoolEntryView { last_drip_ledger: now, ..old_e });
            }
            self.pools = pools;
            proof {
                self.lemma_view_wf();
            }
            let d = Drip { projects: Vec::new(), amount_per_project: 0 };
            proof {
                assert(d.projects.deep_view() =~= Seq::<Seq<char>>::empty());
            }
            return Ok(d);
        }
        let max_projects = DEFAULT_MAX_PROJECTS_PER_DRIP as usize;
        let num: usize = if eligible.len() < max_projects {
            eligible.len()
        } else {
            max_projects
        };
        let monthly = e.monthly_drip_amount;
        let per: i128 = monthly / (num as i128);
        proof {
            assert(per * num <= monthly && per >= 0) by (nonlinear_arith)
                requires
                    per == (monthly as int) / (num as int),
                    monthly > 0,
                    num > 0,
            ;
        }
        let ghost old_invested = e.invested_projects.deep_view();
        let mut invested: Vec<String> = Vec::new();
        let mut total: i128 = 0;
        let mut k: usize = 0;
        while k < num
            invariant
                k <= num,
                num <= eligible@.len(),
                m == eligible.deep_view(),
                per >= 0,
                per * num <= monthly,
                total == per * k,
                invested@.len() == k,
                forall|q: int| 0 <= q < k ==> (#[trigger] invested@[q])@ == m[q],
                e.invested_projects.deep_view() == old_invested + m.take(k as int),
                e.monthly_drip_amount == monthly,
                e.remaining_balance == old_e.remaining_balance,
                e.user@ == old_e.user,
                e@ == (PoolEntryView { invested_projects: e@.invested_projects, ..old_e }),
            decreases num - k,
        {
            proof {
                assert(per * k + per <= per * num && per * (k + 1) == per * k + per) by (nonlinear_arith)
                    requires
                        k < num,
                        per >= 0,
                ;
            }
            invested.push(eligible[k].clone());
            let ghost prev = e.invested_projects.deep_view();
            e.invested_projects.push(eligible[k].clone());
            proof {
                assert(e.invested_projects.deep_view() =~= prev.push(m[k as int]));
                assert(m.take(k + 1) =~= m.take(k as int).push(m[k as int]));
                assert(old_invested + m.take(k + 1) =~= (old_invested + m.take(k as int)).push(m[k as int]));
            }
            total = total + per;
            k = k + 1;
        }
        e.remaining_balance = e.remaining_balance - total;
        e.last_drip_ledger = now;
        pools.insert(i, e);
        proof {
            assert(pools@ =~= before.update(i as int, e));
            assert(e@ == PoolEntryView {
                remaining_balance: (old_e.remaining_balance - per * num) as i128,
                invested_projects: old_e.invested_projects + m.take(num as int),
                last_drip_ledger: now,
                ..old_e
            });
            lemma_pools_update(self.projects@, before, i as int, e);
        }
        self.pools = pools;
        proof {
            self.lemma_view_wf();
        }
        let d = Drip { projects: invested, amount_per_project: per };
        proof {
            assert(d.projects.deep_view() =~= m.take(num as int));
        }
        Ok(d)
    }
}

} // verus!
