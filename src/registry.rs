use vstd::prelude::*;

use crate::governance::{
    AccountAction, AccountError, AccountId, AccountRecord, Address, GovernanceDetails,
    GovernanceError,
};
use crate::index::{
    effective_limit, insert_sorted, lemma_sorted_of, page, page_of, remove_sorted, sorted_of,
    strictly_sorted, DEFAULT_PAGE_LIMIT, MAX_PAGE_LIMIT,
};

verus! {

/// The registry as mathematics: account `id` is `accounts[id - 1]`, its
/// children are `children[id - 1]` and its whitelist is `whitelists[id - 1]`.
pub struct RegistryModel {
    pub accounts: Seq<AccountRecord>,
    pub children: Seq<Set<u32>>,
    pub whitelists: Seq<Set<u64>>,
}

/// Whether `addr` is the controller or the asset-holder of `r`.
pub open spec fn owns(r: AccountRecord, addr: Address) -> bool {
    r.controller == addr || r.asset_holder == addr
}

/// Position of the account that `addr` belongs to, if any.
pub open spec fn resolve(accounts: Seq<AccountRecord>, addr: Address) -> Option<int> {
    if exists|i: int| 0 <= i < accounts.len() && owns(accounts[i], addr) {
        Some(choose|i: int| 0 <= i < accounts.len() && owns(accounts[i], addr))
    } else {
        None
    }
}

/// No address belongs to two accounts, nor is it both entities of one.
pub open spec fn addresses_unique(accounts: Seq<AccountRecord>) -> bool {
    &&& forall|i: int| 0 <= i < accounts.len() ==> accounts[i].controller != accounts[i].asset_holder
    &&& forall|i: int, j: int| #![trigger accounts[i], accounts[j]]
        0 <= i < accounts.len() && 0 <= j < accounts.len() && i != j ==> !owns(
            accounts[j],
            accounts[i].controller,
        ) && !owns(accounts[j], accounts[i].asset_holder)
}

/// The owning account that governance `g` names, or why it names none consistently.
pub open spec fn governance_target(accounts: Seq<AccountRecord>, g: GovernanceDetails) -> Result<
    Option<AccountId>,
    GovernanceError,
> {
    match g {
        GovernanceDetails::Monarchy { .. } => Ok(None),
        GovernanceDetails::SubAccount { controller, asset_holder } => {
            match (resolve(accounts, controller), resolve(accounts, asset_holder)) {
                (Some(i), Some(j)) => if i == j {
                    Ok(Some((i + 1) as u32))
                } else {
                    Err(GovernanceError::MismatchedAccountIds)
                },
                _ => Err(GovernanceError::UnregisteredAddress),
            }
        },
    }
}

/// Whether governance `g` names its owner consistently.
pub open spec fn target_ok(accounts: Seq<AccountRecord>, g: GovernanceDetails) -> bool {
    governance_target(accounts, g) is Ok
}

/// Whether `id` names an account of `m`.
pub open spec fn valid_id(m: RegistryModel, id: AccountId) -> bool {
    1 <= id <= m.accounts.len()
}

/// The record of account `id`.
pub open spec fn record(m: RegistryModel, id: AccountId) -> AccountRecord {
    m.accounts[id - 1]
}

/// Who may propose new governance for an account: its own controller, or its
/// current owner (the monarch, or the owning account's asset-holder, through
/// which that account's controller and whitelisted modules act).
pub open spec fn is_admin(r: AccountRecord, caller: Address) -> bool {
    caller == r.controller || match r.governance {
        GovernanceDetails::Monarchy { owner } => caller == owner,
        GovernanceDetails::SubAccount { asset_holder, .. } => caller == asset_holder,
    }
}

/// Who may accept a proposal of governance `g`: the owner it names.
pub open spec fn can_accept(g: GovernanceDetails, caller: Address) -> bool {
    match g {
        GovernanceDetails::Monarchy { owner } => caller == owner,
        GovernanceDetails::SubAccount { controller, asset_holder } => caller == controller
            || caller == asset_holder,
    }
}

/// Whether `caller` may make the asset-holder of account `id` forward actions.
pub open spec fn is_whitelisted_spec(m: RegistryModel, id: AccountId, caller: Address) -> bool {
    caller == record(m, id).controller || m.whitelists[id - 1].contains(caller)
}

/// The invariant of the registry.
pub open spec fn registry_inv(m: RegistryModel) -> bool {
    &&& m.children.len() == m.accounts.len()
    &&& m.whitelists.len() == m.accounts.len()
    &&& m.accounts.len() <= 0xFFFF_FFFF
    &&& addresses_unique(m.accounts)
    &&& forall|k: int| #![trigger m.accounts[k]]
        0 <= k < m.accounts.len() ==> governance_target(m.accounts, m.accounts[k].governance)
            == Ok::<Option<AccountId>, GovernanceError>(m.accounts[k].parent)
    &&& forall|k: int| #![trigger m.accounts[k]]
        0 <= k < m.accounts.len() && m.accounts[k].pending is Some ==> target_ok(
            m.accounts,
            m.accounts[k].pending->Some_0,
        )
    &&& forall|p: int, x: u32| #![trigger m.children[p].contains(x)]
        0 <= p < m.accounts.len() ==> (m.children[p].contains(x) <==> (1 <= x <= m.accounts.len()
            && m.accounts[x - 1].parent == Some((p + 1) as u32)))
}

/// Account creation: the new account gets the next id and, when owned by an
/// account, joins that account's children.
pub open spec fn create_spec(
    m: RegistryModel,
    controller: Address,
    asset_holder: Address,
    g: GovernanceDetails,
) -> (RegistryModel, Result<AccountId, AccountError>) {
    match governance_target(m.accounts, g) {
        Err(e) => (m, Err(AccountError::InvalidGovernance(e))),
        Ok(parent) => if m.accounts.len() >= 0xFFFF_FFFF {
            (m, Err(AccountError::RegistryFull))
        } else if controller == asset_holder || resolve(m.accounts, controller) is Some || resolve(
            m.accounts,
            asset_holder,
        ) is Some {
            (m, Err(AccountError::AddressInUse))
        } else {
            let id = (m.accounts.len() + 1) as u32;
            let rec = AccountRecord { controller, asset_holder, governance: g, pending: None, parent };
            let c0 = m.children.push(Set::empty());
            let children = match parent {
                Some(p) => c0.update(p - 1, c0[p - 1].insert(id)),
                None => c0,
            };
            (
                RegistryModel {
                    accounts: m.accounts.push(rec),
                    children,
                    whitelists: m.whitelists.push(Set::empty()),
                },
                Ok(id),
            )
        },
    }
}

pub proof fn lemma_resolve_is(accounts: Seq<AccountRecord>, addr: Address, i: int)
    requires
        addresses_unique(accounts),
        0 <= i < accounts.len(),
        owns(accounts[i], addr),
    ensures
        resolve(accounts, addr) == Some(i),
{
    let j = choose|j: int| 0 <= j < accounts.len() && owns(accounts[j], addr);
    if j != i {
        if addr == accounts[i].controller {
            assert(!owns(accounts[j], accounts[i].controller));
        } else {
            assert(!owns(accounts[j], accounts[i].asset_holder));
        }
    }
}

/// Resolution depends on the addresses alone.
proof fn lemma_resolve_same(a: Seq<AccountRecord>, b: Seq<AccountRecord>, addr: Address)
    requires
        addresses_unique(a),
        addresses_unique(b),
        a.len() <= b.len(),
        forall|i: int| 0 <= i < a.len() ==> (#[trigger] b[i]).controller == a[i].controller
            && b[i].asset_holder == a[i].asset_holder,
        forall|i: int| a.len() <= i < b.len() ==> !owns(#[trigger] b[i], addr),
    ensures
        resolve(b, addr) == resolve(a, addr),
{
    if resolve(a, addr) is Some {
        let i = resolve(a, addr)->Some_0;
        assert(owns(b[i], addr));
        lemma_resolve_is(b, addr, i);
    } else {
        assert forall|i: int| 0 <= i < b.len() implies !owns(b[i], addr) by {
            if i < a.len() {
                assert(!owns(a[i], addr));
            }
        }
    }
}

proof fn lemma_target_same(a: Seq<AccountRecord>, b: Seq<AccountRecord>, g: GovernanceDetails)
    requires
        addresses_unique(a),
        addresses_unique(b),
        a.len() <= b.len(),
        forall|i: int| 0 <= i < a.len() ==> (#[trigger] b[i]).controller == a[i].controller
            && b[i].asset_holder == a[i].asset_holder,
        target_ok(a, g),
    ensures
        governance_target(b, g) == governance_target(a, g),
{
    if let GovernanceDetails::SubAccount { controller, asset_holder } = g {
        let i = resolve(a, controller)->Some_0;
        assert(owns(b[i], controller) && owns(b[i], asset_holder));
        lemma_resolve_is(b, controller, i);
        lemma_resolve_is(b, asset_holder, i);
    }
}

/// `r` with the pending governance replaced.
pub open spec fn with_pending(r: AccountRecord, pending: Option<GovernanceDetails>) -> AccountRecord {
    AccountRecord {
        controller: r.controller,
        asset_holder: r.asset_holder,
        governance: r.governance,
        pending,
        parent: r.parent,
    }
}

/// Proposal: an admin of the account records new, valid governance as pending.
/// The child indexes stay as they are.
pub open spec fn propose_spec(
    m: RegistryModel,
    caller: Address,
    id: AccountId,
    g: GovernanceDetails,
) -> (RegistryModel, Result<(), AccountError>) {
    if !valid_id(m, id) {
        (m, Err(AccountError::UnknownAccount))
    } else if !is_admin(record(m, id), caller) {
        (m, Err(AccountError::Unauthorized))
    } else {
        match governance_target(m.accounts, g) {
            Err(e) => (m, Err(AccountError::InvalidGovernance(e))),
            Ok(_) => (
                RegistryModel {
                    accounts: m.accounts.update(id - 1, with_pending(record(m, id), Some(g))),
                    children: m.children,
                    whitelists: m.whitelists,
                },
                Ok(()),
            ),
        }
    }
}

/// Acceptance: the owner named by the pending governance commits it. In one
/// step the account leaves its old parent's children, takes the new
/// governance, drops the proposal and joins its new parent's children.
pub open spec fn accept_spec(m: RegistryModel, caller: Address, id: AccountId) -> (
    RegistryModel,
    Result<(), AccountError>,
) {
    if !valid_id(m, id) {
        (m, Err(AccountError::UnknownAccount))
    } else {
        let r = record(m, id);
        match r.pending {
            None => (m, Err(AccountError::NoPendingProposal)),
            Some(g) => if !can_accept(g, caller) {
                (m, Err(AccountError::NoPendingProposal))
            } else {
                match governance_target(m.accounts, g) {
                    Err(e) => (m, Err(AccountError::InvalidGovernance(e))),
                    Ok(np) => {
                        let c1 = match r.parent {
                            Some(p) => m.children.update(p - 1, m.children[p - 1].remove(id)),
                            None => m.children,
                        };
                        let c2 = match np {
                            Some(q) => c1.update(q - 1, c1[q - 1].insert(id)),
                            None => c1,
                        };
                        let nr = AccountRecord {
                            controller: r.controller,
                            asset_holder: r.asset_holder,
                            governance: g,
                            pending: None,
                            parent: np,
                        };
                        (
                            RegistryModel {
                                accounts: m.accounts.update(id - 1, nr),
                                children: c2,
                                whitelists: m.whitelists,
                            },
                            Ok(()),
                        )
                    },
                }
            },
        }
    }
}

/// Sub-account creation: an admin of the parent creates an account that the
/// parent owns.
pub open spec fn create_sub_account_spec(
    m: RegistryModel,
    caller: Address,
    parent: AccountId,
    controller: Address,
    asset_holder: Address,
) -> (RegistryModel, Result<AccountId, AccountError>) {
    if !valid_id(m, parent) {
        (m, Err(AccountError::UnknownAccount))
    } else if !is_admin(record(m, parent), caller) {
        (m, Err(AccountError::Unauthorized))
    } else {
        let pr = record(m, parent);
        create_spec(
            m,
            controller,
            asset_holder,
            GovernanceDetails::SubAccount { controller: pr.controller, asset_holder: pr.asset_holder },
        )
    }
}

/// Whitelist change: the account's controller adds (`add`) or removes a caller.
pub open spec fn whitelist_spec(
    m: RegistryModel,
    caller: Address,
    id: AccountId,
    module: Address,
    add: bool,
) -> (RegistryModel, Result<(), AccountError>) {
    if !valid_id(m, id) {
        (m, Err(AccountError::UnknownAccount))
    } else if caller != record(m, id).controller {
        (m, Err(AccountError::Unauthorized))
    } else {
        let w = m.whitelists[id - 1];
        (
            RegistryModel {
                accounts: m.accounts,
                children: m.children,
                whitelists: m.whitelists.update(id - 1, if add { w.insert(module) } else { w.remove(module) }),
            },
            Ok(()),
        )
    }
}

/// One action sent by `sender`.
pub open spec fn step(m: RegistryModel, sender: Address, action: AccountAction) -> (
    RegistryModel,
    Result<(), AccountError>,
) {
    match action {
        AccountAction::ProposeGovernance { account_id, governance } => propose_spec(
            m,
            sender,
            account_id,
            governance,
        ),
        AccountAction::AcceptGovernance { account_id } => accept_spec(m, sender, account_id),
    }
}

/// The actions sent by `sender` in order, stopping at the first error.
pub open spec fn run(m: RegistryModel, sender: Address, actions: Seq<AccountAction>) -> (
    RegistryModel,
    Result<(), AccountError>,
)
    decreases actions.len(),
{
    if actions.len() == 0 {
        (m, Ok(()))
    } else {
        let prev = run(m, sender, actions.drop_last());
        if prev.1 is Err {
            prev
        } else {
            step(prev.0, sender, actions.last())
        }
    }
}

/// Forwarding: a whitelisted caller has the asset-holder of account `id` send
/// `actions`, all of them or, on the first error, none.
pub open spec fn forward_spec(
    m: RegistryModel,
    caller: Address,
    id: AccountId,
    actions: Seq<AccountAction>,
) -> (RegistryModel, Result<(), AccountError>) {
    if !valid_id(m, id) {
        (m, Err(AccountError::UnknownAccount))
    } else if !is_whitelisted_spec(m, id, caller) {
        (m, Err(AccountError::Unauthorized))
    } else {
        let out = run(m, record(m, id).asset_holder, actions);
        if out.1 is Ok {
            out
        } else {
            (m, out.1)
        }
    }
}

proof fn lemma_run_err_persists(m: RegistryModel, sender: Address, actions: Seq<AccountAction>, i: int)
    requires
        0 <= i <= actions.len(),
        run(m, sender, actions.take(i)).1 is Err,
    ensures
        run(m, sender, actions).1 == run(m, sender, actions.take(i)).1,
    decreases actions.len() - i,
{
    if i < actions.len() {
        assert(actions.take(i + 1).drop_last() =~= actions.take(i));
        lemma_run_err_persists(m, sender, actions, i + 1);
    } else {
        assert(actions.take(i) =~= actions);
    }
}

proof fn lemma_unique_same(a: Seq<AccountRecord>, b: Seq<AccountRecord>)
    requires
        addresses_unique(a),
        a.len() == b.len(),
        forall|i: int| 0 <= i < a.len() ==> (#[trigger] b[i]).controller == a[i].controller
            && b[i].asset_holder == a[i].asset_holder,
    ensures
        addresses_unique(b),
{
    assert forall|i: int, j: int| #![trigger b[i], b[j]]
        0 <= i < b.len() && 0 <= j < b.len() && i != j implies !owns(b[j], b[i].controller)
        && !owns(b[j], b[i].asset_holder) by {
        assert(a[i] == a[i] && a[j] == a[j]);
    }
}

proof fn lemma_parent_bounds(m: RegistryModel, k: int)
    requires
        registry_inv(m),
        0 <= k < m.accounts.len(),
    ensures
        m.accounts[k].parent matches Some(p) ==> 1 <= p <= m.accounts.len(),
{
    assert(governance_target(m.accounts, m.accounts[k].governance) == Ok::<
        Option<AccountId>,
        GovernanceError,
    >(m.accounts[k].parent));
}

proof fn lemma_target_bounds(accounts: Seq<AccountRecord>, g: GovernanceDetails)
    requires
        accounts.len() <= 0xFFFF_FFFF,
        target_ok(accounts, g),
    ensures
        governance_target(accounts, g)->Ok_0 matches Some(p) ==> 1 <= p <= accounts.len(),
{
}

proof fn lemma_push_contains<A>(q: Seq<A>, a: A, z: A)
    ensures
        q.push(a).contains(z) <==> (q.contains(z) || z == a),
{
    if q.push(a).contains(z) {
        let j = choose|j: int| 0 <= j < q.push(a).len() && q.push(a)[j] == z;
        if j < q.len() {
            assert(q[j] == z);
        }
    }
    if q.contains(z) {
        let j = choose|j: int| 0 <= j < q.len() && q[j] == z;
        assert(q.push(a)[j] == z);
    }
    if z == a {
        assert(q.push(a)[q.len() as int] == z);
    }
}

fn copy_ids(v: &Vec<u32>) -> (r: Vec<u32>)
    ensures
        r@ == v@,
{
    let mut r: Vec<u32> = Vec::new();
    let mut i: usize = 0;
    while i < v.len()
        invariant
            0 <= i <= v.len(),
            r@ =~= v@.take(i as int),
        decreases v.len() - i,
    {
        r.push(v[i]);
        i = i + 1;
    }
    assert(v@.take(i as int) =~= v@);
    r
}

fn copy_addresses(v: &Vec<u64>) -> (r: Vec<u64>)
    ensures
        r@ == v@,
{
    let mut r: Vec<u64> = Vec::new();
    let mut i: usize = 0;
    while i < v.len()
        invariant
            0 <= i <= v.len(),
            r@ =~= v@.take(i as int),
        decreases v.len() - i,
    {
        r.push(v[i]);
        i = i + 1;
    }
    assert(v@.take(i as int) =~= v@);
    r
}

/// Accounts, their child indexes and their whitelists.
pub struct AccountRegistry {
    accounts: Vec<AccountRecord>,
    children: Vec<Vec<u32>>,
    whitelists: Vec<Vec<u64>>,
}

impl View for AccountRegistry {
    type V = RegistryModel;

    closed spec fn view(&self) -> RegistryModel {
        RegistryModel {
            accounts: self.accounts@,
            children: self.children@.map_values(|v: Vec<u32>| v@.to_set()),
            whitelists: self.whitelists@.map_values(|v: Vec<u64>| v@.to_set()),
        }
    }
}

impl AccountRegistry {
    spec fn shape_ok(&self) -> bool {
        &&& self.children.len() == self.accounts.len()
        &&& self.whitelists.len() == self.accounts.len()
        &&& forall|p: int| 0 <= p < self.children.len() ==> strictly_sorted(
            #[trigger] self.children@[p]@,
        )
    }

    /// Well-formedness: the registry invariant holds and every child index is sorted.
    pub closed spec fn inv(&self) -> bool {
        &&& self.shape_ok()
        &&& registry_inv(self@)
    }

    /// An empty registry.
    pub fn new() -> (r: Self)
        ensures
            r.inv(),
            r@ == (RegistryModel {
                accounts: Seq::empty(),
                children: Seq::empty(),
                whitelists: Seq::empty(),
            }),
    {
        let r = AccountRegistry { accounts: Vec::new(), children: Vec::new(), whitelists: Vec::new() };
        assert(r@.children =~= Seq::<Set<u32>>::empty());
        assert(r@.whitelists =~= Seq::<Set<u64>>::empty());
        assert(r@.accounts =~= Seq::<AccountRecord>::empty());
        r
    }

    /// A well-formed registry satisfies the registry invariant on its model.
    pub proof fn lemma_inv_model(&self)
        requires
            self.inv(),
        ensures
            registry_inv(self@),
    {
    }

    /// Position of the account that `addr` belongs to.
    fn find_owner(&self, addr: Address) -> (r: Option<usize>)
        requires
            addresses_unique(self.accounts@),
        ensures
            r matches Some(i) ==> resolve(self.accounts@, addr) == Some(i as int),
            r is None ==> resolve(self.accounts@, addr) is None,
    {
        let mut i: usize = 0;
        while i < self.accounts.len()
            invariant
                0 <= i <= self.accounts.len(),
                addresses_unique(self.accounts@),
                forall|k: int| 0 <= k < i ==> !owns(#[trigger] self.accounts@[k], addr),
            decreases self.accounts.len() - i,
        {
            let rec = self.accounts[i];
            if rec.controller == addr || rec.asset_holder == addr {
                proof {
                    lemma_resolve_is(self.accounts@, addr, i as int);
                }
                return Some(i);
            }
            i = i + 1;
        }
        None
    }

    /// The account that an address belongs to.
    pub fn account_id_of(&self, addr: Address) -> (r: Option<AccountId>)
        requires
            self.inv(),
        ensures
            r matches Some(id) ==> resolve(self@.accounts, addr) == Some(id - 1),
            r is None ==> resolve(self@.accounts, addr) is None,
    {
        match self.find_owner(addr) {
            Some(i) => Some((i + 1) as u32),
            None => None,
        }
    }

    /// Checks governance `g` against the registry and names its owning account.
    pub fn validate_governance(&self, g: &GovernanceDetails) -> (r: Result<
        Option<AccountId>,
        GovernanceError,
    >)
        requires
            self.inv(),
        ensures
            r == governance_target(self@.accounts, *g),
    {
        match g {
            GovernanceDetails::Monarchy { .. } => Ok(None),
            GovernanceDetails::SubAccount { controller, asset_holder } => {
                match (self.find_owner(*controller), self.find_owner(*asset_holder)) {
                    (Some(i), Some(j)) => if i == j {
                        Ok(Some((i + 1) as u32))
                    } else {
                        Err(GovernanceError::MismatchedAccountIds)
                    },
                    _ => Err(GovernanceError::UnregisteredAddress),
                }
            },
        }
    }

    /// Creates an account with the given entities and governance.
    pub fn create_account(
        &mut self,
        controller: Address,
        asset_holder: Address,
        governance: GovernanceDetails,
    ) -> (r: Result<AccountId, AccountError>)
        requires
            old(self).inv(),
        ensures
            final(self).inv(),
            (final(self)@, r) == create_spec(old(self)@, controller, asset_holder, governance),
    {
        let parent = match self.validate_governance(&governance) {
            Err(e) => return Err(AccountError::InvalidGovernance(e)),
            Ok(p) => p,
        };
        if self.accounts.len() >= 0xFFFF_FFFF {
            return Err(AccountError::RegistryFull);
        }
        if controller == asset_holder || self.find_owner(controller).is_some() || self.find_owner(
            asset_holder,
        ).is_some() {
            return Err(AccountError::AddressInUse);
        }
        let ghost m = self@;
        let id = (self.accounts.len() + 1) as u32;
        let rec = AccountRecord { controller, asset_holder, governance, pending: None, parent };
        self.accounts.push(rec);
        self.children.push(Vec::new());
        self.whitelists.push(Vec::new());
        proof {
            let a = self.accounts@;
            assert(a.len() == m.accounts.len() + 1);
            assert forall|i: int, j: int| #![trigger a[i], a[j]]
                0 <= i < a.len() && 0 <= j < a.len() && i != j implies !owns(
                a[j],
                a[i].controller,
            ) && !owns(a[j], a[i].asset_holder) by {
                if i == m.accounts.len() {
                    assert(!owns(m.accounts[j], controller));
                    assert(!owns(m.accounts[j], asset_holder));
                } else if j == m.accounts.len() {
                    assert(owns(m.accounts[i], m.accounts[i].controller));
                    assert(owns(m.accounts[i], m.accounts[i].asset_holder));
                } else {
                    assert(a[i] == m.accounts[i] && a[j] == m.accounts[j]);
                }
            }
            assert(addresses_unique(a));
            assert forall|g: GovernanceDetails| target_ok(m.accounts, g) implies governance_target(a, g)
                == governance_target(m.accounts, g) by {
                lemma_target_same(m.accounts, a, g);
            }
            let last = m.accounts.len() as int;
            assert(self.whitelists@[last]@.to_set() =~= Set::empty());
            assert(self.children@[last]@.to_set() =~= Set::empty());
            assert(self@.whitelists =~= m.whitelists.push(Set::empty()));
            assert(self@.children =~= m.children.push(Set::empty()));
        }
        let ghost pushed = self.children@;
        match parent {
            Some(p) => {
                let mut tmp: Vec<u32> = Vec::new();
                self.children.set_and_swap((p - 1) as usize, &mut tmp);
                insert_sorted(&mut tmp, id);
                self.children.set_and_swap((p - 1) as usize, &mut tmp);
            },
            None => {},
        }
        proof {
            let c0 = m.children.push(Set::empty());
            let expect = match parent {
                Some(p) => c0.update(p - 1, c0[p - 1].insert(id)),
                None => c0,
            };
            assert forall|q: int| 0 <= q < expect.len() implies #[trigger] self@.children[q] == expect[q] by {
                if parent is Some && q == parent->Some_0 - 1 {
                    assert(pushed[q]@.to_set() == c0[q]);
                }
            }
            assert(self@.children =~= expect);
            assert(self@.accounts =~= m.accounts.push(rec));
            let n = self@;
            assert forall|p: int, x: u32| #![trigger n.children[p].contains(x)]
                0 <= p < n.accounts.len() implies (n.children[p].contains(x) <==> (1 <= x
                <= n.accounts.len() && n.accounts[x - 1].parent == Some((p + 1) as u32))) by {
                if p < m.accounts.len() && 1 <= x <= m.accounts.len() {
                    assert(n.accounts[x - 1] == m.accounts[x - 1]);
                }
                if x == id {
                    assert(n.accounts[x - 1] == rec);
                }
                if p == m.accounts.len() && 1 <= x <= m.accounts.len() {
                    assert(n.accounts[x - 1] == m.accounts[x - 1]);
                    assert(governance_target(m.accounts, m.accounts[x - 1].governance) == Ok::<
                        Option<AccountId>,
                        GovernanceError,
                    >(m.accounts[x - 1].parent));
                }
            }
            assert forall|k: int| #![trigger n.accounts[k]] 0 <= k < n.accounts.len()
                implies governance_target(n.accounts, n.accounts[k].governance) == Ok::<
                Option<AccountId>,
                GovernanceError,
            >(n.accounts[k].parent) by {
                if k < m.accounts.len() {
                    assert(n.accounts[k] == m.accounts[k]);
                    assert(target_ok(m.accounts, m.accounts[k].governance));
                } else {
                    assert(n.accounts[k] == rec);
                    assert(target_ok(m.accounts, governance));
                }
            }
            assert forall|k: int| #![trigger n.accounts[k]] 0 <= k < n.accounts.len()
                && n.accounts[k].pending is Some implies target_ok(
                n.accounts,
                n.accounts[k].pending->Some_0,
            ) by {
                assert(n.accounts[k] == m.accounts[k]);
                assert(target_ok(m.accounts, m.accounts[k].pending->Some_0));
            }
            assert forall|q: int| 0 <= q < self.children.len() implies strictly_sorted(
                #[trigger] self.children@[q]@,
            ) by {
                if q < m.accounts.len() {
                    assert(self.children@[q] == old(self).children@[q] || (parent is Some && q == parent->Some_0 - 1));
                }
            }
        }
        Ok(id)
    }

    /// Adds or removes `id` in the child index at position `p`.
    fn update_children(&mut self, p: usize, id: AccountId, add: bool)
        requires
            old(self).shape_ok(),
            p < old(self).children.len(),
        ensures
            final(self).shape_ok(),
            final(self).accounts == old(self).accounts,
            final(self).whitelists == old(self).whitelists,
            final(self)@.children == old(self)@.children.update(
                p as int,
                if add {
                    old(self)@.children[p as int].insert(id)
                } else {
                    old(self)@.children[p as int].remove(id)
                },
            ),
    {
        let ghost before = self.children@;
        let mut tmp: Vec<u32> = Vec::new();
        self.children.set_and_swap(p, &mut tmp);
        if add {
            insert_sorted(&mut tmp, id);
        } else {
            remove_sorted(&mut tmp, id);
        }
        self.children.set_and_swap(p, &mut tmp);
        proof {
            assert forall|q: int| 0 <= q < self.children.len() implies strictly_sorted(
                #[trigger] self.children@[q]@,
            ) by {
                if q != p {
                    assert(self.children@[q] == before[q]);
                }
            }
            assert(self@.children =~= old(self)@.children.update(
                p as int,
                if add {
                    old(self)@.children[p as int].insert(id)
                } else {
                    old(self)@.children[p as int].remove(id)
                },
            ));
        }
    }

    fn admin_check(rec: &AccountRecord, caller: Address) -> (r: bool)
        ensures
            r == is_admin(*rec, caller),
    {
        caller == rec.controller || match rec.governance {
            GovernanceDetails::Monarchy { owner } => caller == owner,
            GovernanceDetails::SubAccount { asset_holder, .. } => caller == asset_holder,
        }
    }

    fn accept_check(g: &GovernanceDetails, caller: Address) -> (r: bool)
        ensures
            r == can_accept(*g, caller),
    {
        match g {
            GovernanceDetails::Monarchy { owner } => caller == *owner,
            GovernanceDetails::SubAccount { controller, asset_holder } => caller == *controller
                || caller == *asset_holder,
        }
    }

    /// Records `governance` as the pending proposal of account `account_id`.
    pub fn propose_governance(
        &mut self,
        caller: Address,
        account_id: AccountId,
        governance: GovernanceDetails,
    ) -> (r: Result<(), AccountError>)
        requires
            old(self).inv(),
        ensures
            final(self).inv(),
            (final(self)@, r) == propose_spec(old(self)@, caller, account_id, governance),
    {
        if account_id == 0 || account_id as usize > self.accounts.len() {
            return Err(AccountError::UnknownAccount);
        }
        let k = (account_id - 1) as usize;
        let rec = self.accounts[k];
        if !Self::admin_check(&rec, caller) {
            return Err(AccountError::Unauthorized);
        }
        match self.validate_governance(&governance) {
            Err(e) => return Err(AccountError::InvalidGovernance(e)),
            Ok(_) => {},
        }
        let ghost m = self@;
        let nr = AccountRecord {
            controller: rec.controller,
            asset_holder: rec.asset_holder,
            governance: rec.governance,
            pending: Some(governance),
            parent: rec.parent,
        };
        self.accounts.set(k, nr);
        proof {
            let a = self.accounts@;
            assert(a =~= m.accounts.update(k as int, with_pending(rec, Some(governance))));
            lemma_unique_same(m.accounts, a);
            assert forall|g: GovernanceDetails| target_ok(m.accounts, g) implies governance_target(a, g)
                == governance_target(m.accounts, g) by {
                lemma_target_same(m.accounts, a, g);
            }
            let n = self@;
            assert forall|j: int| #![trigger n.accounts[j]] 0 <= j < n.accounts.len()
                implies governance_target(n.accounts, n.accounts[j].governance) == Ok::<
                Option<AccountId>,
                GovernanceError,
            >(n.accounts[j].parent) by {
                assert(target_ok(m.accounts, m.accounts[j].governance));
            }
            assert forall|j: int| #![trigger n.accounts[j]] 0 <= j < n.accounts.len()
                && n.accounts[j].pending is Some implies target_ok(
                n.accounts,
                n.accounts[j].pending->Some_0,
            ) by {
                if j != k {
                    assert(target_ok(m.accounts, m.accounts[j].pending->Some_0));
                }
            }
            assert forall|p: int, x: u32| #![trigger n.children[p].contains(x)]
                0 <= p < n.accounts.len() implies (n.children[p].contains(x) <==> (1 <= x
                <= n.accounts.len() && n.accounts[x - 1].parent == Some((p + 1) as u32))) by {
                assert(m.children[p].contains(x) <==> (1 <= x <= m.accounts.len() && m.accounts[x
                    - 1].parent == Some((p + 1) as u32)));
            }
        }
        Ok(())
    }

    /// Commits the governance pending on account `account_id`, moving the
    /// account between child indexes in the same step. Ownership cycles are
    /// not looked for: an account may end up owned, directly or through other
    /// accounts, by itself.
    pub fn accept_governance(&mut self, caller: Address, account_id: AccountId) -> (r: Result<
        (),
        AccountError,
    >)
        requires
            old(self).inv(),
        ensures
            final(self).inv(),
            (final(self)@, r) == accept_spec(old(self)@, caller, account_id),
    {
        if account_id == 0 || account_id as usize > self.accounts.len() {
            return Err(AccountError::UnknownAccount);
        }
        let k = (account_id - 1) as usize;
        let rec = self.accounts[k];
        let g = match rec.pending {
            None => return Err(AccountError::NoPendingProposal),
            Some(g) => g,
        };
        if !Self::accept_check(&g, caller) {
            return Err(AccountError::NoPendingProposal);
        }
        let np = match self.validate_governance(&g) {
            Err(e) => return Err(AccountError::InvalidGovernance(e)),
            Ok(np) => np,
        };
        let ghost m = self@;
        proof {
            lemma_parent_bounds(m, k as int);
            lemma_target_bounds(m.accounts, g);
        }
        match rec.parent {
            Some(p) => self.update_children((p - 1) as usize, account_id, false),
            None => {},
        }
        let ghost c1 = self@.children;
        let nr = AccountRecord {
            controller: rec.controller,
            asset_holder: rec.asset_holder,
            governance: g,
            pending: None,
            parent: np,
        };
        self.accounts.set(k, nr);
        proof {
            assert forall|q: int| 0 <= q < self.children.len() implies strictly_sorted(
                #[trigger] self.children@[q]@,
            ) by {}
        }
        match np {
            Some(q) => self.update_children((q - 1) as usize, account_id, true),
            None => {},
        }
        proof {
            let a = self.accounts@;
            assert(a =~= m.accounts.update(k as int, nr));
            lemma_unique_same(m.accounts, a);
            assert forall|h: GovernanceDetails| target_ok(m.accounts, h) implies governance_target(a, h)
                == governance_target(m.accounts, h) by {
                lemma_target_same(m.accounts, a, h);
            }
            let n = self@;
            assert forall|j: int| #![trigger n.accounts[j]] 0 <= j < n.accounts.len()
                implies governance_target(n.accounts, n.accounts[j].governance) == Ok::<
                Option<AccountId>,
                GovernanceError,
            >(n.accounts[j].parent) by {
                assert(target_ok(m.accounts, m.accounts[j].governance));
            }
            assert forall|j: int| #![trigger n.accounts[j]] 0 <= j < n.accounts.len()
                && n.accounts[j].pending is Some implies target_ok(
                n.accounts,
                n.accounts[j].pending->Some_0,
            ) by {
                if j != k {
                    assert(target_ok(m.accounts, m.accounts[j].pending->Some_0));
                }
            }
            assert forall|p: int, x: u32| #![trigger n.children[p].contains(x)]
                0 <= p < n.accounts.len() implies (n.children[p].contains(x) <==> (1 <= x
                <= n.accounts.len() && n.accounts[x - 1].parent == Some((p + 1) as u32))) by {
                assert(m.children[p].contains(x) <==> (1 <= x <= m.accounts.len() && m.accounts[x
                    - 1].parent == Some((p + 1) as u32)));
                if x != account_id && 1 <= x <= n.accounts.len() {
                    assert(n.accounts[x - 1] == m.accounts[x - 1]);
                }
            }
        }
        Ok(())
    }

    /// Adds (`add`) or removes `module` in the whitelist at position `k`.
    fn update_whitelist(&mut self, k: usize, module: Address, add: bool)
        requires
            old(self).shape_ok(),
            k < old(self).whitelists.len(),
        ensures
            final(self).shape_ok(),
            final(self).accounts == old(self).accounts,
            final(self).children == old(self).children,
            final(self)@.whitelists == old(self)@.whitelists.update(
                k as int,
                if add {
                    old(self)@.whitelists[k as int].insert(module)
                } else {
                    old(self)@.whitelists[k as int].remove(module)
                },
            ),
    {
        let mut old_list: Vec<u64> = Vec::new();
        self.whitelists.set_and_swap(k, &mut old_list);
        let ghost s = old_list@;
        let mut kept: Vec<u64> = Vec::new();
        let mut i: usize = 0;
        while i < old_list.len()
            invariant
                0 <= i <= old_list.len(),
                old_list@ == s,
                forall|y: u64| #[trigger] kept@.contains(y) <==> (s.take(i as int).contains(y) && y
                    != module),
            decreases old_list.len() - i,
        {
            let y = old_list[i];
            let ghost k0 = kept@;
            let ghost t0 = s.take(i as int);
            let ghost t1 = s.take(i + 1);
            proof {
                assert(t1 =~= t0.push(y));
            }
            if y != module {
                kept.push(y);
            }
            proof {
                assert forall|z: u64| #[trigger] kept@.contains(z) <==> (t1.contains(z) && z != module) by {
                    assert(k0.contains(z) <==> (t0.contains(z) && z != module));
                    lemma_push_contains(t0, y, z);
                    lemma_push_contains(k0, y, z);
                }
            }
            i = i + 1;
        }
        let ghost pre = kept@;
        if add {
            kept.push(module);
        }
        proof {
            assert(s.take(s.len() as int) =~= s);
            let target = if add {
                s.to_set().insert(module)
            } else {
                s.to_set().remove(module)
            };
            assert forall|z: u64| #[trigger] kept@.to_set().contains(z) <==> target.contains(z) by {
                assert(pre.contains(z) <==> (s.contains(z) && z != module));
                lemma_push_contains(pre, module, z);
            }
            assert(kept@.to_set() =~= target);
        }
        self.whitelists.set_and_swap(k, &mut kept);
        proof {
            assert(self@.whitelists =~= old(self)@.whitelists.update(
                k as int,
                if add {
                    old(self)@.whitelists[k as int].insert(module)
                } else {
                    old(self)@.whitelists[k as int].remove(module)
                },
            ));
        }
    }

    fn whitelist_change(&mut self, caller: Address, account_id: AccountId, module: Address, add: bool)
        -> (r: Result<(), AccountError>)
        requires
            old(self).inv(),
        ensures
            final(self).inv(),
            (final(self)@, r) == whitelist_spec(old(self)@, caller, account_id, module, add),
    {
        if account_id == 0 || account_id as usize > self.accounts.len() {
            return Err(AccountError::UnknownAccount);
        }
        let k = (account_id - 1) as usize;
        if caller != self.accounts[k].controller {
            return Err(AccountError::Unauthorized);
        }
        let ghost m = self@;
        self.update_whitelist(k, module, add);
        proof {
            let n = self@;
            assert(n.accounts == m.accounts);
            assert(n.children == m.children);
        }
        Ok(())
    }

    /// Lets `module` make the asset-holder of account `account_id` forward
    /// actions; only the account's controller may do so.
    pub fn add_to_whitelist(&mut self, caller: Address, account_id: AccountId, module: Address)
        -> (r: Result<(), AccountError>)
        requires
            old(self).inv(),
        ensures
            final(self).inv(),
            (final(self)@, r) == whitelist_spec(old(self)@, caller, account_id, module, true),
    {
        self.whitelist_change(caller, account_id, module, true)
    }

    /// Takes `module` off the whitelist of account `account_id`; only the
    /// account's controller may do so.
    pub fn remove_from_whitelist(&mut self, caller: Address, account_id: AccountId, module: Address)
        -> (r: Result<(), AccountError>)
        requires
            old(self).inv(),
        ensures
            final(self).inv(),
            (final(self)@, r) == whitelist_spec(old(self)@, caller, account_id, module, false),
    {
        self.whitelist_change(caller, account_id, module, false)
    }

    /// Whether `caller` may have the asset-holder of account `account_id` forward actions.
    pub fn is_whitelisted(&self, account_id: AccountId, caller: Address) -> (r: bool)
        requires
            self.inv(),
            valid_id(self@, account_id),
        ensures
            r == is_whitelisted_spec(self@, account_id, caller),
    {
        let k = (account_id - 1) as usize;
        if caller == self.accounts[k].controller {
            return true;
        }
        let list = &self.whitelists[k];
        let mut i: usize = 0;
        while i < list.len()
            invariant
                0 <= i <= list.len(),
                self.inv(),
                valid_id(self@, account_id),
                k == account_id - 1,
                list@ == self.whitelists@[k as int]@,
                forall|j: int| 0 <= j < i ==> list@[j] != caller,
            decreases list.len() - i,
        {
            if list[i] == caller {
                proof {
                    assert(list@.contains(caller));
                    assert(self@.whitelists[k as int] == list@.to_set());
                }
                return true;
            }
            i = i + 1;
        }
        proof {
            assert(!list@.contains(caller));
            assert(self@.whitelists[k as int] == list@.to_set());
        }
        false
    }

    /// Performs one action with `sender` as its sender.
    pub fn execute(&mut self, sender: Address, action: AccountAction) -> (r: Result<(), AccountError>)
        requires
            old(self).inv(),
        ensures
            final(self).inv(),
            (final(self)@, r) == step(old(self)@, sender, action),
    {
        match action {
            AccountAction::ProposeGovernance { account_id, governance } => self.propose_governance(
                sender,
                account_id,
                governance,
            ),
            AccountAction::AcceptGovernance { account_id } => self.accept_governance(
                sender,
                account_id,
            ),
        }
    }

    /// A copy of the registry.
    fn duplicate(&self) -> (r: Self)
        requires
            self.inv(),
        ensures
            r.inv(),
            r@ == self@,
    {
        let mut accounts: Vec<AccountRecord> = Vec::new();
        let mut children: Vec<Vec<u32>> = Vec::new();
        let mut whitelists: Vec<Vec<u64>> = Vec::new();
        let mut i: usize = 0;
        while i < self.accounts.len()
            invariant
                0 <= i <= self.accounts.len(),
                self.shape_ok(),
                accounts@ =~= self.accounts@.take(i as int),
                children.len() == i && whitelists.len() == i,
                forall|j: int| 0 <= j < i ==> (#[trigger] children@[j])@ == self.children@[j]@,
                forall|j: int| 0 <= j < i ==> (#[trigger] whitelists@[j])@ == self.whitelists@[j]@,
            decreases self.accounts.len() - i,
        {
            accounts.push(self.accounts[i]);
            children.push(copy_ids(&self.children[i]));
            whitelists.push(copy_addresses(&self.whitelists[i]));
            i = i + 1;
        }
        let r = AccountRegistry { accounts, children, whitelists };
        proof {
            assert(self.accounts@.take(i as int) =~= self.accounts@);
            assert(r@.children =~= self@.children);
            assert(r@.whitelists =~= self@.whitelists);
            assert forall|p: int| 0 <= p < r.children.len() implies strictly_sorted(
                #[trigger] r.children@[p]@,
            ) by {
                assert(r.children@[p]@ == self.children@[p]@);
            }
        }
        r
    }

    /// Has the asset-holder of account `account_id` send `actions` in order,
    /// on behalf of a whitelisted `caller`. Either every action takes effect or,
    /// on the first error, none does.
    pub fn forward_action(&mut self, caller: Address, account_id: AccountId, actions: &Vec<AccountAction>)
        -> (r: Result<(), AccountError>)
        requires
            old(self).inv(),
        ensures
            final(self).inv(),
            (final(self)@, r) == forward_spec(old(self)@, caller, account_id, actions@),
    {
        if account_id == 0 || account_id as usize > self.accounts.len() {
            return Err(AccountError::UnknownAccount);
        }
        if !self.is_whitelisted(account_id, caller) {
            return Err(AccountError::Unauthorized);
        }
        let sender = self.accounts[(account_id - 1) as usize].asset_holder;
        let ghost m = self@;
        let mut work = self.duplicate();
        let mut i: usize = 0;
        while i < actions.len()
            invariant
                0 <= i <= actions.len(),
                work.inv(),
                self.inv(),
                self@ == m,
                valid_id(m, account_id),
                is_whitelisted_spec(m, account_id, caller),
                sender == record(m, account_id).asset_holder,
                run(m, sender, actions@.take(i as int)) == (work@, Ok::<(), AccountError>(())),
            decreases actions.len() - i,
        {
            let ghost before = work@;
            proof {
                assert(actions@.take(i + 1).drop_last() =~= actions@.take(i as int));
                assert(actions@.take(i + 1).last() == actions@[i as int]);
            }
            match work.execute(sender, actions[i]) {
                Err(e) => {
                    proof {
                        assert(run(m, sender, actions@.take(i + 1)) == step(before, sender, actions@[i as int]));
                        lemma_run_err_persists(m, sender, actions@, i + 1);
                    }
                    return Err(e);
                },
                Ok(()) => {},
            }
            i = i + 1;
        }
        proof {
            assert(actions@.take(i as int) =~= actions@);
        }
        *self = work;
        Ok(())
    }

    /// A page of the children of account `account_id`, in increasing order of
    /// id: those after `start_after`, at most `limit` of them (default
    /// `DEFAULT_PAGE_LIMIT`, clamped to `MAX_PAGE_LIMIT`).
    pub fn list_sub_accounts(
        &self,
        account_id: AccountId,
        start_after: Option<AccountId>,
        limit: Option<u32>,
    ) -> (r: Result<Vec<AccountId>, AccountError>)
        requires
            self.inv(),
        ensures
            !valid_id(self@, account_id) ==> r == Err::<Vec<AccountId>, AccountError>(
                AccountError::UnknownAccount,
            ),
            valid_id(self@, account_id) ==> r is Ok && r->Ok_0@ == page(
                sorted_of(self@.children[account_id - 1]),
                start_after,
                effective_limit(limit),
            ),
    {
        if account_id == 0 || account_id as usize > self.accounts.len() {
            return Err(AccountError::UnknownAccount);
        }
        let n: u32 = match limit {
            Some(l) => if l <= MAX_PAGE_LIMIT {
                l
            } else {
                MAX_PAGE_LIMIT
            },
            None => DEFAULT_PAGE_LIMIT,
        };
        let list = &self.children[(account_id - 1) as usize];
        proof {
            lemma_sorted_of(list@);
        }
        Ok(page_of(list, start_after, n))
    }

    /// The committed record of account `account_id`.
    pub fn account(&self, account_id: AccountId) -> (r: Result<AccountRecord, AccountError>)
        requires
            self.inv(),
        ensures
            !valid_id(self@, account_id) ==> r == Err::<AccountRecord, AccountError>(
                AccountError::UnknownAccount,
            ),
            valid_id(self@, account_id) ==> r == Ok::<AccountRecord, AccountError>(
                record(self@, account_id),
            ),
    {
        if account_id == 0 || account_id as usize > self.accounts.len() {
            return Err(AccountError::UnknownAccount);
        }
        Ok(self.accounts[(account_id - 1) as usize])
    }

    /// Number of accounts.
    pub fn len(&self) -> (r: usize)
        requires
            self.inv(),
        ensures
            r == self@.accounts.len(),
    {
        self.accounts.len()
    }

    /// Creates an account owned by account `parent`, on behalf of an admin of `parent`.
    pub fn create_sub_account(
        &mut self,
        caller: Address,
        parent: AccountId,
        controller: Address,
        asset_holder: Address,
    ) -> (r: Result<AccountId, AccountError>)
        requires
            old(self).inv(),
        ensures
            final(self).inv(),
            (final(self)@, r) == create_sub_account_spec(
                old(self)@,
                caller,
                parent,
                controller,
                asset_holder,
            ),
    {
        if parent == 0 || parent as usize > self.accounts.len() {
            return Err(AccountError::UnknownAccount);
        }
        let pr = self.accounts[(parent - 1) as usize];
        if !Self::admin_check(&pr, caller) {
            return Err(AccountError::Unauthorized);
        }
        self.create_account(
            controller,
            asset_holder,
            GovernanceDetails::SubAccount { controller: pr.controller, asset_holder: pr.asset_holder },
        )
    }
}

/// An account owned by another account is a child of exactly the account its
/// governance names: that account's enumeration of children holds it once (it
/// is strictly increasing), and no other account's enumeration holds it.
pub proof fn lemma_index_consistency(reg: &AccountRegistry, k: int)
    requires
        reg.inv(),
        0 <= k < reg@.accounts.len(),
        reg@.accounts[k].governance is SubAccount,
    ensures
        ({
            let m = reg@;
            let id = (k + 1) as u32;
            let parent = m.accounts[k].parent;
            &&& parent is Some
            &&& governance_target(m.accounts, m.accounts[k].governance) == Ok::<
                Option<AccountId>,
                GovernanceError,
            >(parent)
            &&& 1 <= parent->Some_0 <= m.accounts.len()
            &&& strictly_sorted(sorted_of(m.children[parent->Some_0 - 1]))
            &&& sorted_of(m.children[parent->Some_0 - 1]).contains(id)
            &&& forall|q: int|
                0 <= q < m.children.len() && q != parent->Some_0 - 1 ==> !(#[trigger] sorted_of(
                    m.children[q],
                )).contains(id)
        }),
{
    let m = reg@;
    let id = (k + 1) as u32;
    assert(m.accounts[k] == m.accounts[k]);
    lemma_parent_bounds(m, k);
    let p = m.accounts[k].parent->Some_0;
    assert forall|q: int| 0 <= q < m.children.len() implies #[trigger] sorted_of(m.children[q])
        == reg.children@[q]@ && strictly_sorted(reg.children@[q]@) by {
        assert(m.children[q] == reg.children@[q]@.to_set());
        lemma_sorted_of(reg.children@[q]@);
    }
    assert(m.children[p - 1].contains(id));
    assert(reg.children@[p - 1]@.to_set().contains(id));
    assert forall|q: int| 0 <= q < m.children.len() && q != p - 1 implies !(#[trigger] sorted_of(
        m.children[q],
    )).contains(id) by {
        assert(!m.children[q].contains(id));
        assert(m.children[q] == reg.children@[q]@.to_set());
    }
}

} // verus!
