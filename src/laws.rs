use vstd::prelude::*;

use crate::governance::{AccountAction, AccountError, AccountId, Address, GovernanceDetails, GovernanceError};
use crate::index::{page, sorted_of};
use crate::registry::{
    accept_spec, create_spec, forward_spec, is_admin, is_whitelisted_spec, propose_spec, record,
    registry_inv, resolve, valid_id, RegistryModel,
};

verus! {

/// A proposal never touches a child index, so every listing of every account
/// reads the same before and after it, whatever its outcome.
pub proof fn lemma_propose_keeps_listings(
    m: RegistryModel,
    caller: Address,
    id: AccountId,
    g: GovernanceDetails,
    start_after: Option<AccountId>,
    limit: nat,
)
    ensures
        propose_spec(m, caller, id, g).0.children == m.children,
        forall|p: int| 0 <= p < m.children.len() ==> #[trigger] page(
            sorted_of(propose_spec(m, caller, id, g).0.children[p]),
            start_after,
            limit,
        ) == page(sorted_of(m.children[p]), start_after, limit),
{
}

/// A successful acceptance moves the account out of its old parent's
/// children and into its new parent's children in one step; the pending
/// proposal becomes the governance.
pub proof fn lemma_accept_reparents(m: RegistryModel, caller: Address, id: AccountId)
    requires
        registry_inv(m),
        accept_spec(m, caller, id).1 is Ok,
    ensures
        ({
            let n = accept_spec(m, caller, id).0;
            let old_parent = record(m, id).parent;
            let new_parent = record(n, id).parent;
            &&& record(m, id).pending is Some
            &&& record(n, id).governance == record(m, id).pending->Some_0
            &&& record(n, id).pending is None
            &&& (new_parent != old_parent ==> (old_parent matches Some(p) ==> !n.children[p
                - 1].contains(id)))
            &&& (new_parent matches Some(q) ==> n.children[q - 1].contains(id))
            &&& forall|r: int|
                0 <= r < m.children.len() && Some((r + 1) as u32) != old_parent && Some(
                    (r + 1) as u32,
                ) != new_parent ==> #[trigger] n.children[r] == m.children[r]
        }),
{
    let r = record(m, id);
    assert(m.accounts[id - 1] == r);
    assert(crate::registry::governance_target(m.accounts, r.governance) == Ok::<
        Option<AccountId>,
        GovernanceError,
    >(r.parent));
}

/// A failed acceptance leaves the registry exactly as it was.
pub proof fn lemma_failed_accept_keeps_state(m: RegistryModel, caller: Address, id: AccountId)
    requires
        accept_spec(m, caller, id).1 is Err,
    ensures
        accept_spec(m, caller, id).0 == m,
{
}

/// Accepting governance that names the current parent again keeps every
/// child index as it was.
pub proof fn lemma_accept_same_parent_keeps_children(m: RegistryModel, caller: Address, id: AccountId)
    requires
        registry_inv(m),
        accept_spec(m, caller, id).1 is Ok,
        record(accept_spec(m, caller, id).0, id).parent == record(m, id).parent,
    ensures
        accept_spec(m, caller, id).0.children =~= m.children,
{
    let r = record(m, id);
    if let Some(p) = r.parent {
        assert(m.accounts[id - 1] == r);
        assert(crate::registry::governance_target(m.accounts, r.governance) == Ok::<
            Option<AccountId>,
            GovernanceError,
        >(r.parent));
        assert(m.children[p - 1].contains(id));
        assert(m.children[p - 1].remove(id).insert(id) =~= m.children[p - 1]);
    }
}

/// Forwarding from a caller that is neither whitelisted nor the controller
/// fails with `Unauthorized` and changes nothing.
pub proof fn lemma_unauthorized_forward(
    m: RegistryModel,
    caller: Address,
    id: AccountId,
    actions: Seq<AccountAction>,
)
    requires
        valid_id(m, id),
        !is_whitelisted_spec(m, id, caller),
    ensures
        forward_spec(m, caller, id, actions) == (m, Err::<(), AccountError>(AccountError::Unauthorized)),
{
}

/// A forwarded batch that fails anywhere leaves the registry as it was.
pub proof fn lemma_failed_forward_keeps_state(
    m: RegistryModel,
    caller: Address,
    id: AccountId,
    actions: Seq<AccountAction>,
)
    requires
        forward_spec(m, caller, id, actions).1 is Err,
    ensures
        forward_spec(m, caller, id, actions).0 == m,
{
}

/// Governance naming a controller and an asset-holder of two different
/// accounts is refused, by account creation and by a proposal alike, and
/// nothing changes.
pub proof fn lemma_mismatched_governance_rejected(
    m: RegistryModel,
    controller: Address,
    asset_holder: Address,
    caller: Address,
    id: AccountId,
    new_controller: Address,
    new_asset_holder: Address,
)
    requires
        resolve(m.accounts, controller) is Some,
        resolve(m.accounts, asset_holder) is Some,
        resolve(m.accounts, controller) != resolve(m.accounts, asset_holder),
    ensures
        ({
            let g = GovernanceDetails::SubAccount { controller, asset_holder };
            let e = Err::<(), AccountError>(
                AccountError::InvalidGovernance(GovernanceError::MismatchedAccountIds),
            );
            &&& create_spec(m, new_controller, new_asset_holder, g) == (m, Err::<
                AccountId,
                AccountError,
            >(AccountError::InvalidGovernance(GovernanceError::MismatchedAccountIds)))
            &&& (valid_id(m, id) && is_admin(record(m, id), caller) ==> propose_spec(
                m,
                caller,
                id,
                g,
            ) == (m, e))
        }),
{
}

} // verus!
