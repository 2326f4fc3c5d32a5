use abstract_account::governance::{AccountAction, AccountError, GovernanceDetails, GovernanceError};
use abstract_account::index::{DEFAULT_PAGE_LIMIT, MAX_PAGE_LIMIT};
use abstract_account::registry::AccountRegistry;

const U1: u64 = 1;
const U2: u64 = 2;
const STRANGER: u64 = 9;
const MODULE: u64 = 7;

fn ctl(n: u64) -> u64 {
    500 + 2 * n
}

fn holder(n: u64) -> u64 {
    501 + 2 * n
}

fn sub_of(n: u64) -> GovernanceDetails {
    GovernanceDetails::SubAccount { controller: ctl(n), asset_holder: holder(n) }
}

/// Root account 1 owned by U1, with sub-account 2.
fn root_and_sub() -> AccountRegistry {
    let mut reg = AccountRegistry::new();
    assert_eq!(reg.create_account(ctl(1), holder(1), GovernanceDetails::Monarchy { owner: U1 }), Ok(1));
    assert_eq!(reg.create_sub_account(U1, 1, ctl(2), holder(2)), Ok(2));
    reg
}

#[test]
fn scenario_create_sub_account_lists_it() {
    let reg = root_and_sub();
    assert_eq!(reg.list_sub_accounts(1, None, None).unwrap(), vec![2]);
    assert_eq!(reg.account(2).unwrap().governance, sub_of(1));
    assert_eq!(reg.account(2).unwrap().parent, Some(1));
}

#[test]
fn scenario_propose_does_not_touch_index() {
    let mut reg = root_and_sub();
    reg.propose_governance(ctl(2), 2, GovernanceDetails::Monarchy { owner: U2 }).unwrap();
    assert_eq!(reg.list_sub_accounts(1, None, None).unwrap(), vec![2]);
    assert_eq!(reg.account(2).unwrap().governance, sub_of(1));
    assert_eq!(reg.account(2).unwrap().pending, Some(GovernanceDetails::Monarchy { owner: U2 }));
    reg.accept_governance(U2, 2).unwrap();
    assert_eq!(reg.list_sub_accounts(1, None, None).unwrap(), Vec::<u32>::new());
    assert_eq!(reg.account(2).unwrap().governance, GovernanceDetails::Monarchy { owner: U2 });
    assert_eq!(reg.account(2).unwrap().pending, None);
    assert_eq!(reg.account(2).unwrap().parent, None);
}

#[test]
fn scenario_recursive_sub_account_and_same_parent() {
    let mut reg = root_and_sub();
    assert_eq!(reg.create_sub_account(ctl(2), 2, ctl(3), holder(3)), Ok(3));
    assert_eq!(reg.list_sub_accounts(2, None, None).unwrap(), vec![3]);
    reg.propose_governance(ctl(3), 3, sub_of(2)).unwrap();
    assert_eq!(reg.list_sub_accounts(2, None, None).unwrap(), vec![3]);
    reg.accept_governance(holder(2), 3).unwrap();
    assert_eq!(reg.list_sub_accounts(2, None, None).unwrap(), vec![3]);
    assert_eq!(reg.list_sub_accounts(1, None, None).unwrap(), vec![2]);
}

#[test]
fn scenario_cross_reparent_moves_id() {
    let mut reg = root_and_sub();
    assert_eq!(reg.create_sub_account(U1, 1, ctl(3), holder(3)), Ok(3));
    assert_eq!(reg.create_sub_account(ctl(2), 2, ctl(4), holder(4)), Ok(4));
    reg.propose_governance(ctl(4), 4, sub_of(3)).unwrap();
    assert_eq!(reg.list_sub_accounts(2, None, None).unwrap(), vec![4]);
    assert_eq!(reg.list_sub_accounts(3, None, None).unwrap(), Vec::<u32>::new());
    reg.accept_governance(ctl(3), 4).unwrap();
    assert_eq!(reg.list_sub_accounts(2, None, None).unwrap(), Vec::<u32>::new());
    assert_eq!(reg.list_sub_accounts(3, None, None).unwrap(), vec![4]);
    assert_eq!(reg.account(4).unwrap().parent, Some(3));
}

#[test]
fn scenario_unwhitelisted_forward_is_refused() {
    let mut reg = root_and_sub();
    reg.propose_governance(ctl(2), 2, GovernanceDetails::Monarchy { owner: U2 }).unwrap();
    let r = reg.forward_action(STRANGER, 2, &vec![AccountAction::AcceptGovernance { account_id: 2 }]);
    assert_eq!(r, Err(AccountError::Unauthorized));
    assert_eq!(reg.list_sub_accounts(1, None, None).unwrap(), vec![2]);
    assert_eq!(reg.account(2).unwrap().governance, sub_of(1));
    assert!(!reg.is_whitelisted(2, STRANGER));
    assert!(reg.is_whitelisted(2, ctl(2)));
}

#[test]
fn mismatched_governance_rejected_at_creation() {
    let mut reg = root_and_sub();
    let g = GovernanceDetails::SubAccount { controller: ctl(2), asset_holder: holder(1) };
    let err = reg.create_account(ctl(5), holder(5), g).unwrap_err();
    assert_eq!(err, AccountError::InvalidGovernance(GovernanceError::MismatchedAccountIds));
    assert_eq!(err.message(), "manager and proxy has different account ids");
    assert_eq!(reg.len(), 2);
    assert_eq!(reg.validate_governance(&g), Err(GovernanceError::MismatchedAccountIds));
}

#[test]
fn unregistered_governance_address_rejected() {
    let mut reg = root_and_sub();
    let g = GovernanceDetails::SubAccount { controller: ctl(2), asset_holder: 4242 };
    assert_eq!(
        reg.propose_governance(ctl(2), 2, g),
        Err(AccountError::InvalidGovernance(GovernanceError::UnregisteredAddress))
    );
    assert_eq!(reg.account(2).unwrap().pending, None);
}

#[test]
fn validate_governance_names_parent() {
    let reg = root_and_sub();
    assert_eq!(reg.validate_governance(&sub_of(2)), Ok(Some(2)));
    assert_eq!(reg.validate_governance(&GovernanceDetails::Monarchy { owner: U2 }), Ok(None));
    assert_eq!(reg.account_id_of(holder(2)), Some(2));
    assert_eq!(reg.account_id_of(ctl(1)), Some(1));
    assert_eq!(reg.account_id_of(STRANGER), None);
}

#[test]
fn unknown_account_errors() {
    let mut reg = root_and_sub();
    assert_eq!(reg.account(0).unwrap_err(), AccountError::UnknownAccount);
    assert_eq!(reg.account(3).unwrap_err(), AccountError::UnknownAccount);
    assert_eq!(reg.list_sub_accounts(7, None, None), Err(AccountError::UnknownAccount));
    assert_eq!(reg.accept_governance(U1, 9), Err(AccountError::UnknownAccount));
    assert_eq!(
        reg.propose_governance(U1, 9, GovernanceDetails::Monarchy { owner: U2 }),
        Err(AccountError::UnknownAccount)
    );
    assert_eq!(reg.create_sub_account(U1, 5, ctl(6), holder(6)), Err(AccountError::UnknownAccount));
    assert_eq!(reg.forward_action(U1, 5, &vec![]), Err(AccountError::UnknownAccount));
}

#[test]
fn unauthorized_errors() {
    let mut reg = root_and_sub();
    assert_eq!(
        reg.propose_governance(STRANGER, 1, GovernanceDetails::Monarchy { owner: U2 }),
        Err(AccountError::Unauthorized)
    );
    assert_eq!(reg.create_sub_account(STRANGER, 1, ctl(6), holder(6)), Err(AccountError::Unauthorized));
    assert_eq!(reg.add_to_whitelist(U1, 1, MODULE), Err(AccountError::Unauthorized));
    assert_eq!(reg.len(), 2);
}

#[test]
fn accept_needs_matching_pending() {
    let mut reg = root_and_sub();
    assert_eq!(reg.accept_governance(U2, 2), Err(AccountError::NoPendingProposal));
    reg.propose_governance(ctl(2), 2, GovernanceDetails::Monarchy { owner: U2 }).unwrap();
    assert_eq!(reg.accept_governance(U1, 2), Err(AccountError::NoPendingProposal));
    assert_eq!(reg.list_sub_accounts(1, None, None).unwrap(), vec![2]);
    assert_eq!(reg.account(2).unwrap().pending, Some(GovernanceDetails::Monarchy { owner: U2 }));
}

#[test]
fn last_proposal_wins() {
    let mut reg = root_and_sub();
    reg.propose_governance(ctl(2), 2, GovernanceDetails::Monarchy { owner: U2 }).unwrap();
    reg.propose_governance(ctl(2), 2, GovernanceDetails::Monarchy { owner: STRANGER }).unwrap();
    assert_eq!(reg.accept_governance(U2, 2), Err(AccountError::NoPendingProposal));
    reg.accept_governance(STRANGER, 2).unwrap();
    assert_eq!(reg.account(2).unwrap().governance, GovernanceDetails::Monarchy { owner: STRANGER });
}

#[test]
fn proposing_current_governance_is_allowed() {
    let mut reg = root_and_sub();
    reg.propose_governance(ctl(2), 2, sub_of(1)).unwrap();
    assert_eq!(reg.account(2).unwrap().pending, Some(sub_of(1)));
    reg.accept_governance(ctl(1), 2).unwrap();
    assert_eq!(reg.list_sub_accounts(1, None, None).unwrap(), vec![2]);
}

#[test]
fn address_reuse_is_refused() {
    let mut reg = root_and_sub();
    let g = GovernanceDetails::Monarchy { owner: U1 };
    assert_eq!(reg.create_account(ctl(2), holder(9), g), Err(AccountError::AddressInUse));
    assert_eq!(reg.create_account(ctl(9), holder(1), g), Err(AccountError::AddressInUse));
    assert_eq!(reg.create_account(77, 77, g), Err(AccountError::AddressInUse));
    assert_eq!(reg.create_account(ctl(3), holder(3), g), Ok(3));
}

#[test]
fn failed_forward_batch_rolls_back() {
    let mut reg = root_and_sub();
    reg.add_to_whitelist(ctl(1), 1, MODULE).unwrap();
    assert!(reg.is_whitelisted(1, MODULE));
    let actions = vec![
        AccountAction::ProposeGovernance {
            account_id: 2,
            governance: GovernanceDetails::Monarchy { owner: U2 },
        },
        AccountAction::AcceptGovernance { account_id: 2 },
    ];
    // the asset-holder of account 1 is not the proposed owner: the accept fails
    assert_eq!(reg.forward_action(MODULE, 1, &actions), Err(AccountError::NoPendingProposal));
    assert_eq!(reg.account(2).unwrap().pending, None);
    assert_eq!(reg.list_sub_accounts(1, None, None).unwrap(), vec![2]);
}

#[test]
fn forward_batch_applies_in_order() {
    let mut reg = root_and_sub();
    assert_eq!(reg.create_account(ctl(3), holder(3), GovernanceDetails::Monarchy { owner: U1 }), Ok(3));
    reg.propose_governance(U1, 3, sub_of(2)).unwrap();
    let actions = vec![
        AccountAction::AcceptGovernance { account_id: 3 },
        AccountAction::ProposeGovernance {
            account_id: 3,
            governance: GovernanceDetails::Monarchy { owner: U2 },
        },
    ];
    reg.forward_action(ctl(2), 2, &actions).unwrap();
    assert_eq!(reg.list_sub_accounts(2, None, None).unwrap(), vec![3]);
    assert_eq!(reg.account(3).unwrap().pending, Some(GovernanceDetails::Monarchy { owner: U2 }));
    assert_eq!(reg.forward_action(ctl(2), 2, &vec![]), Ok(()));
}

#[test]
fn whitelist_removal_revokes_forwarding() {
    let mut reg = root_and_sub();
    reg.add_to_whitelist(ctl(2), 2, MODULE).unwrap();
    assert!(reg.is_whitelisted(2, MODULE));
    reg.remove_from_whitelist(ctl(2), 2, MODULE).unwrap();
    assert!(!reg.is_whitelisted(2, MODULE));
    assert_eq!(reg.forward_action(MODULE, 2, &vec![]), Err(AccountError::Unauthorized));
}

#[test]
fn execute_acts_as_sender() {
    let mut reg = root_and_sub();
    let action = AccountAction::ProposeGovernance {
        account_id: 2,
        governance: GovernanceDetails::Monarchy { owner: U2 },
    };
    assert_eq!(reg.execute(STRANGER, action), Err(AccountError::Unauthorized));
    assert_eq!(reg.execute(holder(1), action), Ok(()));
    assert_eq!(reg.execute(U2, AccountAction::AcceptGovernance { account_id: 2 }), Ok(()));
    assert_eq!(reg.list_sub_accounts(1, None, None).unwrap(), Vec::<u32>::new());
}

#[test]
fn pagination_is_sorted_and_clamped() {
    let mut reg = AccountRegistry::new();
    reg.create_account(ctl(1), holder(1), GovernanceDetails::Monarchy { owner: U1 }).unwrap();
    for n in 2..=40u64 {
        assert_eq!(reg.create_sub_account(U1, 1, ctl(n), holder(n)), Ok(n as u32));
    }
    let first = reg.list_sub_accounts(1, None, None).unwrap();
    assert_eq!(first, (2..2 + DEFAULT_PAGE_LIMIT).collect::<Vec<u32>>());
    assert_eq!(reg.list_sub_accounts(1, Some(5), Some(3)).unwrap(), vec![6, 7, 8]);
    assert_eq!(reg.list_sub_accounts(1, Some(38), Some(10)).unwrap(), vec![39, 40]);
    assert_eq!(reg.list_sub_accounts(1, Some(40), None).unwrap(), Vec::<u32>::new());
    assert_eq!(reg.list_sub_accounts(1, None, Some(0)).unwrap(), Vec::<u32>::new());
    let big = reg.list_sub_accounts(1, None, Some(1000)).unwrap();
    assert_eq!(big.len(), MAX_PAGE_LIMIT as usize);
    assert_eq!(big[0], 2);
    // moving a child out keeps the rest in order
    reg.propose_governance(ctl(5), 5, GovernanceDetails::Monarchy { owner: U2 }).unwrap();
    reg.accept_governance(U2, 5).unwrap();
    assert_eq!(reg.list_sub_accounts(1, Some(3), Some(3)).unwrap(), vec![4, 6, 7]);
}

#[test]
fn error_messages() {
    assert_eq!(AccountError::Unauthorized.message(), "caller is not whitelisted");
    assert_eq!(AccountError::NoPendingProposal.message(), "no pending governance proposal for this caller");
    assert_eq!(AccountError::UnknownAccount.message(), "account not found");
}

#[test]
fn owning_account_proposes_through_its_asset_holder() {
    let mut reg = root_and_sub();
    let g = GovernanceDetails::Monarchy { owner: U2 };
    assert_eq!(reg.propose_governance(ctl(1), 2, g), Err(AccountError::Unauthorized));
    reg.forward_action(ctl(1), 1, &vec![AccountAction::ProposeGovernance { account_id: 2, governance: g }])
        .unwrap();
    assert_eq!(reg.account(2).unwrap().pending, Some(g));
}
