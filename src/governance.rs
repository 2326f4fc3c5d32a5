use vstd::prelude::*;

verus! {

/// A ledger address: an external user, an installed module, or one of the two
/// entities of an account.
pub type Address = u64;

/// Identifier of an account. Accounts are numbered from 1 in order of creation.
pub type AccountId = u32;

/// Who administers an account.
#[derive(Clone, Copy, Debug, PartialEq, Eq, Structural)]
pub enum GovernanceDetails {
    /// A single external owner.
    Monarchy { owner: Address },
    /// Owned by another account, named by its controller and asset-holder.
    SubAccount { controller: Address, asset_holder: Address },
}

/// Why a governance record was refused.
#[derive(Clone, Copy, Debug, PartialEq, Eq, Structural)]
pub enum GovernanceError {
    /// The controller and the asset-holder belong to different accounts.
    MismatchedAccountIds,
    /// One of the two addresses belongs to no account.
    UnregisteredAddress,
}

/// Errors of the account registry.
#[derive(Clone, Copy, Debug, PartialEq, Eq, Structural)]
pub enum AccountError {
    /// No account has the given id.
    UnknownAccount,
    /// The caller may not perform the operation.
    Unauthorized,
    /// Nothing is pending, or the caller is not the one the proposal names.
    NoPendingProposal,
    /// The governance record does not name an account consistently.
    InvalidGovernance(GovernanceError),
    /// An address of the new account already belongs to an account, or both are equal.
    AddressInUse,
    /// Every account id is taken.
    RegistryFull,
}

impl AccountError {
    /// Human-readable description of the error.
    pub fn message(&self) -> (r: &'static str)
        ensures
            *self == AccountError::InvalidGovernance(GovernanceError::MismatchedAccountIds)
                ==> r@ == "manager and proxy has different account ids"@,
    {
        match self {
            AccountError::UnknownAccount => "account not found",
            AccountError::Unauthorized => "caller is not whitelisted",
            AccountError::NoPendingProposal => "no pending governance proposal for this caller",
            AccountError::InvalidGovernance(GovernanceError::MismatchedAccountIds) => {
                "manager and proxy has different account ids"
            },
            AccountError::InvalidGovernance(GovernanceError::UnregisteredAddress) => {
                "governance address does not belong to an account"
            },
            AccountError::AddressInUse => "address already belongs to an account",
            AccountError::RegistryFull => "no account id left",
        }
    }
}

/// The committed state of one account.
#[derive(Clone, Copy, Debug)]
pub struct AccountRecord {
    /// Administrative entity of the account.
    pub controller: Address,
    /// Entity that holds the account's funds and forwards actions.
    pub asset_holder: Address,
    /// Current governance.
    pub governance: GovernanceDetails,
    /// Proposed governance waiting for acceptance.
    pub pending: Option<GovernanceDetails>,
    /// The owning account, when the governance is `SubAccount`.
    pub parent: Option<AccountId>,
}

/// An administrative action that an asset-holder may forward.
#[derive(Clone, Copy, Debug, PartialEq, Eq, Structural)]
pub enum AccountAction {
    /// Propose new governance for an account.
    ProposeGovernance { account_id: AccountId, governance: GovernanceDetails },
    /// Accept the governance pending on an account.
    AcceptGovernance { account_id: AccountId },
}

} // verus!
