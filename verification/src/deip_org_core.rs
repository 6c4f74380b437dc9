//! Projects whose team is either a plain account or an organisation, and
//! their conversion into projects of the core pallet.
use vstd::prelude::*;

use crate::primitives::H160;

verus! {

/// Name of an organisation.
pub type OrgName = H160;

/// Id of a project.
pub type ProjectId = H160;

/// Id of a domain (a tag that projects match).
pub type DomainId = H160;

/// Genesis configuration of the pallet: nothing to configure.
#[derive(Clone, Copy, Debug, Default, PartialEq, Eq)]
pub struct GenesisConfig {}

impl GenesisConfig {
    /// Builds the genesis state: nothing to build.
    pub fn build(&self) {
    }
}

/// The team of a project: a plain account, or an organisation by name.
#[derive(Clone, Copy, Debug, PartialEq, Eq, Structural)]
pub enum OrgProjectAccount<AccountId> {
    Native(AccountId),
    OrgName(OrgName),
}

/// Twin of the core pallet's project, with an organisation allowed as team.
#[derive(Clone, Debug, PartialEq, Eq)]
pub struct Project<Hash, AccountId> {
    /// Determine visible project or not
    pub is_private: bool,
    /// Reference for external world and uniques control
    pub external_id: ProjectId,
    /// Reference to the Team
    pub team_id: OrgProjectAccount<AccountId>,
    /// Hash of Project description
    pub description: Hash,
    /// List of Domains aka tags Project matches
    pub domains: Vec<DomainId>,
}

/// A project of the core pallet: its team is an account.
#[derive(Clone, Debug, PartialEq, Eq)]
pub struct NativeProject<Hash, AccountId> {
    pub is_private: bool,
    pub external_id: ProjectId,
    pub team_id: AccountId,
    pub description: Hash,
    pub domains: Vec<DomainId>,
}

/// The project for the core pallet: every field is kept, and an
/// organisation team becomes the account that `org_key` gives for its name.
pub fn into_native<Hash, AccountId, F: Fn(&OrgName) -> AccountId>(
    project: Project<Hash, AccountId>,
    org_key: F,
) -> (res: NativeProject<Hash, AccountId>)
    requires
        forall|name: &OrgName| org_key.requires((name,)),
    ensures
        res.is_private == project.is_private,
        res.external_id == project.external_id,
        res.description == project.description,
        res.domains@ == project.domains@,
        match project.team_id {
            OrgProjectAccount::Native(account_id) => res.team_id == account_id,
            OrgProjectAccount::OrgName(name) => org_key.ensures((&name,), res.team_id),
        },
{
    NativeProject {
        is_private: project.is_private,
        external_id: project.external_id,
        team_id: match project.team_id {
            OrgProjectAccount::Native(account_id) => { account_id },
            OrgProjectAccount::OrgName(name) => { org_key(&name) },
        },
        description: project.description,
        domains: project.domains,
    }
}

} // verus!
