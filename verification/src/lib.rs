//! Verified core of the DEIP pallets: project token sales and the changes of
//! status that time brings them, member proposals with their decisions and
//! pending lists, and organisation-owned projects.

pub mod primitives;
pub mod hashing;
pub mod sale_index;
pub mod project_token_sale;
pub mod deip_proposal;
pub mod deip_org_core;
