use deip::deip_org_core::into_native;
use deip::deip_org_core::OrgName;
use deip::deip_org_core::OrgProjectAccount;
use deip::deip_org_core::Project;
use deip::primitives::H160;

fn project(team: OrgProjectAccount<u64>) -> Project<[u8; 32], u64> {
    Project {
        is_private: true,
        external_id: H160::new(1, 2),
        team_id: team,
        description: [7u8; 32],
        domains: vec![H160::new(0, 3), H160::new(0, 4)],
    }
}

#[test]
fn native_team_is_kept() {
    let res = into_native(project(OrgProjectAccount::Native(42)), |_name: &OrgName| 0u64);
    assert_eq!(res.team_id, 42);
    assert!(res.is_private);
    assert_eq!(res.external_id, H160::new(1, 2));
    assert_eq!(res.description, [7u8; 32]);
    assert_eq!(res.domains, vec![H160::new(0, 3), H160::new(0, 4)]);
}

#[test]
fn organisation_team_becomes_its_key_account() {
    let res = into_native(project(OrgProjectAccount::OrgName(H160::new(0, 9))), |name: &OrgName| {
        (name.lo as u64) * 100
    });
    assert_eq!(res.team_id, 900);
    assert_eq!(res.domains.len(), 2);
}
