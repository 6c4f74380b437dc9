use deip::primitives::H160;
use deip::project_token_sale::Module;
use deip::project_token_sale::ProjectTokenSale;
use deip::project_token_sale::TokenInfo;
use deip::project_token_sale::TokenSaleError;
use deip::sale_index::ProjectTokenSaleStatus;

fn id(n: u128) -> H160 {
    H160::new(0, n)
}

fn sale(
    external: u128,
    project: u128,
    start_time: u64,
    end_time: u64,
    status: ProjectTokenSaleStatus,
    total_amount: u128,
    soft_cap: u128,
) -> ProjectTokenSale {
    ProjectTokenSale {
        external_id: id(external),
        project_id: id(project),
        start_time,
        end_time,
        status,
        total_amount,
        soft_cap,
        hard_cap: 1_000,
    }
}

fn status_of(m: &Module, external: u128) -> ProjectTokenSaleStatus {
    m.project_token_sale(&id(external)).unwrap().status
}

#[test]
fn inactive_sale_becomes_active_when_window_opens() {
    let mut m = Module::new();
    m.insert_sale(sale(1, 10, 100, 200, ProjectTokenSaleStatus::Inactive, 0, 50)).unwrap();
    m.process_project_token_sales(100);
    assert_eq!(status_of(&m, 1), ProjectTokenSaleStatus::Active);
    assert_eq!(m.token_sales(), &vec![(id(10), ProjectTokenSaleStatus::Active, id(1))]);
}

#[test]
fn sale_before_its_start_stays_inactive() {
    let mut m = Module::new();
    m.insert_sale(sale(1, 10, 100, 200, ProjectTokenSaleStatus::Inactive, 0, 50)).unwrap();
    m.process_project_token_sales(99);
    assert_eq!(status_of(&m, 1), ProjectTokenSaleStatus::Inactive);
}

#[test]
fn active_sale_below_soft_cap_expires_at_its_end() {
    let mut m = Module::new();
    m.insert_sale(sale(1, 10, 100, 200, ProjectTokenSaleStatus::Active, 49, 50)).unwrap();
    m.process_project_token_sales(199);
    assert_eq!(status_of(&m, 1), ProjectTokenSaleStatus::Active);
    m.process_project_token_sales(200);
    assert_eq!(status_of(&m, 1), ProjectTokenSaleStatus::Expired);
    assert_eq!(m.token_sales(), &vec![(id(10), ProjectTokenSaleStatus::Expired, id(1))]);
}

#[test]
fn active_sale_reaching_soft_cap_finishes_at_its_end() {
    let mut m = Module::new();
    m.insert_sale(sale(1, 10, 100, 200, ProjectTokenSaleStatus::Active, 50, 50)).unwrap();
    m.process_project_token_sales(250);
    assert_eq!(status_of(&m, 1), ProjectTokenSaleStatus::Finished);
    assert_eq!(m.token_sales(), &vec![(id(10), ProjectTokenSaleStatus::Finished, id(1))]);
}

#[test]
fn finished_and_expired_sales_are_not_touched() {
    let mut m = Module::new();
    m.insert_sale(sale(1, 10, 0, 10, ProjectTokenSaleStatus::Finished, 0, 50)).unwrap();
    m.insert_sale(sale(2, 10, 0, 1_000, ProjectTokenSaleStatus::Expired, 0, 50)).unwrap();
    m.process_project_token_sales(5);
    assert_eq!(status_of(&m, 1), ProjectTokenSaleStatus::Finished);
    assert_eq!(status_of(&m, 2), ProjectTokenSaleStatus::Expired);
}

#[test]
fn inactive_sale_whose_end_passed_stays_inactive() {
    let mut m = Module::new();
    m.insert_sale(sale(1, 10, 100, 200, ProjectTokenSaleStatus::Inactive, 0, 50)).unwrap();
    m.process_project_token_sales(300);
    assert_eq!(status_of(&m, 1), ProjectTokenSaleStatus::Inactive);
}

#[test]
fn index_stays_sorted_and_entries_are_located_by_key() {
    let mut m = Module::new();
    m.insert_sale(sale(1, 20, 0, 100, ProjectTokenSaleStatus::Inactive, 0, 50)).unwrap();
    m.insert_sale(sale(2, 10, 0, 100, ProjectTokenSaleStatus::Inactive, 0, 50)).unwrap();
    m.insert_sale(sale(3, 10, 0, 5, ProjectTokenSaleStatus::Active, 60, 50)).unwrap();
    m.insert_sale(sale(4, 20, 50, 100, ProjectTokenSaleStatus::Inactive, 0, 50)).unwrap();
    assert_eq!(
        m.token_sales(),
        &vec![
            (id(10), ProjectTokenSaleStatus::Active, id(3)),
            (id(10), ProjectTokenSaleStatus::Inactive, id(2)),
            (id(20), ProjectTokenSaleStatus::Inactive, id(4)),
            (id(20), ProjectTokenSaleStatus::Inactive, id(1)),
        ]
    );
    m.process_project_token_sales(10);
    assert_eq!(status_of(&m, 1), ProjectTokenSaleStatus::Active);
    assert_eq!(status_of(&m, 2), ProjectTokenSaleStatus::Active);
    assert_eq!(status_of(&m, 3), ProjectTokenSaleStatus::Finished);
    assert_eq!(status_of(&m, 4), ProjectTokenSaleStatus::Inactive);
    // The first entry with the old key leaves, whichever sale it names.
    assert_eq!(
        m.token_sales(),
        &vec![
            (id(10), ProjectTokenSaleStatus::Active, id(3)),
            (id(10), ProjectTokenSaleStatus::Finished, id(3)),
            (id(20), ProjectTokenSaleStatus::Active, id(1)),
            (id(20), ProjectTokenSaleStatus::Inactive, id(1)),
        ]
    );
}

#[test]
fn index_orders_by_the_high_part_of_the_project_id_first() {
    let mut m = Module::new();
    m.insert_sale(ProjectTokenSale { project_id: H160::new(1, 0), ..sale(1, 0, 0, 9, ProjectTokenSaleStatus::Inactive, 0, 0) }).unwrap();
    m.insert_sale(ProjectTokenSale { project_id: H160::new(0, u128::MAX), ..sale(2, 0, 0, 9, ProjectTokenSaleStatus::Inactive, 0, 0) }).unwrap();
    assert_eq!(m.token_sales()[0].2, id(2));
    assert_eq!(m.token_sales()[1].2, id(1));
    assert!(H160::new(0, u128::MAX).lt(&H160::new(1, 0)));
    assert!(!H160::new(1, 0).lt(&H160::new(1, 0)));
}

#[test]
fn duplicate_sale_id_is_refused() {
    let mut m = Module::new();
    m.insert_sale(sale(1, 10, 0, 100, ProjectTokenSaleStatus::Inactive, 0, 50)).unwrap();
    let res = m.insert_sale(sale(1, 11, 0, 100, ProjectTokenSaleStatus::Active, 0, 50));
    assert_eq!(res, Err(TokenSaleError::SaleAlreadyExists));
    assert_eq!(m.sales().len(), 1);
    assert_eq!(m.end_times().len(), 1);
}

#[test]
fn schedule_holds_end_times_in_insertion_order() {
    let mut m = Module::new();
    m.insert_sale(sale(1, 10, 0, 300, ProjectTokenSaleStatus::Inactive, 0, 50)).unwrap();
    m.insert_sale(sale(2, 10, 0, 100, ProjectTokenSaleStatus::Inactive, 0, 50)).unwrap();
    assert_eq!(m.end_times(), &vec![(300, id(1)), (100, id(2))]);
}

#[test]
fn processing_twice_at_the_same_time_changes_nothing() {
    let mut m = Module::new();
    m.insert_sale(sale(1, 10, 0, 100, ProjectTokenSaleStatus::Inactive, 0, 50)).unwrap();
    m.insert_sale(sale(2, 10, 0, 5, ProjectTokenSaleStatus::Active, 0, 50)).unwrap();
    m.process_project_token_sales(10);
    let sales = m.sales().clone();
    let index = m.token_sales().clone();
    m.process_project_token_sales(10);
    assert_eq!(m.sales(), &sales);
    assert_eq!(m.token_sales(), &index);
}

#[test]
fn every_sale_is_settled_after_processing() {
    let mut m = Module::new();
    m.insert_sale(sale(1, 10, 0, 100, ProjectTokenSaleStatus::Inactive, 0, 50)).unwrap();
    m.insert_sale(sale(2, 11, 0, 5, ProjectTokenSaleStatus::Active, 70, 50)).unwrap();
    m.insert_sale(sale(3, 12, 20, 30, ProjectTokenSaleStatus::Inactive, 0, 50)).unwrap();
    m.process_project_token_sales(10);
    for s in m.sales() {
        assert!(!(s.end_time <= 10 && s.status == ProjectTokenSaleStatus::Active));
        assert!(!(s.start_time <= 10 && 10 < s.end_time && s.status == ProjectTokenSaleStatus::Inactive));
    }
}

#[test]
fn update_status_moves_the_index_entry() {
    let mut m = Module::new();
    let s = sale(1, 10, 0, 100, ProjectTokenSaleStatus::Inactive, 0, 50);
    m.insert_sale(s).unwrap();
    m.update_status(s, ProjectTokenSaleStatus::Active);
    assert_eq!(status_of(&m, 1), ProjectTokenSaleStatus::Active);
    assert_eq!(m.token_sales(), &vec![(id(10), ProjectTokenSaleStatus::Active, id(1))]);
}

#[test]
fn update_status_to_inactive_leaves_the_index() {
    let mut m = Module::new();
    let s = sale(1, 10, 0, 100, ProjectTokenSaleStatus::Active, 0, 50);
    m.insert_sale(s).unwrap();
    m.update_status(s, ProjectTokenSaleStatus::Inactive);
    assert_eq!(status_of(&m, 1), ProjectTokenSaleStatus::Inactive);
    assert_eq!(m.token_sales(), &vec![(id(10), ProjectTokenSaleStatus::Active, id(1))]);
}

#[test]
fn unknown_sale_is_not_found() {
    let m = Module::new();
    assert_eq!(m.project_token_sale(&id(7)), None);
}

#[test]
fn token_info_defaults_to_zero() {
    let t = TokenInfo::default();
    assert_eq!(t, TokenInfo { total: 0, reserved: 0 });
}

#[test]
fn update_status_changes_the_stored_record_found_by_id() {
    let mut m = Module::new();
    let stored = sale(1, 10, 0, 100, ProjectTokenSaleStatus::Inactive, 3, 50);
    m.insert_sale(stored).unwrap();
    let stale = ProjectTokenSale { total_amount: 99, ..stored };
    m.update_status(stale, ProjectTokenSaleStatus::Active);
    let now_stored = m.project_token_sale(&id(1)).unwrap();
    assert_eq!(now_stored, ProjectTokenSale { status: ProjectTokenSaleStatus::Active, ..stored });
    assert_eq!(m.token_sales(), &vec![(id(10), ProjectTokenSaleStatus::Active, id(1))]);
}

#[test]
fn collections_are_in_sync_until_an_active_sale_is_made_inactive() {
    let mut m = Module::new();
    assert!(m.is_in_sync());
    let s = sale(1, 10, 0, 100, ProjectTokenSaleStatus::Active, 0, 50);
    m.insert_sale(s).unwrap();
    m.insert_sale(sale(2, 11, 0, 100, ProjectTokenSaleStatus::Inactive, 0, 50)).unwrap();
    m.process_project_token_sales(50);
    assert!(m.is_in_sync());
    m.update_status(s, ProjectTokenSaleStatus::Inactive);
    assert!(!m.is_in_sync());
}

#[test]
fn entries_follow_their_own_sales_when_keys_are_not_shared() {
    let mut m = Module::new();
    // Sale 2 leaves `(10, Active)` before sale 1 enters it, so no key is
    // shared when an entry moves.
    m.insert_sale(sale(2, 10, 0, 5, ProjectTokenSaleStatus::Active, 0, 50)).unwrap();
    m.insert_sale(sale(1, 10, 0, 100, ProjectTokenSaleStatus::Inactive, 0, 50)).unwrap();
    m.insert_sale(sale(3, 20, 0, 5, ProjectTokenSaleStatus::Active, 80, 50)).unwrap();
    m.process_project_token_sales(10);
    assert_eq!(
        m.token_sales(),
        &vec![
            (id(10), ProjectTokenSaleStatus::Active, id(1)),
            (id(10), ProjectTokenSaleStatus::Expired, id(2)),
            (id(20), ProjectTokenSaleStatus::Finished, id(3)),
        ]
    );
}
