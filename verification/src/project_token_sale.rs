//! Project token sales: the sales by id, the index of sales by project and
//! status, the schedule of sales by end time, and the status changes that
//! time brings about.
use vstd::multiset::Multiset;
use vstd::prelude::*;

use crate::primitives::H160;
use crate::sale_index::count_below;
use crate::sale_index::entry_key;
use crate::sale_index::entry_keys;
use crate::sale_index::index_key;
use crate::sale_index::key_below;
use crate::sale_index::lemma_count_below_splits;
use crate::sale_index::lemma_index_key_injective;
use crate::sale_index::lemma_entry_keys_insert;
use crate::sale_index::lemma_entry_keys_remove;
use crate::sale_index::lemma_insert_sorted;
use crate::sale_index::lemma_remove_sorted;
use crate::sale_index::lower_bound;
use crate::sale_index::sorted_by_key;
use crate::sale_index::IndexEntry;
use crate::sale_index::ProjectTokenSaleStatus;

verus! {

broadcast use vstd::seq_lib::group_to_multiset_ensures;

pub type Moment = u64;

pub type Balance = u128;

/// Contains information about tokens of the project
#[derive(Clone, Copy, Debug, Default, PartialEq, Eq)]
pub struct TokenInfo {
    pub total: u64,
    pub reserved: u64,
}

/// A sale of a project's tokens.
#[derive(Clone, Copy, Debug, PartialEq, Eq, Structural)]
pub struct ProjectTokenSale {
    pub external_id: H160,
    pub project_id: H160,
    pub start_time: Moment,
    pub end_time: Moment,
    pub status: ProjectTokenSaleStatus,
    pub total_amount: Balance,
    pub soft_cap: Balance,
    pub hard_cap: Balance,
}

/// Refused requests on the sales.
#[derive(Clone, Copy, Debug, PartialEq, Eq, Structural)]
pub enum TokenSaleError {
    /// A sale with this id is already known.
    SaleAlreadyExists,
}

/// `s` with its status replaced.
pub open spec fn with_status(s: ProjectTokenSale, st: ProjectTokenSaleStatus) -> ProjectTokenSale {
    ProjectTokenSale { status: st, ..s }
}

/// Key of a sale in the index.
pub open spec fn sale_key(s: ProjectTokenSale) -> int {
    index_key(s.project_id, s.status)
}

pub open spec fn sale_keys(sales: Seq<ProjectTokenSale>) -> Seq<int> {
    sales.map_values(|s: ProjectTokenSale| sale_key(s))
}

/// The sale ids of the schedule, in schedule order.
pub open spec fn sale_ids(end_times: Seq<(Moment, H160)>) -> Seq<H160> {
    end_times.map_values(|e: (Moment, H160)| e.1)
}

/// The statuses whose change moves a sale within the index.
pub open spec fn status_moves_index(st: ProjectTokenSaleStatus) -> bool {
    ||| st == ProjectTokenSaleStatus::Finished
    ||| st == ProjectTokenSaleStatus::Expired
    ||| st == ProjectTokenSaleStatus::Active
}

/// How far along its lifecycle a status is.
pub open spec fn stage(st: ProjectTokenSaleStatus) -> int {
    match st {
        ProjectTokenSaleStatus::Inactive => 0,
        ProjectTokenSaleStatus::Active => 1,
        ProjectTokenSaleStatus::Finished => 2,
        ProjectTokenSaleStatus::Expired => 2,
    }
}

/// `b` is `a` or a later status; a finished or expired sale stays as it is.
pub open spec fn advances(a: ProjectTokenSaleStatus, b: ProjectTokenSaleStatus) -> bool {
    &&& stage(a) <= stage(b)
    &&& stage(a) == 2 ==> a == b
}

/// `b` is `a`, or one move on from it: inactive to active, or active to
/// finished or expired.
pub open spec fn one_move(a: ProjectTokenSaleStatus, b: ProjectTokenSaleStatus) -> bool {
    ||| a == b
    ||| a == ProjectTokenSaleStatus::Inactive && b == ProjectTokenSaleStatus::Active
    ||| a == ProjectTokenSaleStatus::Active && (b == ProjectTokenSaleStatus::Finished || b
        == ProjectTokenSaleStatus::Expired)
}

/// At time `now`, the status of `s` agrees with its time window: no sale
/// whose end has come is active, and no sale inside its window is inactive.
pub open spec fn settled(s: ProjectTokenSale, now: Moment) -> bool {
    &&& s.end_time <= now ==> s.status != ProjectTokenSaleStatus::Active
    &&& s.start_time <= now < s.end_time ==> s.status != ProjectTokenSaleStatus::Inactive
}

/// The status that time `now` gives to `s`, if it changes it.
pub open spec fn transition(s: ProjectTokenSale, now: Moment) -> Option<ProjectTokenSaleStatus> {
    if s.end_time <= now && s.status == ProjectTokenSaleStatus::Active {
        if s.total_amount < s.soft_cap {
            Some(ProjectTokenSaleStatus::Expired)
        } else {
            Some(ProjectTokenSaleStatus::Finished)
        }
    } else if s.end_time > now && now >= s.start_time && s.status
        == ProjectTokenSaleStatus::Inactive {
        Some(ProjectTokenSaleStatus::Active)
    } else {
        None
    }
}

/// The status that time `now` leaves `s` with.
spec fn outcome(s: ProjectTokenSale, now: Moment) -> ProjectTokenSaleStatus {
    match transition(s, now) {
        Some(t) => t,
        None => s.status,
    }
}

/// A sale given the status that time brings is settled.
proof fn lemma_outcome_settled(s: ProjectTokenSale, now: Moment)
    ensures
        settled(with_status(s, outcome(s, now)), now),
{
}

/// The stored state of the sales.
pub struct ModuleView {
    /// The sales, each id once.
    pub sales: Seq<ProjectTokenSale>,
    /// The index by `(project, status)`.
    pub token_sales: Seq<IndexEntry>,
    /// The schedule: end time and sale id.
    pub end_times: Seq<(Moment, H160)>,
}

impl ModuleView {
    pub open spec fn ids_distinct(self) -> bool {
        forall|i: int, j: int|
            0 <= i < self.sales.len() && 0 <= j < self.sales.len() && i != j
                ==> self.sales[i].external_id != self.sales[j].external_id
    }

    pub open spec fn has_sale(self, id: H160) -> bool {
        exists|i: int| 0 <= i < self.sales.len() && #[trigger] self.sales[i].external_id == id
    }

    pub open spec fn is_scheduled(self, id: H160) -> bool {
        exists|k: int| 0 <= k < self.end_times.len() && #[trigger] self.end_times[k].1 == id
    }

    /// The collections are in sync: ids are distinct, the index is sorted and
    /// holds the keys of the sales, every scheduled id is a sale and every sale
    /// is scheduled.
    pub open spec fn wf(self) -> bool {
        &&& self.ids_distinct()
        &&& sorted_by_key(self.token_sales)
        &&& entry_keys(self.token_sales).to_multiset() == sale_keys(self.sales).to_multiset()
        &&& forall|k: int|
            0 <= k < self.end_times.len() ==> self.has_sale(#[trigger] self.end_times[k].1)
        &&& forall|i: int|
            0 <= i < self.sales.len() ==> self.is_scheduled(#[trigger] self.sales[i].external_id)
    }

    /// The sale with id `id`, if any.
    pub open spec fn find_sale(self, id: H160) -> Option<ProjectTokenSale> {
        if self.has_sale(id) {
            Some(
                self.sales[choose|i: int|
                    0 <= i < self.sales.len() && #[trigger] self.sales[i].external_id == id],
            )
        } else {
            None
        }
    }
}

/// The index after the sale `id` of `project` moves from `old_status` to
/// `new_status`: the first entry with the old key leaves, and the new entry
/// goes before the first entry whose key is not below its key.
pub open spec fn reindexed(
    ts: Seq<IndexEntry>,
    project: H160,
    old_status: ProjectTokenSaleStatus,
    new_status: ProjectTokenSaleStatus,
    id: H160,
) -> Seq<IndexEntry> {
    let rest = ts.remove(count_below(ts, index_key(project, old_status)) as int);
    rest.insert(count_below(rest, index_key(project, new_status)) as int, (project, new_status, id))
}

/// The state after `sale` gets the status `new_status`.
pub open spec fn update_status_spec(
    m: ModuleView,
    sale: ProjectTokenSale,
    new_status: ProjectTokenSaleStatus,
) -> ModuleView {
    ModuleView {
        sales: m.sales.map_values(
            |s: ProjectTokenSale|
                if s.external_id == sale.external_id {
                    with_status(s, new_status)
                } else {
                    s
                },
        ),
        token_sales: if status_moves_index(new_status) {
            reindexed(m.token_sales, sale.project_id, sale.status, new_status, sale.external_id)
        } else {
            m.token_sales
        },
        end_times: m.end_times,
    }
}

/// The state after a new sale is added.
pub open spec fn insert_sale_spec(m: ModuleView, sale: ProjectTokenSale) -> ModuleView {
    ModuleView {
        sales: m.sales.push(sale),
        token_sales: m.token_sales.insert(
            count_below(m.token_sales, sale_key(sale)) as int,
            (sale.project_id, sale.status, sale.external_id),
        ),
        end_times: m.end_times.push((sale.end_time, sale.external_id)),
    }
}

/// One step of processing: the sale `id` is brought in line with `now`.
pub open spec fn step(m: ModuleView, id: H160, now: Moment) -> ModuleView {
    match m.find_sale(id) {
        Some(s) => match transition(s, now) {
            Some(st) => update_status_spec(m, s, st),
            None => m,
        },
        None => m,
    }
}

/// Processing the ids `ids` in order.
pub open spec fn process_spec(m: ModuleView, ids: Seq<H160>, now: Moment) -> ModuleView
    decreases ids.len(),
{
    if ids.len() == 0 {
        m
    } else {
        step(process_spec(m, ids.drop_last(), now), ids.last(), now)
    }
}

/// Processing every scheduled sale, in schedule order.
pub open spec fn processed(m: ModuleView, now: Moment) -> ModuleView {
    process_spec(m, sale_ids(m.end_times), now)
}

proof fn lemma_multiset_swap(mk: Multiset<int>, ko: int, kn: int)
    requires
        mk.count(ko) > 0,
    ensures
        mk.insert(kn).remove(ko) == mk.remove(ko).insert(kn),
{
    broadcast use vstd::multiset::group_multiset_axioms;

    assert(mk.insert(kn).remove(ko) =~= mk.remove(ko).insert(kn));
}

/// The key of a stored sale is in the index.
pub proof fn lemma_stored_key_indexed(m: ModuleView, sale: ProjectTokenSale)
    requires
        m.wf(),
        m.sales.contains(sale),
    ensures
        entry_keys(m.token_sales).contains(sale_key(sale)),
{
    let j = choose|j: int| 0 <= j < m.sales.len() && m.sales[j] == sale;
    let ko = sale_key(sale);
    assert(sale_keys(m.sales)[j] == ko);
    assert(sale_keys(m.sales).contains(ko));
    assert(sale_keys(m.sales).to_multiset().count(ko) > 0);
}

/// Changing the status of a stored sale keeps the collections in sync,
/// unless an active, finished or expired sale is made inactive (then the
/// index is left as it was and no longer matches).
pub proof fn lemma_update_status_keeps_sync(
    m: ModuleView,
    sale: ProjectTokenSale,
    new_status: ProjectTokenSaleStatus,
)
    requires
        m.wf(),
        m.sales.contains(sale),
        status_moves_index(new_status) || sale.status == ProjectTokenSaleStatus::Inactive,
    ensures
        update_status_spec(m, sale, new_status).wf(),
{
    let m2 = update_status_spec(m, sale, new_status);
    let j = choose|j: int| 0 <= j < m.sales.len() && m.sales[j] == sale;
    let ns = with_status(sale, new_status);
    assert(m2.sales =~= m.sales.update(j, ns)) by {
        assert forall|i: int| 0 <= i < m.sales.len() implies #[trigger] m2.sales[i]
            == m.sales.update(j, ns)[i] by {
            if i != j {
                assert(m.sales[i].external_id != m.sales[j].external_id);
            }
        }
    }
    assert forall|i: int| 0 <= i < m2.sales.len() implies #[trigger] m2.sales[i].external_id
        == m.sales[i].external_id by {}
    // ids, schedule
    assert forall|k: int| 0 <= k < m2.end_times.len() implies m2.has_sale(
        #[trigger] m2.end_times[k].1,
    ) by {
        assert(m.has_sale(m.end_times[k].1));
        let i = choose|i: int|
            0 <= i < m.sales.len() && #[trigger] m.sales[i].external_id == m.end_times[k].1;
        assert(m2.sales[i].external_id == m2.end_times[k].1);
    }
    assert forall|i: int| 0 <= i < m2.sales.len() implies m2.is_scheduled(
        #[trigger] m2.sales[i].external_id,
    ) by {
        assert(m2.sales[i].external_id == m.sales[i].external_id);
        assert(m.is_scheduled(m.sales[i].external_id));
        let k = choose|k: int|
            0 <= k < m.end_times.len() && #[trigger] m.end_times[k].1 == m.sales[i].external_id;
        assert(m2.end_times[k].1 == m2.sales[i].external_id);
    }
    assert(m2.ids_distinct()) by {
        assert forall|a: int, b: int|
            0 <= a < m2.sales.len() && 0 <= b < m2.sales.len() && a != b implies m2.sales[a].external_id
            != m2.sales[b].external_id by {
            assert(m2.sales[a].external_id == m.sales[a].external_id);
            assert(m2.sales[b].external_id == m.sales[b].external_id);
        }
    }
    if status_moves_index(new_status) {
        let ts = m.token_sales;
        let ko = sale_key(sale);
        let kn = index_key(sale.project_id, new_status);
        let mk = sale_keys(m.sales).to_multiset();
        assert(sale_keys(m.sales)[j] == ko);
        assert(sale_keys(m.sales).contains(ko));
        assert(mk.count(ko) > 0);
        assert(entry_keys(ts).contains(ko));
        let idx = choose|idx: int| 0 <= idx < entry_keys(ts).len() && entry_keys(ts)[idx] == ko;
        lemma_count_below_splits(ts, ko);
        let pos = count_below(ts, ko) as int;
        assert(entry_key(ts[idx]) == ko);
        assert(pos <= idx);
        assert(entry_key(ts[pos]) <= entry_key(ts[idx]));
        assert(entry_key(ts[pos]) == ko);
        let rest = ts.remove(pos);
        lemma_remove_sorted(ts, pos);
        lemma_entry_keys_remove(ts, pos);
        let e: IndexEntry = (sale.project_id, new_status, sale.external_id);
        assert(entry_key(e) == kn);
        lemma_insert_sorted(rest, e);
        let q = count_below(rest, kn) as int;
        lemma_count_below_splits(rest, kn);
        lemma_entry_keys_insert(rest, q, e);
        assert(m2.token_sales == rest.insert(q, e));
        assert(entry_keys(ts)[pos] == ko);
        assert(entry_keys(rest).to_multiset() == mk.remove(ko));
        assert(entry_keys(m2.token_sales).to_multiset() == mk.remove(ko).insert(kn));
        assert(sale_keys(m2.sales) =~= sale_keys(m.sales).update(j, kn));
        assert(sale_keys(m2.sales).to_multiset() == mk.insert(kn).remove(ko));
        lemma_multiset_swap(mk, ko, kn);
    } else {
        assert(ns == sale);
        assert(m2.sales =~= m.sales);
    }
}

/// A sale added is found again under its id.
pub proof fn lemma_inserted_sale_is_found(m: ModuleView, sale: ProjectTokenSale)
    requires
        m.wf(),
        !m.has_sale(sale.external_id),
    ensures
        insert_sale_spec(m, sale).find_sale(sale.external_id) == Some(sale),
{
    let m2 = insert_sale_spec(m, sale);
    let n = m.sales.len() as int;
    assert(m2.sales[n].external_id == sale.external_id);
    let c = choose|i: int| 0 <= i < m2.sales.len() && #[trigger] m2.sales[i].external_id == sale.external_id;
    if c < n {
        assert(m2.sales[c] == m.sales[c]);
    }
}

/// After a status change, the sale is found under its id with the new
/// status, and every other sale is found as before.
pub proof fn lemma_updated_sale_is_found(
    m: ModuleView,
    sale: ProjectTokenSale,
    new_status: ProjectTokenSaleStatus,
    other: H160,
)
    requires
        m.wf(),
        m.sales.contains(sale),
        other != sale.external_id,
    ensures
        update_status_spec(m, sale, new_status).find_sale(sale.external_id) == Some(
            with_status(sale, new_status),
        ),
        update_status_spec(m, sale, new_status).find_sale(other) == m.find_sale(other),
{
    let m2 = update_status_spec(m, sale, new_status);
    let j = choose|j: int| 0 <= j < m.sales.len() && m.sales[j] == sale;
    assert(m2.sales[j].external_id == sale.external_id);
    let c = choose|i: int| 0 <= i < m2.sales.len() && #[trigger] m2.sales[i].external_id == sale.external_id;
    if c != j {
        assert(m.sales[c].external_id != m.sales[j].external_id);
    }
    assert forall|i: int| 0 <= i < m.sales.len() implies (#[trigger] m2.sales[i].external_id == other
        <==> m.sales[i].external_id == other) by {}
    if m.has_sale(other) {
        let k = choose|i: int| 0 <= i < m.sales.len() && #[trigger] m.sales[i].external_id == other;
        assert(m2.sales[k].external_id == other);
        let k2 = choose|i: int| 0 <= i < m2.sales.len() && #[trigger] m2.sales[i].external_id == other;
        assert(m.sales[k2].external_id == other);
        if k != k2 {
            assert(m.sales[k].external_id != m.sales[k2].external_id);
        }
    } else {
        if m2.has_sale(other) {
            let k2 = choose|i: int| 0 <= i < m2.sales.len() && #[trigger] m2.sales[i].external_id == other;
            assert(m.sales[k2].external_id == other);
        }
    }
}

/// The index `ts` is in sync with the sales entry by entry: entries name
/// distinct sales, each entry carries the project and status of the sale it
/// names, and every sale is named by an entry.
pub open spec fn entries_name_sales(sales: Seq<ProjectTokenSale>, ts: Seq<IndexEntry>) -> bool {
    &&& forall|a: int, b: int|
        0 <= a < ts.len() && 0 <= b < ts.len() && a != b ==> ts[a].2 != ts[b].2
    &&& forall|k: int|
        0 <= k < ts.len() ==> exists|i: int|
            0 <= i < sales.len() && #[trigger] sales[i].external_id == (#[trigger] ts[k]).2
                && sales[i].project_id == ts[k].0 && sales[i].status == ts[k].1
    &&& forall|i: int|
        0 <= i < sales.len() ==> exists|k: int|
            0 <= k < ts.len() && (#[trigger] ts[k]).2 == #[trigger] sales[i].external_id
}

/// The stored state is in sync entry by entry.
pub open spec fn synced_by_id(m: ModuleView) -> bool {
    entries_name_sales(m.sales, m.token_sales)
}

/// Replacing the entry of sale `j` by an entry with its new status keeps the
/// index in sync entry by entry, wherever the new entry goes.
#[verifier::spinoff_prover]
proof fn lemma_replace_own_entry(
    sales: Seq<ProjectTokenSale>,
    ts: Seq<IndexEntry>,
    j: int,
    pos: int,
    q: int,
    new_status: ProjectTokenSaleStatus,
)
    requires
        entries_name_sales(sales, ts),
        0 <= j < sales.len(),
        forall|a: int, b: int|
            0 <= a < sales.len() && 0 <= b < sales.len() && a != b ==> sales[a].external_id
                != sales[b].external_id,
        0 <= pos < ts.len(),
        ts[pos].2 == sales[j].external_id,
        0 <= q < ts.len(),
    ensures
        entries_name_sales(
            sales.update(j, with_status(sales[j], new_status)),
            ts.remove(pos).insert(q, (sales[j].project_id, new_status, sales[j].external_id)),
        ),
{
    let id = sales[j].external_id;
    let sales2 = sales.update(j, with_status(sales[j], new_status));
    let rest = ts.remove(pos);
    let e: IndexEntry = (sales[j].project_id, new_status, id);
    let nts = rest.insert(q, e);
    assert forall|r: int| 0 <= r < rest.len() implies (#[trigger] rest[r]).2 != id by {
        let o = if r < pos { r } else { r + 1 };
        assert(rest[r] == ts[o]);
    }
    assert forall|a: int, b: int|
        0 <= a < nts.len() && 0 <= b < nts.len() && a != b implies nts[a].2 != nts[b].2 by {
        let ra = if a < q { a } else { a - 1 };
        let rb = if b < q { b } else { b - 1 };
        if a != q && b != q {
            let oa = if ra < pos { ra } else { ra + 1 };
            let ob = if rb < pos { rb } else { rb + 1 };
            assert(nts[a] == ts[oa]);
            assert(nts[b] == ts[ob]);
        } else if a == q {
            assert(nts[b] == rest[rb]);
        } else {
            assert(nts[a] == rest[ra]);
        }
    }
    assert forall|k: int| 0 <= k < nts.len() implies exists|i: int|
        0 <= i < sales2.len() && #[trigger] sales2[i].external_id == (#[trigger] nts[k]).2
            && sales2[i].project_id == nts[k].0 && sales2[i].status == nts[k].1 by {
        if k == q {
            assert(sales2[j].external_id == nts[k].2);
        } else {
            let r = if k < q { k } else { k - 1 };
            let o = if r < pos { r } else { r + 1 };
            assert(nts[k] == ts[o]);
            assert(nts[k] == rest[r]);
            let i = choose|i: int|
                0 <= i < sales.len() && #[trigger] sales[i].external_id == (#[trigger] ts[o]).2
                    && sales[i].project_id == ts[o].0 && sales[i].status == ts[o].1;
            assert(i != j);
            assert(sales2[i] == sales[i]);
        }
    }
    assert forall|i: int| 0 <= i < sales2.len() implies exists|k: int|
        0 <= k < nts.len() && (#[trigger] nts[k]).2 == #[trigger] sales2[i].external_id by {
        if i == j {
            assert(nts[q].2 == sales2[i].external_id);
        } else {
            assert(sales2[i] == sales[i]);
            let k = choose|k: int|
                0 <= k < ts.len() && (#[trigger] ts[k]).2 == #[trigger] sales[i].external_id;
            assert(k != pos);
            let r = if k < pos { k } else { k - 1 };
            assert(rest[r] == ts[k]);
            let nk = if r < q { r } else { r + 1 };
            assert(nts[nk] == rest[r]);
        }
    }
}

/// Adding a sale with a new id and an entry naming it keeps the index in
/// sync entry by entry, wherever the entry goes.
#[verifier::spinoff_prover]
proof fn lemma_add_own_entry(
    sales: Seq<ProjectTokenSale>,
    ts: Seq<IndexEntry>,
    sale: ProjectTokenSale,
    pos: int,
)
    requires
        entries_name_sales(sales, ts),
        forall|i: int| 0 <= i < sales.len() ==> #[trigger] sales[i].external_id != sale.external_id,
        0 <= pos <= ts.len(),
    ensures
        entries_name_sales(
            sales.push(sale),
            ts.insert(pos, (sale.project_id, sale.status, sale.external_id)),
        ),
{
    let sales2 = sales.push(sale);
    let e: IndexEntry = (sale.project_id, sale.status, sale.external_id);
    let nts = ts.insert(pos, e);
    let n = sales.len() as int;
    assert forall|k: int| 0 <= k < ts.len() implies (#[trigger] ts[k]).2 != sale.external_id by {
        let i = choose|i: int|
            0 <= i < sales.len() && #[trigger] sales[i].external_id == (#[trigger] ts[k]).2
                && sales[i].project_id == ts[k].0 && sales[i].status == ts[k].1;
    }
    assert forall|a: int, b: int|
        0 <= a < nts.len() && 0 <= b < nts.len() && a != b implies nts[a].2 != nts[b].2 by {
        let oa = if a < pos { a } else { a - 1 };
        let ob = if b < pos { b } else { b - 1 };
        if a != pos && b != pos {
            assert(nts[a] == ts[oa]);
            assert(nts[b] == ts[ob]);
        } else if a == pos {
            assert(nts[b] == ts[ob]);
        } else {
            assert(nts[a] == ts[oa]);
        }
    }
    assert forall|k: int| 0 <= k < nts.len() implies exists|i: int|
        0 <= i < sales2.len() && #[trigger] sales2[i].external_id == (#[trigger] nts[k]).2
            && sales2[i].project_id == nts[k].0 && sales2[i].status == nts[k].1 by {
        if k == pos {
            assert(sales2[n] == sale);
        } else {
            let o = if k < pos { k } else { k - 1 };
            assert(nts[k] == ts[o]);
            let i = choose|i: int|
                0 <= i < sales.len() && #[trigger] sales[i].external_id == (#[trigger] ts[o]).2
                    && sales[i].project_id == ts[o].0 && sales[i].status == ts[o].1;
            assert(sales2[i] == sales[i]);
        }
    }
    assert forall|i: int| 0 <= i < sales2.len() implies exists|k: int|
        0 <= k < nts.len() && (#[trigger] nts[k]).2 == #[trigger] sales2[i].external_id by {
        if i == n {
            assert(nts[pos].2 == sales2[i].external_id);
        } else {
            assert(sales2[i] == sales[i]);
            let k = choose|k: int|
                0 <= k < ts.len() && (#[trigger] ts[k]).2 == #[trigger] sales[i].external_id;
            let nk = if k < pos { k } else { k + 1 };
            assert(nts[nk] == ts[k]);
        }
    }
}

/// In sync entry by entry, with no other sale of the same project and
/// status, the first entry with the key of `sale` is the entry of `sale`.
proof fn lemma_first_entry_is_own(m: ModuleView, sale: ProjectTokenSale)
    requires
        m.wf(),
        synced_by_id(m),
        m.sales.contains(sale),
        forall|i: int|
            0 <= i < m.sales.len() && #[trigger] m.sales[i].external_id != sale.external_id
                ==> !(m.sales[i].project_id == sale.project_id && m.sales[i].status
                == sale.status),
    ensures
        count_below(m.token_sales, sale_key(sale)) < m.token_sales.len(),
        m.token_sales[count_below(m.token_sales, sale_key(sale)) as int].2 == sale.external_id,
{
    let ts = m.token_sales;
    lemma_stored_key_indexed(m, sale);
    let ko = sale_key(sale);
    let idx = choose|idx: int| 0 <= idx < entry_keys(ts).len() && entry_keys(ts)[idx] == ko;
    assert(entry_key(ts[idx]) == ko);
    lemma_count_below_splits(ts, ko);
    let pos = count_below(ts, ko) as int;
    assert(entry_key(ts[pos]) <= entry_key(ts[idx]));
    lemma_index_key_injective(ts[pos].0, ts[pos].1, sale.project_id, sale.status);
    let c = choose|i: int|
        0 <= i < m.sales.len() && #[trigger] m.sales[i].external_id == (#[trigger] ts[pos]).2
            && m.sales[i].project_id == ts[pos].0 && m.sales[i].status == ts[pos].1;
    if m.sales[c].external_id != sale.external_id {
        assert(!(m.sales[c].project_id == sale.project_id && m.sales[c].status == sale.status));
    }
}

/// When the index is in sync entry by entry and no other sale shares the
/// project and status of `sale`, moving `sale` to an active, finished or
/// expired status moves its own entry: the index stays in sync entry by
/// entry. (With another sale of the same key, the entry that leaves may be
/// that other sale's.)
pub proof fn lemma_update_status_keeps_sync_by_id(
    m: ModuleView,
    sale: ProjectTokenSale,
    new_status: ProjectTokenSaleStatus,
)
    requires
        m.wf(),
        synced_by_id(m),
        m.sales.contains(sale),
        status_moves_index(new_status),
        forall|i: int|
            0 <= i < m.sales.len() && #[trigger] m.sales[i].external_id != sale.external_id
                ==> !(m.sales[i].project_id == sale.project_id && m.sales[i].status
                == sale.status),
    ensures
        synced_by_id(update_status_spec(m, sale, new_status)),
{
    let m2 = update_status_spec(m, sale, new_status);
    let ts = m.token_sales;
    let j = choose|j: int| 0 <= j < m.sales.len() && m.sales[j] == sale;
    lemma_first_entry_is_own(m, sale);
    let pos = count_below(ts, sale_key(sale)) as int;
    let rest = ts.remove(pos);
    let e: IndexEntry = (sale.project_id, new_status, sale.external_id);
    lemma_remove_sorted(ts, pos);
    lemma_count_below_splits(rest, entry_key(e));
    let q = count_below(rest, entry_key(e)) as int;
    assert(m2.sales =~= m.sales.update(j, with_status(sale, new_status))) by {
        assert forall|i: int| 0 <= i < m.sales.len() implies #[trigger] m2.sales[i]
            == m.sales.update(j, with_status(sale, new_status))[i] by {
            if i != j {
                assert(m.sales[i].external_id != m.sales[j].external_id);
            }
        }
    }
    lemma_replace_own_entry(m.sales, ts, j, pos, q, new_status);
    assert(m2.token_sales == rest.insert(q, e));
}

/// What one processing step does, on a state whose collections are in sync.
proof fn lemma_step_facts(m: ModuleView, id: H160, now: Moment)
    requires
        m.wf(),
    ensures
        ({
            let m2 = step(m, id, now);
            &&& m2.wf()
            &&& m2.end_times == m.end_times
            &&& m2.sales.len() == m.sales.len()
            &&& forall|i: int|
                0 <= i < m.sales.len() ==> #[trigger] m2.sales[i] == with_status(
                    m.sales[i],
                    m2.sales[i].status,
                )
            &&& forall|i: int|
                0 <= i < m.sales.len() ==> advances(m.sales[i].status, #[trigger] m2.sales[i].status)
            &&& forall|i: int|
                0 <= i < m.sales.len() && m.sales[i].external_id != id ==> #[trigger] m2.sales[i]
                    == m.sales[i]
            &&& forall|i: int|
                0 <= i < m.sales.len() && m.sales[i].external_id == id ==> settled(
                    #[trigger] m2.sales[i],
                    now,
                )
            &&& forall|i: int|
                0 <= i < m.sales.len() && settled(m.sales[i], now) ==> #[trigger] m2.sales[i]
                    == m.sales[i]
            &&& forall|i: int|
                0 <= i < m.sales.len() ==> one_move(m.sales[i].status, #[trigger] m2.sales[i].status)
            &&& forall|i: int|
                0 <= i < m.sales.len() && m.sales[i].external_id == id ==> (#[trigger] m2.sales[i]).status
                    == outcome(m.sales[i], now)
        }),
{
    let m2 = step(m, id, now);
    if m.has_sale(id) {
        let c = choose|i: int| 0 <= i < m.sales.len() && #[trigger] m.sales[i].external_id == id;
        let s = m.sales[c];
        assert(m.find_sale(id) == Some(s));
        assert forall|i: int|
            0 <= i < m.sales.len() && #[trigger] m.sales[i].external_id == id implies i == c by {}
        match transition(s, now) {
            Some(st) => {
                assert(m.sales.contains(s));
                lemma_update_status_keeps_sync(m, s, st);
                assert(m2 == update_status_spec(m, s, st));
                assert forall|i: int| 0 <= i < m.sales.len() && m.sales[i].external_id == id implies
                    settled(#[trigger] m2.sales[i], now) by {
                    assert(i == c);
                }
                assert forall|i: int| 0 <= i < m.sales.len() implies one_move(
                    m.sales[i].status,
                    #[trigger] m2.sales[i].status,
                ) by {
                    if m.sales[i].external_id == id {
                        assert(i == c);
                        assert(m2.sales[i] == with_status(s, st));
                    }
                }
                assert forall|i: int|
                    0 <= i < m.sales.len() && m.sales[i].external_id == id implies (
                    #[trigger] m2.sales[i]).status == outcome(m.sales[i], now) by {
                    assert(i == c);
                    assert(m2.sales[i] == with_status(s, st));
                }
            },
            None => {
                assert(m2 == m);
            },
        }
    } else {
        assert(m2 == m);
    }
}

/// What processing a sequence of ids does, on a state whose collections are
/// in sync.
proof fn lemma_process_facts(m: ModuleView, ids: Seq<H160>, now: Moment)
    requires
        m.wf(),
    ensures
        ({
            let m2 = process_spec(m, ids, now);
            &&& m2.wf()
            &&& m2.end_times == m.end_times
            &&& m2.sales.len() == m.sales.len()
            &&& forall|i: int|
                0 <= i < m.sales.len() ==> #[trigger] m2.sales[i] == with_status(
                    m.sales[i],
                    m2.sales[i].status,
                )
            &&& forall|i: int|
                0 <= i < m.sales.len() ==> advances(m.sales[i].status, #[trigger] m2.sales[i].status)
            &&& forall|k: int, i: int|
                0 <= k < ids.len() && 0 <= i < m.sales.len() && #[trigger] m2.sales[i].external_id
                    == #[trigger] ids[k] ==> settled(m2.sales[i], now)
            &&& forall|i: int|
                0 <= i < m.sales.len() ==> one_move(m.sales[i].status, #[trigger] m2.sales[i].status)
            &&& forall|i: int|
                0 <= i < m.sales.len() && #[trigger] m2.sales[i] != m.sales[i] ==> settled(
                    m2.sales[i],
                    now,
                )
            &&& forall|i: int|
                0 <= i < m.sales.len() && ids.contains(m.sales[i].external_id) ==> (
                #[trigger] m2.sales[i]).status == outcome(m.sales[i], now)
            &&& forall|i: int|
                0 <= i < m.sales.len() && !ids.contains(m.sales[i].external_id) ==> #[trigger] m2.sales[i]
                    == m.sales[i]
        }),
    decreases ids.len(),
{
    if ids.len() > 0 {
        let init = ids.drop_last();
        lemma_process_facts(m, init, now);
        let m1 = process_spec(m, init, now);
        lemma_step_facts(m1, ids.last(), now);
        let m2 = process_spec(m, ids, now);
        assert(m2 == step(m1, ids.last(), now));
        assert forall|i: int| 0 <= i < m.sales.len() implies #[trigger] m2.sales[i] == with_status(
            m.sales[i],
            m2.sales[i].status,
        ) && advances(m.sales[i].status, m2.sales[i].status) by {
            assert(m1.sales[i] == with_status(m.sales[i], m1.sales[i].status));
            assert(m2.sales[i] == with_status(m1.sales[i], m2.sales[i].status));
            assert(advances(m.sales[i].status, m1.sales[i].status));
            assert(advances(m1.sales[i].status, m2.sales[i].status));
        }
        assert forall|k: int, i: int|
            0 <= k < ids.len() && 0 <= i < m.sales.len() && #[trigger] m2.sales[i].external_id
                == #[trigger] ids[k] implies settled(m2.sales[i], now) by {
            assert(m2.sales[i].external_id == m1.sales[i].external_id);
            if k < ids.len() - 1 {
                assert(init[k] == ids[k]);
                assert(settled(m1.sales[i], now));
            } else {
                assert(m1.sales[i].external_id == ids.last());
            }
        }
        assert forall|i: int| 0 <= i < m.sales.len() implies one_move(
            m.sales[i].status,
            #[trigger] m2.sales[i].status,
        ) && (m2.sales[i] != m.sales[i] ==> settled(m2.sales[i], now)) by {
            if m1.sales[i] == m.sales[i] {
                assert(one_move(m1.sales[i].status, m2.sales[i].status));
                if m2.sales[i] != m1.sales[i] {
                    assert(m1.sales[i].external_id == ids.last());
                }
            } else {
                assert(settled(m1.sales[i], now));
                assert(m2.sales[i] == m1.sales[i]);
            }
        }
        assert forall|i: int| 0 <= i < m.sales.len() implies (ids.contains(m.sales[i].external_id)
            ==> (#[trigger] m2.sales[i]).status == outcome(m.sales[i], now)) && (!ids.contains(
            m.sales[i].external_id,
        ) ==> m2.sales[i] == m.sales[i]) by {
            let x = m.sales[i].external_id;
            assert(m1.sales[i].external_id == x);
            if init.contains(x) {
                let k = choose|k: int| 0 <= k < init.len() && init[k] == x;
                assert(ids[k] == x);
                lemma_outcome_settled(m.sales[i], now);
                assert(m1.sales[i] == with_status(m.sales[i], outcome(m.sales[i], now)));
                assert(m2.sales[i] == m1.sales[i]);
            } else if x == ids.last() {
                assert(ids[ids.len() - 1] == x);
                assert(m1.sales[i] == m.sales[i]);
            } else {
                assert(m1.sales[i] == m.sales[i]);
                assert(m2.sales[i] == m1.sales[i]);
                if ids.contains(x) {
                    let k = choose|k: int| 0 <= k < ids.len() && ids[k] == x;
                    if k < ids.len() - 1 {
                        assert(init[k] == x);
                    }
                }
            }
        }
    }
}

/// Processing a state in which every sale is settled changes nothing.
proof fn lemma_process_settled_is_identity(m: ModuleView, ids: Seq<H160>, now: Moment)
    requires
        m.wf(),
        forall|i: int| 0 <= i < m.sales.len() ==> settled(#[trigger] m.sales[i], now),
    ensures
        process_spec(m, ids, now) == m,
    decreases ids.len(),
{
    if ids.len() > 0 {
        lemma_process_settled_is_identity(m, ids.drop_last(), now);
        let id = ids.last();
        if m.has_sale(id) {
            let c = choose|i: int|
                0 <= i < m.sales.len() && #[trigger] m.sales[i].external_id == id;
            assert(settled(m.sales[c], now));
        }
    }
}

/// Processing keeps the collections in sync.
pub proof fn lemma_process_keeps_sync(m: ModuleView, now: Moment)
    requires
        m.wf(),
    ensures
        processed(m, now).wf(),
        processed(m, now).end_times == m.end_times,
{
    lemma_process_facts(m, sale_ids(m.end_times), now);
}

/// Processing changes only statuses, and only forward: an inactive sale may
/// become active, an active one finished or expired, and a finished or
/// expired sale stays as it is.
pub proof fn lemma_process_only_advances(m: ModuleView, now: Moment)
    requires
        m.wf(),
    ensures
        processed(m, now).sales.len() == m.sales.len(),
        forall|i: int|
            0 <= i < m.sales.len() ==> #[trigger] processed(m, now).sales[i] == with_status(
                m.sales[i],
                processed(m, now).sales[i].status,
            ) && advances(m.sales[i].status, processed(m, now).sales[i].status),
{
    lemma_process_facts(m, sale_ids(m.end_times), now);
}

/// Processing moves each sale at most one step: a status stays, or goes
/// from inactive to active, or from active to finished or expired.
pub proof fn lemma_process_moves_once(m: ModuleView, now: Moment)
    requires
        m.wf(),
    ensures
        processed(m, now).sales.len() == m.sales.len(),
        forall|i: int|
            0 <= i < m.sales.len() ==> one_move(
                m.sales[i].status,
                #[trigger] processed(m, now).sales[i].status,
            ),
{
    lemma_process_facts(m, sale_ids(m.end_times), now);
}

/// What processing at time `now` does to each sale, over its fields: an
/// active sale whose end has come expires when its total amount is below its
/// soft cap and finishes when it is not; an inactive sale whose window holds
/// `now` becomes active; every other sale keeps its status.
pub proof fn lemma_process_outcome(m: ModuleView, now: Moment)
    requires
        m.wf(),
    ensures
        processed(m, now).sales.len() == m.sales.len(),
        forall|i: int|
            0 <= i < m.sales.len() ==> {
                let s = m.sales[i];
                let t = (#[trigger] processed(m, now).sales[i]).status;
                &&& s.status == ProjectTokenSaleStatus::Active && s.end_time <= now
                    && s.total_amount < s.soft_cap ==> t == ProjectTokenSaleStatus::Expired
                &&& s.status == ProjectTokenSaleStatus::Active && s.end_time <= now
                    && s.total_amount >= s.soft_cap ==> t == ProjectTokenSaleStatus::Finished
                &&& s.status == ProjectTokenSaleStatus::Inactive && s.start_time <= now && now
                    < s.end_time ==> t == ProjectTokenSaleStatus::Active
                &&& !(s.status == ProjectTokenSaleStatus::Active && s.end_time <= now) && !(s.status
                    == ProjectTokenSaleStatus::Inactive && s.start_time <= now && now
                    < s.end_time) ==> t == s.status
            },
{
    let ids = sale_ids(m.end_times);
    lemma_process_facts(m, ids, now);
    let m2 = processed(m, now);
    assert forall|i: int| 0 <= i < m.sales.len() implies (#[trigger] m2.sales[i]).status == outcome(
        m.sales[i],
        now,
    ) by {
        assert(m.is_scheduled(m.sales[i].external_id));
        let k = choose|k: int|
            0 <= k < m.end_times.len() && #[trigger] m.end_times[k].1 == m.sales[i].external_id;
        assert(ids[k] == m.sales[i].external_id);
        assert(ids.contains(m.sales[i].external_id));
    }
}

/// After processing at time `now`, every sale is settled at `now`: none whose
/// end has come is still active, none inside its window is still inactive.
pub proof fn lemma_process_settles(m: ModuleView, now: Moment)
    requires
        m.wf(),
    ensures
        forall|i: int|
            0 <= i < processed(m, now).sales.len() ==> settled(
                #[trigger] processed(m, now).sales[i],
                now,
            ),
{
    let ids = sale_ids(m.end_times);
    lemma_process_facts(m, ids, now);
    let m2 = processed(m, now);
    assert forall|i: int| 0 <= i < m2.sales.len() implies settled(#[trigger] m2.sales[i], now) by {
        assert(m2.sales[i].external_id == m.sales[i].external_id);
        assert(m.is_scheduled(m.sales[i].external_id));
        let k = choose|k: int|
            0 <= k < m.end_times.len() && #[trigger] m.end_times[k].1 == m.sales[i].external_id;
        assert(ids[k] == m2.sales[i].external_id);
    }
}

/// Processing twice at the same time is processing once.
pub proof fn lemma_process_idempotent(m: ModuleView, now: Moment)
    requires
        m.wf(),
    ensures
        processed(processed(m, now), now) == processed(m, now),
{
    lemma_process_keeps_sync(m, now);
    lemma_process_settles(m, now);
    lemma_process_settled_is_identity(processed(m, now), sale_ids(m.end_times), now);
}

/// Index of the sale with id `id`, if any.
fn find_sale_index(sales: &Vec<ProjectTokenSale>, id: &H160) -> (res: Option<usize>)
    ensures
        match res {
            Some(i) => i < sales.len() && sales@[i as int].external_id == *id,
            None => forall|i: int| 0 <= i < sales.len() ==> sales@[i].external_id != *id,
        },
{
    let mut i: usize = 0;
    while i < sales.len()
        invariant
            0 <= i <= sales.len(),
            forall|j: int| 0 <= j < i ==> sales@[j].external_id != *id,
        decreases sales.len() - i,
    {
        if sales[i].external_id == *id {
            return Some(i);
        }
        i += 1;
    }
    None
}

/// Number of sales whose key is `(project, status)`.
fn count_sale_key(
    sales: &Vec<ProjectTokenSale>,
    project: &H160,
    status: ProjectTokenSaleStatus,
) -> (res: usize)
    ensures
        res == sale_keys(sales@).to_multiset().count(index_key(*project, status)),
{
    let ghost k = index_key(*project, status);
    let mut c: usize = 0;
    let mut j: usize = 0;
    while j < sales.len()
        invariant
            0 <= j <= sales.len(),
            k == index_key(*project, status),
            c == sale_keys(sales@.take(j as int)).to_multiset().count(k),
            c <= j,
        decreases sales.len() - j,
    {
        proof {
            assert(sale_keys(sales@.take(j + 1)) =~= sale_keys(sales@.take(j as int)).push(
                sale_key(sales@[j as int]),
            ));
        }
        let s = &sales[j];
        if !key_below(&s.project_id, s.status, project, status) && !key_below(
            project,
            status,
            &s.project_id,
            s.status,
        ) {
            c += 1;
        }
        j += 1;
    }
    assert(sales@.take(sales.len() as int) =~= sales@);
    c
}

/// Number of index entries whose key is `(project, status)`.
fn count_entry_key(ts: &Vec<IndexEntry>, project: &H160, status: ProjectTokenSaleStatus) -> (res:
    usize)
    ensures
        res == entry_keys(ts@).to_multiset().count(index_key(*project, status)),
{
    let ghost k = index_key(*project, status);
    let mut c: usize = 0;
    let mut j: usize = 0;
    while j < ts.len()
        invariant
            0 <= j <= ts.len(),
            k == index_key(*project, status),
            c == entry_keys(ts@.take(j as int)).to_multiset().count(k),
            c <= j,
        decreases ts.len() - j,
    {
        proof {
            assert(entry_keys(ts@.take(j + 1)) =~= entry_keys(ts@.take(j as int)).push(
                entry_key(ts@[j as int]),
            ));
        }
        let e = &ts[j];
        if !key_below(&e.0, e.1, project, status) && !key_below(project, status, &e.0, e.1) {
            c += 1;
        }
        j += 1;
    }
    assert(ts@.take(ts.len() as int) =~= ts@);
    c
}

/// Index of the first schedule entry for `id`, if any.
fn find_scheduled_index(end_times: &Vec<(Moment, H160)>, id: &H160) -> (res: Option<usize>)
    ensures
        match res {
            Some(k) => k < end_times.len() && end_times@[k as int].1 == *id,
            None => forall|k: int| 0 <= k < end_times.len() ==> end_times@[k].1 != *id,
        },
{
    let mut k: usize = 0;
    while k < end_times.len()
        invariant
            0 <= k <= end_times.len(),
            forall|q: int| 0 <= q < k ==> end_times@[q].1 != *id,
        decreases end_times.len() - k,
    {
        if end_times[k].1 == *id {
            return Some(k);
        }
        k += 1;
    }
    None
}

/// The stored sales: the map of sales by id (`ProjectTokenSaleMap`), the
/// index by project and status (`ProjectTokenSales`) and the schedule by end
/// time (`ProjectTokenSaleEndTimes`).
pub struct Module {
    sales: Vec<ProjectTokenSale>,
    token_sales: Vec<IndexEntry>,
    end_times: Vec<(Moment, H160)>,
}

impl View for Module {
    type V = ModuleView;

    closed spec fn view(&self) -> ModuleView {
        ModuleView { sales: self.sales@, token_sales: self.token_sales@, end_times: self.end_times@ }
    }
}

impl Module {
    /// No sales.
    pub fn new() -> (res: Module)
        ensures
            res@.sales == Seq::<ProjectTokenSale>::empty(),
            res@.token_sales == Seq::<IndexEntry>::empty(),
            res@.end_times == Seq::<(Moment, H160)>::empty(),
            res@.wf(),
            synced_by_id(res@),
    {
        let res = Module { sales: Vec::new(), token_sales: Vec::new(), end_times: Vec::new() };
        assert(entry_keys(res@.token_sales) =~= Seq::<int>::empty());
        assert(sale_keys(res@.sales) =~= Seq::<int>::empty());
        res
    }

    /// Whether the collections are in sync: ids distinct, index sorted and
    /// holding the keys of the sales, every scheduled id a sale and every
    /// sale scheduled.
    pub fn is_in_sync(&self) -> (res: bool)
        ensures
            res == self@.wf(),
    {
        let ghost m = self@;
        // ids distinct
        let mut a: usize = 0;
        while a < self.sales.len()
            invariant
                0 <= a <= self.sales.len(),
                m == self@,
                forall|x: int, y: int|
                    0 <= x < a && 0 <= y < m.sales.len() && x != y ==> m.sales[x].external_id
                        != m.sales[y].external_id,
            decreases self.sales.len() - a,
        {
            let mut b: usize = 0;
            while b < self.sales.len()
                invariant
                    0 <= a < self.sales.len(),
                    0 <= b <= self.sales.len(),
                    m == self@,
                    forall|y: int|
                        0 <= y < b && a != y ==> m.sales[a as int].external_id
                            != m.sales[y].external_id,
                decreases self.sales.len() - b,
            {
                if a != b && self.sales[a].external_id == self.sales[b].external_id {
                    assert(!m.ids_distinct()) by {
                        assert(m.sales[a as int].external_id == m.sales[b as int].external_id);
                    }
                    return false;
                }
                b += 1;
            }
            a += 1;
        }
        assert(m.ids_distinct());
        // index sorted
        let mut i: usize = 1;
        while i < self.token_sales.len()
            invariant
                1 <= i,
                i <= self.token_sales.len() || self.token_sales.len() == 0,
                m == self@,
                m.ids_distinct(),
                forall|x: int, y: int|
                    0 <= x <= y < i && y < m.token_sales.len() ==> entry_key(m.token_sales[x])
                        <= entry_key(m.token_sales[y]),
            decreases self.token_sales.len() - i,
        {
            let prev = &self.token_sales[i - 1];
            let cur = &self.token_sales[i];
            if key_below(&cur.0, cur.1, &prev.0, prev.1) {
                assert(!sorted_by_key(m.token_sales)) by {
                    assert(entry_key(m.token_sales[i - 1]) > entry_key(m.token_sales[i as int]));
                }
                return false;
            }
            assert forall|x: int, y: int|
                0 <= x <= y < i + 1 && y < m.token_sales.len() implies entry_key(m.token_sales[x])
                <= entry_key(m.token_sales[y]) by {
                if y == i && x < y {
                    assert(entry_key(m.token_sales[x]) <= entry_key(m.token_sales[i - 1]));
                }
            }
            i += 1;
        }
        assert(sorted_by_key(m.token_sales));
        // keys: counts agree on every key that occurs
        let mut j: usize = 0;
        while j < self.sales.len()
            invariant
                0 <= j <= self.sales.len(),
                m == self@,
                forall|x: int|
                    0 <= x < j ==> sale_keys(m.sales).to_multiset().count(sale_key(m.sales[x]))
                        == entry_keys(m.token_sales).to_multiset().count(
                        sale_key(#[trigger] m.sales[x]),
                    ),
            decreases self.sales.len() - j,
        {
            let s = &self.sales[j];
            if count_sale_key(&self.sales, &s.project_id, s.status) != count_entry_key(
                &self.token_sales,
                &s.project_id,
                s.status,
            ) {
                assert(entry_keys(m.token_sales).to_multiset() != sale_keys(m.sales).to_multiset())
                    by {
                    assert(sale_key(m.sales[j as int]) == index_key(s.project_id, s.status));
                }
                return false;
            }
            j += 1;
        }
        let mut t: usize = 0;
        while t < self.token_sales.len()
            invariant
                0 <= t <= self.token_sales.len(),
                m == self@,
                forall|x: int|
                    0 <= x < t ==> sale_keys(m.sales).to_multiset().count(entry_key(m.token_sales[x]))
                        == entry_keys(m.token_sales).to_multiset().count(
                        entry_key(#[trigger] m.token_sales[x]),
                    ),
            decreases self.token_sales.len() - t,
        {
            let e = &self.token_sales[t];
            if count_sale_key(&self.sales, &e.0, e.1) != count_entry_key(
                &self.token_sales,
                &e.0,
                e.1,
            ) {
                assert(entry_keys(m.token_sales).to_multiset() != sale_keys(m.sales).to_multiset())
                    by {
                    assert(entry_key(m.token_sales[t as int]) == index_key(e.0, e.1));
                }
                return false;
            }
            t += 1;
        }
        proof {
            let ms = sale_keys(m.sales).to_multiset();
            let me = entry_keys(m.token_sales).to_multiset();
            assert forall|k: int| ms.count(k) == me.count(k) by {
                if ms.count(k) > 0 {
                    assert(sale_keys(m.sales).contains(k));
                    let x = choose|x: int| 0 <= x < sale_keys(m.sales).len() && sale_keys(m.sales)[x] == k;
                    assert(sale_key(m.sales[x]) == k);
                } else if me.count(k) > 0 {
                    assert(entry_keys(m.token_sales).contains(k));
                    let x = choose|x: int|
                        0 <= x < entry_keys(m.token_sales).len() && entry_keys(m.token_sales)[x] == k;
                    assert(entry_key(m.token_sales[x]) == k);
                }
            }
            assert(ms =~= me);
        }
        // every scheduled id is a sale
        let mut u: usize = 0;
        while u < self.end_times.len()
            invariant
                0 <= u <= self.end_times.len(),
                m == self@,
                forall|x: int| 0 <= x < u ==> m.has_sale(#[trigger] m.end_times[x].1),
            decreases self.end_times.len() - u,
        {
            if find_sale_index(&self.sales, &self.end_times[u].1).is_none() {
                assert(!m.has_sale(m.end_times[u as int].1));
                return false;
            }
            u += 1;
        }
        // every sale is scheduled
        let mut w: usize = 0;
        while w < self.sales.len()
            invariant
                0 <= w <= self.sales.len(),
                m == self@,
                forall|x: int| 0 <= x < w ==> m.is_scheduled(#[trigger] m.sales[x].external_id),
            decreases self.sales.len() - w,
        {
            match find_scheduled_index(&self.end_times, &self.sales[w].external_id) {
                Some(k) => {
                    assert(m.end_times[k as int].1 == m.sales[w as int].external_id);
                },
                None => {
                    assert(!m.is_scheduled(m.sales[w as int].external_id));
                    return false;
                },
            }
            w += 1;
        }
        true
    }

    /// The sales, in the order they were added.
    pub fn sales(&self) -> (res: &Vec<ProjectTokenSale>)
        ensures
            res@ == self@.sales,
    {
        &self.sales
    }

    /// The index by project and status.
    pub fn token_sales(&self) -> (res: &Vec<IndexEntry>)
        ensures
            res@ == self@.token_sales,
    {
        &self.token_sales
    }

    /// The schedule of sales by end time.
    pub fn end_times(&self) -> (res: &Vec<(Moment, H160)>)
        ensures
            res@ == self@.end_times,
    {
        &self.end_times
    }

    /// The sale with id `id`, if any.
    pub fn project_token_sale(&self, id: &H160) -> (res: Option<ProjectTokenSale>)
        requires
            self@.ids_distinct(),
        ensures
            res == self@.find_sale(*id),
    {
        match find_sale_index(&self.sales, id) {
            Some(i) => {
                proof {
                    let c = choose|c: int|
                        0 <= c < self@.sales.len() && #[trigger] self@.sales[c].external_id == *id;
                    assert(self@.sales[i as int].external_id == *id);
                    if c != i {
                        assert(self@.sales[c].external_id != self@.sales[i as int].external_id);
                    }
                }
                Some(self.sales[i])
            },
            None => None,
        }
    }

    /// Adds a sale: stored by its id, indexed by project and status, and
    /// scheduled at its end time. A sale whose id is already known is refused.
    pub fn insert_sale(&mut self, sale: ProjectTokenSale) -> (res: Result<(), TokenSaleError>)
        requires
            old(self)@.wf(),
        ensures
            final(self)@.wf(),
            old(self)@.has_sale(sale.external_id) ==> res == Err::<(), TokenSaleError>(
                TokenSaleError::SaleAlreadyExists,
            ) && final(self)@ == old(self)@,
            !old(self)@.has_sale(sale.external_id) ==> res is Ok && final(self)@
                == insert_sale_spec(old(self)@, sale),
            synced_by_id(old(self)@) ==> synced_by_id(final(self)@),
    {
        let ghost m = self@;
        if let Some(i) = find_sale_index(&self.sales, &sale.external_id) {
            return Err(TokenSaleError::SaleAlreadyExists);
        }
        let pos = lower_bound(&self.token_sales, &sale.project_id, sale.status);
        self.sales.push(sale);
        self.token_sales.insert(pos, (sale.project_id, sale.status, sale.external_id));
        self.end_times.push((sale.end_time, sale.external_id));
        proof {
            let m2 = self@;
            let e: IndexEntry = (sale.project_id, sale.status, sale.external_id);
            assert(entry_key(e) == sale_key(sale));
            lemma_insert_sorted(m.token_sales, e);
            lemma_entry_keys_insert(m.token_sales, pos as int, e);
            if synced_by_id(m) {
                assert forall|i: int| 0 <= i < m.sales.len() implies #[trigger] m.sales[i].external_id
                    != sale.external_id by {}
                lemma_add_own_entry(m.sales, m.token_sales, sale, pos as int);
            }
            assert(sale_keys(m2.sales) =~= sale_keys(m.sales).push(sale_key(sale)));
            assert(m2.ids_distinct()) by {
                assert forall|a: int, b: int|
                    0 <= a < m2.sales.len() && 0 <= b < m2.sales.len() && a != b implies m2.sales[a].external_id
                    != m2.sales[b].external_id by {
                    if a < m.sales.len() && b < m.sales.len() {
                        assert(m2.sales[a] == m.sales[a]);
                        assert(m2.sales[b] == m.sales[b]);
                    } else if a < m.sales.len() {
                        assert(m2.sales[a] == m.sales[a]);
                    } else if b < m.sales.len() {
                        assert(m2.sales[b] == m.sales[b]);
                    }
                }
            }
            assert forall|k: int| 0 <= k < m2.end_times.len() implies m2.has_sale(
                #[trigger] m2.end_times[k].1,
            ) by {
                if k < m.end_times.len() {
                    assert(m2.end_times[k] == m.end_times[k]);
                    assert(m.has_sale(m.end_times[k].1));
                    let i = choose|i: int|
                        0 <= i < m.sales.len() && #[trigger] m.sales[i].external_id
                            == m.end_times[k].1;
                    assert(m2.sales[i] == m.sales[i]);
                } else {
                    assert(m2.sales[m.sales.len() as int] == sale);
                }
            }
            assert forall|i: int| 0 <= i < m2.sales.len() implies m2.is_scheduled(
                #[trigger] m2.sales[i].external_id,
            ) by {
                if i < m.sales.len() {
                    assert(m2.sales[i] == m.sales[i]);
                    assert(m.is_scheduled(m.sales[i].external_id));
                    let k = choose|k: int|
                        0 <= k < m.end_times.len() && #[trigger] m.end_times[k].1
                            == m.sales[i].external_id;
                    assert(m2.end_times[k] == m.end_times[k]);
                } else {
                    assert(m2.end_times[m.end_times.len() as int].1 == sale.external_id);
                }
            }
        }
        Ok(())
    }

    /// Gives the stored sale with the id of `sale` the status `new_status`.
    /// When the new status is finished, expired or active, the index also
    /// changes, by the project and status of `sale` as passed: the first entry
    /// with the key `(project, old status)` leaves, and an entry with the new
    /// key goes before the first entry whose key is not below it.
    pub fn update_status(&mut self, sale: ProjectTokenSale, new_status: ProjectTokenSaleStatus)
        requires
            old(self)@.ids_distinct(),
            sorted_by_key(old(self)@.token_sales),
            old(self)@.has_sale(sale.external_id),
            status_moves_index(new_status) ==> entry_keys(old(self)@.token_sales).contains(
                sale_key(sale),
            ),
        ensures
            final(self)@ == update_status_spec(old(self)@, sale, new_status),
            old(self)@.wf() && old(self)@.sales.contains(sale) && (status_moves_index(new_status)
                || sale.status == ProjectTokenSaleStatus::Inactive) ==> final(self)@.wf(),
            final(self)@.ids_distinct(),
            sorted_by_key(final(self)@.token_sales),
            old(self)@.wf() && synced_by_id(old(self)@) && old(self)@.sales.contains(sale)
                && status_moves_index(new_status) && (forall|i: int|
                0 <= i < old(self)@.sales.len() && #[trigger] old(self)@.sales[i].external_id
                    != sale.external_id ==> !(old(self)@.sales[i].project_id == sale.project_id
                    && old(self)@.sales[i].status == sale.status)) ==> synced_by_id(final(self)@),
    {
        let ghost m = self@;
        let ghost j = choose|j: int|
            0 <= j < m.sales.len() && #[trigger] m.sales[j].external_id == sale.external_id;
        let i = match find_sale_index(&self.sales, &sale.external_id) {
            Some(i) => i,
            None => {
                proof {
                    assert(m.sales[j].external_id == sale.external_id);
                }
                return ;
            },
        };
        let mut updated = self.sales[i];
        updated.status = new_status;
        self.sales.set(i, updated);
        proof {
            let target = update_status_spec(m, sale, new_status);
            assert forall|k: int| 0 <= k < m.sales.len() implies #[trigger] self@.sales[k]
                == target.sales[k] by {
                if k != i {
                    assert(m.sales[k].external_id != m.sales[i as int].external_id);
                }
            }
            assert(self@.sales =~= target.sales);
        }
        match new_status {
            ProjectTokenSaleStatus::Finished
            | ProjectTokenSaleStatus::Expired
            | ProjectTokenSaleStatus::Active => {
                let old_index = lower_bound(&self.token_sales, &sale.project_id, sale.status);
                proof {
                    let ts = m.token_sales;
                    let ko = sale_key(sale);
                    assert(entry_keys(ts).contains(ko));
                    let idx = choose|idx: int|
                        0 <= idx < entry_keys(ts).len() && entry_keys(ts)[idx] == ko;
                    assert(entry_key(ts[idx]) == ko);
                    assert(old_index < ts.len());
                    lemma_remove_sorted(ts, old_index as int);
                }
                self.token_sales.remove(old_index);
                let index = lower_bound(&self.token_sales, &sale.project_id, new_status);
                self.token_sales.insert(index, (sale.project_id, new_status, sale.external_id));
            },
            ProjectTokenSaleStatus::Inactive => {},
        }
        proof {
            if m.wf() && m.sales.contains(sale) && (status_moves_index(new_status) || sale.status
                == ProjectTokenSaleStatus::Inactive) {
                lemma_update_status_keeps_sync(m, sale, new_status);
            }
            if m.wf() && synced_by_id(m) && m.sales.contains(sale) && status_moves_index(new_status)
                && (forall|i: int|
                0 <= i < m.sales.len() && #[trigger] m.sales[i].external_id != sale.external_id
                    ==> !(m.sales[i].project_id == sale.project_id && m.sales[i].status
                    == sale.status)) {
                lemma_update_status_keeps_sync_by_id(m, sale, new_status);
            }
            let w = self@;
            assert forall|a: int, b: int|
                0 <= a < w.sales.len() && 0 <= b < w.sales.len() && a != b implies w.sales[a].external_id
                != w.sales[b].external_id by {
                assert(w.sales[a].external_id == m.sales[a].external_id);
                assert(w.sales[b].external_id == m.sales[b].external_id);
            }
        }
    }

    /// Brings every scheduled sale in line with the time `now`, in schedule
    /// order: an active sale whose end has come expires when it stayed below
    /// its soft cap and finishes otherwise; an inactive sale whose window has
    /// opened becomes active.
    pub fn process_project_token_sales(&mut self, now: Moment)
        requires
            old(self)@.wf(),
        ensures
            final(self)@ == processed(old(self)@, now),
            final(self)@.wf(),
            forall|i: int|
                0 <= i < final(self)@.sales.len() ==> settled(#[trigger] final(self)@.sales[i], now),
            final(self)@.sales.len() == old(self)@.sales.len(),
            forall|i: int|
                0 <= i < old(self)@.sales.len() ==> {
                    let s = old(self)@.sales[i];
                    let t = (#[trigger] final(self)@.sales[i]).status;
                    &&& s.status == ProjectTokenSaleStatus::Active && s.end_time <= now
                        && s.total_amount < s.soft_cap ==> t == ProjectTokenSaleStatus::Expired
                    &&& s.status == ProjectTokenSaleStatus::Active && s.end_time <= now
                        && s.total_amount >= s.soft_cap ==> t == ProjectTokenSaleStatus::Finished
                    &&& s.status == ProjectTokenSaleStatus::Inactive && s.start_time <= now && now
                        < s.end_time ==> t == ProjectTokenSaleStatus::Active
                },
    {
        let ghost m0 = self@;
        let ghost ids = sale_ids(m0.end_times);
        let n = self.end_times.len();
        let mut i: usize = 0;
        while i < n
            invariant
                0 <= i <= n,
                n == m0.end_times.len(),
                ids == sale_ids(m0.end_times),
                self@ == process_spec(m0, ids.take(i as int), now),
                self@.wf(),
                self@.end_times == m0.end_times,
            decreases n - i,
        {
            let ghost before = self@;
            let sale_id = self.end_times[i].1;
            assert(ids.take(i + 1).drop_last() =~= ids.take(i as int));
            assert(ids[i as int] == sale_id);
            match find_sale_index(&self.sales, &sale_id) {
                Some(idx) => {
                    let sale = self.sales[idx];
                    proof {
                        let c = choose|c: int|
                            0 <= c < before.sales.len() && #[trigger] before.sales[c].external_id
                                == sale_id;
                        assert(before.sales[idx as int].external_id == sale_id);
                        if c != idx {
                            assert(before.sales[c].external_id
                                != before.sales[idx as int].external_id);
                        }
                        assert(before.find_sale(sale_id) == Some(sale));
                        assert(before.sales.contains(sale));
                        assert(before.has_sale(sale.external_id));
                        lemma_stored_key_indexed(before, sale);
                    }
                    if sale.end_time <= now && matches!(sale.status, ProjectTokenSaleStatus::Active) {
                        if sale.total_amount < sale.soft_cap {
                            self.update_status(sale, ProjectTokenSaleStatus::Expired);
                            Self::refund_project_token_sale(sale_id);
                        } else if sale.total_amount >= sale.soft_cap {
                            self.update_status(sale, ProjectTokenSaleStatus::Finished);
                            Self::finish_project_token_sale(sale_id);
                        }
                    } else if sale.end_time > now {
                        if now >= sale.start_time && matches!(
                            sale.status,
                            ProjectTokenSaleStatus::Inactive
                        ) {
                            self.update_status(sale, ProjectTokenSaleStatus::Active);
                        }
                    }
                },
                None => {
                    assert(!before.has_sale(sale_id));
                },
            }
            assert(self@ == step(before, sale_id, now));
            i += 1;
        }
        proof {
            assert(ids.take(n as int) =~= ids);
            lemma_process_settles(m0, now);
            lemma_process_outcome(m0, now);
        }
    }

    /// Hook run when a sale expires below its soft cap. Refunds are not
    /// made yet: it changes nothing.
    pub fn refund_project_token_sale(id: H160) {
    }

    /// Hook run when a sale finishes. Token distribution is not made yet: it
    /// changes nothing.
    pub fn finish_project_token_sale(id: H160) {
    }
}

} // verus!
