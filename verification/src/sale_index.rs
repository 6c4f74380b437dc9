//! The index of token sales by project and status: a vector kept sorted by
//! the key `(project, status)`, searched by lower bound.
use vstd::prelude::*;

use crate::primitives::lemma_h160_view_injective;
use crate::primitives::H160;

verus! {

/// Lifecycle of a project token sale. The declaration order is the order of
/// the index key.
#[derive(Clone, Copy, Debug, PartialEq, Eq, Structural)]
pub enum ProjectTokenSaleStatus {
    Active,
    Finished,
    Expired,
    Inactive,
}

/// Position of a status in the order of the index key.
pub open spec fn status_rank(s: ProjectTokenSaleStatus) -> int {
    match s {
        ProjectTokenSaleStatus::Active => 0,
        ProjectTokenSaleStatus::Finished => 1,
        ProjectTokenSaleStatus::Expired => 2,
        ProjectTokenSaleStatus::Inactive => 3,
    }
}

/// One entry of the index: project, status of the sale, sale id.
pub type IndexEntry = (H160, ProjectTokenSaleStatus, H160);

/// The key `(project, status)` as one number; numbers compare as the pairs
/// compare lexicographically.
pub open spec fn index_key(project: H160, status: ProjectTokenSaleStatus) -> int {
    project@ * 4 + status_rank(status)
}

pub open spec fn entry_key(e: IndexEntry) -> int {
    index_key(e.0, e.1)
}

/// The keys of the entries, in order.
pub open spec fn entry_keys(ts: Seq<IndexEntry>) -> Seq<int> {
    ts.map_values(|e: IndexEntry| entry_key(e))
}

/// Entries are ordered by key (entries with equal keys in any order).
pub open spec fn sorted_by_key(ts: Seq<IndexEntry>) -> bool {
    forall|i: int, j: int| 0 <= i <= j < ts.len() ==> entry_key(ts[i]) <= entry_key(ts[j])
}

/// Number of entries whose key is below `k`; in a sorted index, the first
/// position whose key is at least `k`.
pub open spec fn count_below(ts: Seq<IndexEntry>, k: int) -> nat
    decreases ts.len(),
{
    if ts.len() == 0 {
        0
    } else {
        count_below(ts.drop_last(), k) + if entry_key(ts.last()) < k {
            1nat
        } else {
            0nat
        }
    }
}

/// Whether `j` splits the index into keys below `k` and keys at least `k`.
pub open spec fn splits_at(ts: Seq<IndexEntry>, k: int, j: int) -> bool {
    &&& 0 <= j <= ts.len()
    &&& forall|i: int| 0 <= i < j ==> entry_key(#[trigger] ts[i]) < k
    &&& forall|i: int| j <= i < ts.len() ==> entry_key(#[trigger] ts[i]) >= k
}

/// In a sorted index, `count_below` is the split point for `k`.
pub proof fn lemma_count_below_splits(ts: Seq<IndexEntry>, k: int)
    requires
        sorted_by_key(ts),
    ensures
        splits_at(ts, k, count_below(ts, k) as int),
    decreases ts.len(),
{
    if ts.len() > 0 {
        let init = ts.drop_last();
        assert(sorted_by_key(init));
        lemma_count_below_splits(init, k);
        let c = count_below(init, k) as int;
        assert forall|i: int| 0 <= i < init.len() implies #[trigger] ts[i] == init[i] by {}
        if entry_key(ts.last()) < k {
            assert forall|i: int| 0 <= i < ts.len() implies entry_key(#[trigger] ts[i]) < k by {
                assert(entry_key(ts[i]) <= entry_key(ts[ts.len() - 1]));
            }
            if c < init.len() {
                assert(entry_key(init[c]) >= k);
                assert(entry_key(ts[c]) < k);
            }
            assert(c == init.len());
        } else {
            assert forall|i: int| 0 <= i < c implies entry_key(#[trigger] ts[i]) < k by {
                assert(ts[i] == init[i]);
            }
            assert forall|i: int| c <= i < ts.len() implies entry_key(#[trigger] ts[i]) >= k by {
                if i < init.len() {
                    assert(ts[i] == init[i]);
                }
            }
        }
    }
}

/// The split point of a sorted index is unique.
pub proof fn lemma_split_unique(ts: Seq<IndexEntry>, k: int, j: int)
    requires
        sorted_by_key(ts),
        splits_at(ts, k, j),
    ensures
        j == count_below(ts, k),
{
    lemma_count_below_splits(ts, k);
    let c = count_below(ts, k) as int;
    if j < c {
        assert(entry_key(ts[j]) >= k);
    } else if c < j {
        assert(entry_key(ts[c]) >= k);
    }
}

/// Removing an entry keeps the index sorted.
pub proof fn lemma_remove_sorted(ts: Seq<IndexEntry>, pos: int)
    requires
        sorted_by_key(ts),
        0 <= pos < ts.len(),
    ensures
        sorted_by_key(ts.remove(pos)),
{
    let r = ts.remove(pos);
    assert forall|i: int, j: int| 0 <= i <= j < r.len() implies entry_key(r[i]) <= entry_key(
        r[j],
    ) by {
        let oi = if i < pos { i } else { i + 1 };
        let oj = if j < pos { j } else { j + 1 };
        assert(r[i] == ts[oi]);
        assert(r[j] == ts[oj]);
    }
}

/// Inserting an entry at the split point of its key keeps the index sorted.
pub proof fn lemma_insert_sorted(ts: Seq<IndexEntry>, e: IndexEntry)
    requires
        sorted_by_key(ts),
    ensures
        sorted_by_key(ts.insert(count_below(ts, entry_key(e)) as int, e)),
{
    let k = entry_key(e);
    lemma_count_below_splits(ts, k);
    let q = count_below(ts, k) as int;
    let r = ts.insert(q, e);
    assert forall|i: int, j: int| 0 <= i <= j < r.len() implies entry_key(r[i]) <= entry_key(
        r[j],
    ) by {
        if i < q {
            assert(r[i] == ts[i]);
        }
        if i > q {
            assert(r[i] == ts[i - 1]);
        }
        if j < q {
            assert(r[j] == ts[j]);
        }
        if j > q {
            assert(r[j] == ts[j - 1]);
        }
    }
}

/// Equal keys have the same project and the same status.
pub proof fn lemma_index_key_injective(
    p1: H160,
    s1: ProjectTokenSaleStatus,
    p2: H160,
    s2: ProjectTokenSaleStatus,
)
    requires
        index_key(p1, s1) == index_key(p2, s2),
    ensures
        p1 == p2,
        s1 == s2,
{
    assert(p1@ == p2@);
    lemma_h160_view_injective(p1, p2);
    assert(status_rank(s1) == status_rank(s2));
}

/// Keys of a sequence after removing an entry.
pub proof fn lemma_entry_keys_remove(ts: Seq<IndexEntry>, pos: int)
    requires
        0 <= pos < ts.len(),
    ensures
        entry_keys(ts.remove(pos)) == entry_keys(ts).remove(pos),
{
    assert(entry_keys(ts.remove(pos)) =~= entry_keys(ts).remove(pos));
}

/// Keys of a sequence after inserting an entry.
pub proof fn lemma_entry_keys_insert(ts: Seq<IndexEntry>, pos: int, e: IndexEntry)
    requires
        0 <= pos <= ts.len(),
    ensures
        entry_keys(ts.insert(pos, e)) == entry_keys(ts).insert(pos, entry_key(e)),
{
    assert(entry_keys(ts.insert(pos, e)) =~= entry_keys(ts).insert(pos, entry_key(e)));
}

/// Rank of a status, computed.
pub fn status_rank_of(s: ProjectTokenSaleStatus) -> (r: u8)
    ensures
        r == status_rank(s),
{
    match s {
        ProjectTokenSaleStatus::Active => 0,
        ProjectTokenSaleStatus::Finished => 1,
        ProjectTokenSaleStatus::Expired => 2,
        ProjectTokenSaleStatus::Inactive => 3,
    }
}

/// Whether the key `(ap, as_)` is below the key `(bp, bs)`.
pub fn key_below(
    ap: &H160,
    a_status: ProjectTokenSaleStatus,
    bp: &H160,
    b_status: ProjectTokenSaleStatus,
) -> (res: bool)
    ensures
        res == (index_key(*ap, a_status) < index_key(*bp, b_status)),
{
    if ap.lt(bp) {
        true
    } else if bp.lt(ap) {
        false
    } else {
        status_rank_of(a_status) < status_rank_of(b_status)
    }
}

/// First position of a sorted index whose key is at least `(project, status)`.
pub fn lower_bound(ts: &Vec<IndexEntry>, project: &H160, status: ProjectTokenSaleStatus) -> (pos:
    usize)
    requires
        sorted_by_key(ts@),
    ensures
        pos == count_below(ts@, index_key(*project, status)),
        splits_at(ts@, index_key(*project, status), pos as int),
{
    let ghost k = index_key(*project, status);
    let mut lo: usize = 0;
    let mut hi: usize = ts.len();
    while lo < hi
        invariant
            k == index_key(*project, status),
            0 <= lo <= hi <= ts.len(),
            forall|i: int| 0 <= i < lo ==> entry_key(#[trigger] ts@[i]) < k,
            forall|i: int| hi <= i < ts.len() ==> entry_key(#[trigger] ts@[i]) >= k,
            sorted_by_key(ts@),
        decreases hi - lo,
    {
        let mid: usize = lo + (hi - lo) / 2;
        let e = &ts[mid];
        if key_below(&e.0, e.1, project, status) {
            assert forall|i: int| 0 <= i <= mid implies entry_key(#[trigger] ts@[i]) < k by {
                assert(entry_key(ts@[i]) <= entry_key(ts@[mid as int]));
            }
            lo = mid + 1;
        } else {
            assert forall|i: int| mid <= i < ts.len() implies entry_key(#[trigger] ts@[i]) >= k by {
                assert(entry_key(ts@[mid as int]) <= entry_key(ts@[i]));
            }
            hi = mid;
        }
    }
    proof {
        lemma_split_unique(ts@, k, lo as int);
    }
    lo
}

} // verus!
