//! Proposals: a batch of calls, one per member account, that each member
//! approves or declines; proposals are stored by author and id, and each
//! member keeps the ids of the proposals that wait for it.
use vstd::prelude::*;

use crate::hashing::compact_decodes;
use crate::hashing::compact_u32_bytes;
use crate::hashing::encode_compact_u32;
use crate::hashing::encode_u64;
use crate::hashing::is_vec_encoding;
use crate::hashing::lemma_compact_prefix_is_vec_encoding;
use crate::hashing::lemma_compact_u32_read_back;
use crate::hashing::lemma_le_bytes_read_back;
use crate::hashing::le_bytes;
use crate::hashing::le_value;
use crate::hashing::twox_256;
use crate::hashing::twox_256_digest;
use crate::primitives::be_value;
use crate::primitives::pow256;
use crate::primitives::ensure_signed;
use crate::primitives::hash_below;
use crate::primitives::lemma_be_value_injective;
use crate::primitives::AccountId;
use crate::primitives::DispatchError;
use crate::primitives::Origin;
use crate::primitives::Pays;
use crate::primitives::PostDispatchInfo;

verus! {

/// Id of a proposal: a 256-bit digest.
pub type ProposalId = [u8; 32];

/// The ids of the proposals waiting for one account, each once.
pub type PendingProposalsMap = Vec<ProposalId>;

/// The ids pending for an account that has none recorded: none.
#[allow(non_snake_case)]
pub fn PendingProposalsMapDefault() -> (res: PendingProposalsMap)
    ensures
        res@ == Seq::<ProposalId>::empty(),
{
    Vec::new()
}

/// Events of the pallet.
#[derive(Clone, Copy, Debug, PartialEq, Eq, Structural)]
pub enum Event {
    Proposed(u32, AccountId),
}

/// Genesis configuration of the pallet: nothing to configure.
#[derive(Clone, Copy, Debug, Default, PartialEq, Eq)]
pub struct GenesisConfig {}

impl GenesisConfig {
    /// Builds the genesis state: nothing to build.
    pub fn build(&self) {
    }
}

/// State of a proposal as a whole.
#[derive(Clone, Copy, Debug, PartialEq, Eq, Structural)]
pub enum ProposalState {
    Pending,
    Rejected,
    Done,
}

/// Decision of one member.
#[derive(Clone, Copy, Debug, PartialEq, Eq, Structural)]
pub enum MemberDecisionState {
    Pending,
    Approve,
    Decline,
}

/// One item of a batch: the member account and the call made on its behalf.
#[derive(Clone, Debug, PartialEq, Eq)]
pub struct BatchItemX<Account, Extrinsic> {
    pub account: Account,
    pub extrinsic: Extrinsic,
}

/// A runtime call, held as its SCALE encoding.
pub type EncodedCall = Vec<u8>;

pub type BatchItemOf = BatchItemX<AccountId, EncodedCall>;

/// An item as plain values: account and encoded call.
pub open spec fn item_view(it: BatchItemOf) -> (AccountId, Seq<u8>) {
    (it.account, it.extrinsic@)
}

pub open spec fn batch_view(b: Seq<BatchItemOf>) -> Seq<(AccountId, Seq<u8>)> {
    b.map_values(|it: BatchItemOf| item_view(it))
}

/// SCALE encoding of an item: the account, then the call.
pub open spec fn item_encoding(it: (AccountId, Seq<u8>)) -> Seq<u8> {
    le_bytes(it.0 as nat, 8) + it.1
}

/// The items' encodings, one after the other.
pub open spec fn items_encoding(items: Seq<(AccountId, Seq<u8>)>) -> Seq<u8>
    decreases items.len(),
{
    if items.len() == 0 {
        Seq::empty()
    } else {
        items_encoding(items.drop_last()) + item_encoding(items.last())
    }
}

/// SCALE encoding of a batch: its length as a compact number, then the items.
pub open spec fn batch_encoding(items: Seq<(AccountId, Seq<u8>)>) -> Seq<u8> {
    compact_u32_bytes(items.len() as u32) + items_encoding(items)
}

/// SCALE encoding of a byte vector: its length as a compact number, then
/// the bytes.
pub open spec fn bytes_encoding(bytes: Seq<u8>) -> Seq<u8> {
    compact_u32_bytes(bytes.len() as u32) + bytes
}

/// The id of the proposal of `author` with the batch `items`, each value
/// hashed through its SCALE encoding: the digest of the encoding of the byte
/// vector made of the author's digest followed by the digest of the encoding
/// of the batch's encoding (itself a byte vector).
pub open spec fn proposal_id_of(author: AccountId, items: Seq<(AccountId, Seq<u8>)>) -> Seq<u8> {
    twox_256_digest(
        bytes_encoding(
            twox_256_digest(le_bytes(author as nat, 8)) + twox_256_digest(
                bytes_encoding(batch_encoding(items)),
            ),
        ),
    )
}

/// `bytes` reads back, item after item, as `items`: each item is eight
/// little-endian bytes reading as its account, followed by its call bytes.
pub open spec fn reads_as_items(bytes: Seq<u8>, items: Seq<(AccountId, Seq<u8>)>) -> bool
    decreases items.len(),
{
    if items.len() == 0 {
        bytes.len() == 0
    } else {
        let call = items[0].1;
        &&& bytes.len() >= 8 + call.len()
        &&& le_value(bytes.subrange(0, 8)) == items[0].0
        &&& bytes.subrange(8, 8 + call.len() as int) == call
        &&& reads_as_items(bytes.skip(8 + call.len() as int), items.drop_first())
    }
}

/// `e` is a SCALE encoding of the batch `items`: a compact prefix reading as
/// the number of items, then the items one after the other.
pub open spec fn encodes_batch(e: Seq<u8>, items: Seq<(AccountId, Seq<u8>)>) -> bool {
    exists|p: int|
        #![trigger e.take(p)]
        0 < p <= e.len() && compact_decodes(e.take(p), items.len()) && reads_as_items(e.skip(p), items)
}

/// The items' encodings, taken from the front.
proof fn lemma_items_encoding_front(items: Seq<(AccountId, Seq<u8>)>)
    requires
        items.len() > 0,
    ensures
        items_encoding(items) == item_encoding(items[0]) + items_encoding(items.drop_first()),
    decreases items.len(),
{
    if items.len() == 1 {
        assert(items.drop_first() =~= Seq::<(AccountId, Seq<u8>)>::empty());
        assert(items.drop_last() =~= Seq::<(AccountId, Seq<u8>)>::empty());
        assert(items_encoding(items.drop_last()) =~= Seq::<u8>::empty());
        assert(items_encoding(items.drop_first()) =~= Seq::<u8>::empty());
        assert(items.last() == items[0]);
        assert(items_encoding(items) =~= item_encoding(items[0]));
    } else {
        let init = items.drop_last();
        lemma_items_encoding_front(init);
        assert(init.drop_first() =~= items.drop_first().drop_last());
        assert(items.drop_first().last() == items.last());
        assert(items_encoding(items) =~= item_encoding(items[0]) + items_encoding(
            items.drop_first(),
        ));
    }
}

/// The items' encodings read back as the items.
proof fn lemma_items_encoding_reads_back(items: Seq<(AccountId, Seq<u8>)>)
    ensures
        reads_as_items(items_encoding(items), items),
    decreases items.len(),
{
    if items.len() > 0 {
        lemma_items_encoding_front(items);
        lemma_items_encoding_reads_back(items.drop_first());
        let it = items[0];
        let rest = items_encoding(items.drop_first());
        let e = items_encoding(items);
        reveal_with_fuel(pow256, 9);
        lemma_le_bytes_read_back(it.0 as nat, 8);
        let a = le_bytes(it.0 as nat, 8);
        assert(e =~= a + it.1 + rest);
        assert(e.subrange(0, 8) =~= a);
        assert(e.subrange(8, 8 + it.1.len() as int) =~= it.1);
        assert(e.skip(8 + it.1.len() as int) =~= rest);
    } else {
        assert(items_encoding(items) =~= Seq::<u8>::empty());
    }
}

/// The SCALE encoding of a batch reads back as the batch: a compact prefix
/// reading as the number of items, then, for each item in order, eight
/// little-endian bytes reading as its whole account and then its call bytes.
pub proof fn lemma_batch_encoding_reads_back(items: Seq<(AccountId, Seq<u8>)>)
    requires
        items.len() <= u32::MAX,
    ensures
        encodes_batch(batch_encoding(items), items),
{
    let pre = compact_u32_bytes(items.len() as u32);
    let e = batch_encoding(items);
    lemma_compact_u32_read_back(items.len() as u32);
    lemma_items_encoding_reads_back(items);
    let p = pre.len() as int;
    assert(e.take(p) =~= pre);
    assert(e.skip(p) =~= items_encoding(items));
}

/// The id of a proposal is the digest of the byte-vector encoding of the
/// author's digest followed by the batch's digest, where the author's digest
/// is taken over eight little-endian bytes reading as the author and the
/// batch's digest over the byte-vector encoding of an encoding of the batch.
/// The returned byte strings are those encodings, in that order. (The digest
/// is 32 bytes, so the source of the id is 64 bytes long.)
pub proof fn lemma_proposal_id_hashes_encodings(
    author: AccountId,
    items: Seq<(AccountId, Seq<u8>)>,
) -> (w: (Seq<u8>, Seq<u8>, Seq<u8>, Seq<u8>))
    requires
        items.len() <= u32::MAX,
        batch_encoding(items).len() <= u32::MAX,
    ensures
        w.0.len() == 8,
        le_value(w.0) == author,
        encodes_batch(w.1, items),
        is_vec_encoding(w.2, w.1),
        twox_256_digest(w.0).len() + twox_256_digest(w.2).len() <= u32::MAX ==> is_vec_encoding(
            w.3,
            twox_256_digest(w.0) + twox_256_digest(w.2),
        ),
        proposal_id_of(author, items) == twox_256_digest(w.3),
{
    reveal_with_fuel(pow256, 9);
    lemma_le_bytes_read_back(author as nat, 8);
    let a = le_bytes(author as nat, 8);
    let b = batch_encoding(items);
    lemma_batch_encoding_reads_back(items);
    let bv = bytes_encoding(b);
    lemma_compact_prefix_is_vec_encoding(b);
    let src = twox_256_digest(a) + twox_256_digest(bv);
    if src.len() <= u32::MAX {
        lemma_compact_prefix_is_vec_encoding(src);
    }
    (a, b, bv, bytes_encoding(src))
}

/// A proposal as plain values.
pub struct DeipProposalView {
    pub batch: Seq<(AccountId, Seq<u8>)>,
    pub decisions: Seq<MemberDecisionState>,
    pub state: ProposalState,
    pub author: AccountId,
}

/// A fresh proposal: every member's decision pending.
pub open spec fn fresh_proposal(items: Seq<(AccountId, Seq<u8>)>, author: AccountId) -> DeipProposalView {
    DeipProposalView {
        batch: items,
        decisions: Seq::new(items.len(), |i: int| MemberDecisionState::Pending),
        state: ProposalState::Pending,
        author,
    }
}

/// Approving (`verdict` Approve) or declining (`verdict` Decline) a decision
/// in state `d`: the result reported and the decision afterwards. Only a
/// pending decision is made; a decision already made is reported as an error.
pub open spec fn decision_outcome(d: MemberDecisionState, verdict: MemberDecisionState) -> (
    Result<MemberDecisionState, MemberDecisionState>,
    MemberDecisionState,
) {
    if d == MemberDecisionState::Pending {
        (Ok(verdict), verdict)
    } else {
        (Err(d), d)
    }
}

/// A decision is made once: after a first approval or decline, a second
/// one is refused with the decision made, which stays.
pub proof fn lemma_decision_is_final(
    d: MemberDecisionState,
    first: MemberDecisionState,
    second: MemberDecisionState,
)
    requires
        first != MemberDecisionState::Pending,
    ensures
        decision_outcome(decision_outcome(d, first).1, second) == (
            Err::<MemberDecisionState, MemberDecisionState>(decision_outcome(d, first).1),
            decision_outcome(d, first).1,
        ),
{
}

/// A stored proposal is found again under its author and id, so the same
/// author cannot store another proposal with that id; for every other
/// author, what is stored is found exactly as before.
pub proof fn lemma_stored_proposal_is_found(
    before: PalletView,
    after: PalletView,
    author: AccountId,
    id: Seq<u8>,
    proposal: DeipProposalView,
)
    requires
        after.proposals == before.proposals.push((author, id, proposal)),
    ensures
        after.contains_key(author, id),
        forall|other: AccountId, other_id: Seq<u8>|
            other != author ==> (#[trigger] after.contains_key(other, other_id)
                <==> before.contains_key(other, other_id)),
{
    let n = before.proposals.len() as int;
    assert(after.proposals[n] == (author, id, proposal));
    assert(after.proposals[n].0 == author && after.proposals[n].1 == id);
    assert forall|other: AccountId, other_id: Seq<u8>|
        other != author implies (#[trigger] after.contains_key(other, other_id)
        <==> before.contains_key(other, other_id)) by {
        if after.contains_key(other, other_id) {
            let i = choose|i: int|
                0 <= i < after.proposals.len() && #[trigger] after.proposals[i].0 == other
                    && after.proposals[i].1 == other_id;
            assert(i < n);
            assert(before.proposals[i] == after.proposals[i]);
        }
        if before.contains_key(other, other_id) {
            let i = choose|i: int|
                0 <= i < before.proposals.len() && #[trigger] before.proposals[i].0 == other
                    && before.proposals[i].1 == other_id;
            assert(after.proposals[i] == before.proposals[i]);
        }
    }
}

/// The id of a proposal depends on its author and its batch alone: the
/// decisions and the state of the proposal play no part.
pub proof fn lemma_id_depends_on_author_and_batch(p1: DeipProposalView, p2: DeipProposalView)
    requires
        p1.author == p2.author,
        p1.batch == p2.batch,
    ensures
        proposal_id_of(p1.author, p1.batch) == proposal_id_of(p2.author, p2.batch),
{
}

/// `i` is the first position, among the first `n`, whose member is `member`.
pub open spec fn is_first_member(
    items: Seq<(AccountId, Seq<u8>)>,
    n: int,
    member: AccountId,
    i: int,
) -> bool {
    &&& 0 <= i < n
    &&& items[i].0 == member
    &&& forall|j: int| 0 <= j < i ==> items[j].0 != member
}

/// Number of members that have a decision slot.
pub open spec fn decided_len(p: DeipProposalView) -> int {
    if p.batch.len() <= p.decisions.len() {
        p.batch.len() as int
    } else {
        p.decisions.len() as int
    }
}

/// Whether `member` has an item with a decision slot.
pub open spec fn is_member(p: DeipProposalView, member: AccountId) -> bool {
    exists|i: int| 0 <= i < decided_len(p) && #[trigger] p.batch[i].0 == member
}

/// The first item of `member` with a decision slot.
pub open spec fn member_index(p: DeipProposalView, member: AccountId) -> int {
    choose|i: int| is_first_member(p.batch, decided_len(p), member, i)
}

/// A batch of calls waiting to become a proposal.
pub struct DeipProposalBuilder {
    batch: Vec<BatchItemOf>,
}

impl DeipProposalBuilder {
    /// The batch.
    pub fn batch(&self) -> (res: &Vec<BatchItemOf>)
        ensures
            res@ == self.batch_items(),
    {
        &self.batch
    }

    pub closed spec fn batch_items(&self) -> Seq<BatchItemOf> {
        self.batch@
    }
}

/// A proposal: the batch, one decision per item, its state and its author.
#[derive(Debug)]
pub struct DeipProposal {
    batch: Vec<BatchItemOf>,
    decisions: Vec<MemberDecisionState>,
    state: ProposalState,
    author: AccountId,
}

impl View for DeipProposal {
    type V = DeipProposalView;

    closed spec fn view(&self) -> DeipProposalView {
        DeipProposalView {
            batch: batch_view(self.batch@),
            decisions: self.decisions@,
            state: self.state,
            author: self.author,
        }
    }
}

/// The decision of one member, with its item, open for approval or decline.
pub struct MemberDecision<'a>(pub &'a mut BatchItemOf, pub &'a mut MemberDecisionState);

fn element_mut<T>(v: &mut Vec<T>, i: usize) -> (r: &mut T)
    requires
        i < old(v).len(),
    ensures
        *r == old(v)@[i as int],
        final(v)@ == old(v)@.update(i as int, *final(r)),
{
    &mut v[i]
}

/// The encoding of the items `b[0..k]`, with the compact length in front.
proof fn lemma_items_encoding_step(b: Seq<(AccountId, Seq<u8>)>, k: int)
    requires
        0 <= k < b.len(),
    ensures
        items_encoding(b.take(k + 1)) == items_encoding(b.take(k)) + item_encoding(b[k]),
{
    assert(b.take(k + 1).drop_last() =~= b.take(k));
}

/// SCALE encoding of a batch.
pub fn encode_batch(batch: &Vec<BatchItemOf>) -> (res: Vec<u8>)
    requires
        batch.len() <= u32::MAX,
    ensures
        res@ == batch_encoding(batch_view(batch@)),
{
    let ghost items = batch_view(batch@);
    let mut res = encode_compact_u32(batch.len() as u32);
    let mut i: usize = 0;
    while i < batch.len()
        invariant
            0 <= i <= batch.len(),
            items == batch_view(batch@),
            batch.len() <= u32::MAX,
            res@ == compact_u32_bytes(batch.len() as u32) + items_encoding(items.take(i as int)),
        decreases batch.len() - i,
    {
        let item = &batch[i];
        let mut account = encode_u64(item.account);
        let mut call: Vec<u8> = Vec::new();
        let mut j: usize = 0;
        while j < item.extrinsic.len()
            invariant
                0 <= j <= item.extrinsic.len(),
                call@ == item.extrinsic@.take(j as int),
            decreases item.extrinsic.len() - j,
        {
            call.push(item.extrinsic[j]);
            j += 1;
            assert(call@ =~= item.extrinsic@.take(j as int));
        }
        assert(item.extrinsic@.take(item.extrinsic.len() as int) =~= item.extrinsic@);
        let ghost before = res@;
        res.append(&mut account);
        res.append(&mut call);
        proof {
            lemma_items_encoding_step(items, i as int);
            assert(items[i as int] == item_view(*item));
            assert(res@ =~= before + item_encoding(items[i as int]));
        }
        i += 1;
    }
    assert(items.take(batch.len() as int) =~= items);
    res
}

/// SCALE encoding of a byte vector.
pub fn encode_bytes(bytes: &Vec<u8>) -> (res: Vec<u8>)
    requires
        bytes.len() <= u32::MAX,
    ensures
        res@ == bytes_encoding(bytes@),
{
    let mut res = encode_compact_u32(bytes.len() as u32);
    let ghost prefix = res@;
    let mut j: usize = 0;
    while j < bytes.len()
        invariant
            0 <= j <= bytes.len(),
            res@ == prefix + bytes@.take(j as int),
        decreases bytes.len() - j,
    {
        res.push(bytes[j]);
        j += 1;
        assert(res@ =~= prefix + bytes@.take(j as int));
    }
    assert(bytes@.take(bytes.len() as int) =~= bytes@);
    res
}

/// The byte vector hashed into a proposal id: the author's digest, then the
/// batch's digest.
pub fn proposal_id_source(author_hash: &[u8; 32], batch_hash: &[u8; 32]) -> (res: Vec<u8>)
    ensures
        res@ == author_hash@ + batch_hash@,
{
    let mut res: Vec<u8> = Vec::with_capacity(64);
    let mut i: usize = 0;
    while i < 32
        invariant
            0 <= i <= 32,
            res@ == author_hash@.take(i as int),
        decreases 32 - i,
    {
        res.push(author_hash[i]);
        i += 1;
        assert(res@ =~= author_hash@.take(i as int));
    }
    let mut j: usize = 0;
    while j < 32
        invariant
            0 <= j <= 32,
            res@ == author_hash@ + batch_hash@.take(j as int),
        decreases 32 - j,
    {
        res.push(batch_hash[j]);
        j += 1;
        assert(res@ =~= author_hash@ + batch_hash@.take(j as int));
    }
    assert(author_hash@.take(32) =~= author_hash@);
    assert(batch_hash@.take(32) =~= batch_hash@);
    res
}

impl DeipProposal {
    /// The id of the proposal, from its author and its batch.
    pub fn id(&self) -> (res: ProposalId)
        requires
            self@.batch.len() <= u32::MAX,
            batch_encoding(self@.batch).len() <= u32::MAX,
        ensures
            res@ == proposal_id_of(self@.author, self@.batch),
    {
        let author_bytes = encode_u64(self.author);
        let author_hash = twox_256(author_bytes.as_slice());
        let batch_bytes = encode_batch(&self.batch);
        let batch_bytes_encoded = encode_bytes(&batch_bytes);
        let batch_hash = twox_256(batch_bytes_encoded.as_slice());
        let proposal_id_source = proposal_id_source(&author_hash, &batch_hash);
        let proposal_id_source_encoded = encode_bytes(&proposal_id_source);
        twox_256(proposal_id_source_encoded.as_slice())
    }

    /// A builder holding `batch`.
    pub fn builder(batch: Vec<BatchItemOf>) -> (res: DeipProposalBuilder)
        ensures
            res.batch_items() == batch@,
    {
        DeipProposalBuilder { batch }
    }

    /// A pending proposal of `author` over `batch`, every decision pending.
    pub fn new(batch: Vec<BatchItemOf>, author: AccountId) -> (res: Self)
        ensures
            res@ == fresh_proposal(batch_view(batch@), author),
    {
        let mut decisions: Vec<MemberDecisionState> = Vec::with_capacity(batch.len());
        let mut i: usize = 0;
        while i < batch.len()
            invariant
                0 <= i <= batch.len(),
                decisions@ == Seq::new(i as nat, |k: int| MemberDecisionState::Pending),
            decreases batch.len() - i,
        {
            decisions.push(MemberDecisionState::Pending);
            i += 1;
            assert(decisions@ =~= Seq::new(i as nat, |k: int| MemberDecisionState::Pending));
        }
        let res = Self { batch, decisions, state: ProposalState::Pending, author };
        assert(res@.decisions =~= fresh_proposal(batch_view(batch@), author).decisions);
        res
    }

    /// The items of the batch.
    pub fn batch(&self) -> (res: &Vec<BatchItemOf>)
        ensures
            batch_view(res@) == self@.batch,
    {
        &self.batch
    }

    /// The decisions, one per item.
    pub fn decisions(&self) -> (res: &Vec<MemberDecisionState>)
        ensures
            res@ == self@.decisions,
    {
        &self.decisions
    }

    /// The state of the proposal.
    pub fn state(&self) -> (res: ProposalState)
        ensures
            res == self@.state,
    {
        self.state
    }

    /// The author.
    pub fn author(&self) -> (res: AccountId)
        ensures
            res == self@.author,
    {
        self.author
    }

    /// The decision of `member`: the first item of `member` that has a
    /// decision slot, with that decision. Refused with "Not a member" when
    /// there is none.
    pub fn decide<'a>(&'a mut self, member: AccountId) -> (res: Result<
        MemberDecision<'a>,
        &'static str,
    >)
        ensures
            is_member(old(self)@, member) <==> res is Ok,
            match res {
                Ok(d) => {
                    let i = member_index(old(self)@, member);
                    &&& is_first_member(old(self)@.batch, decided_len(old(self)@), member, i)
                    &&& item_view(*d.0) == old(self)@.batch[i]
                    &&& *d.1 == old(self)@.decisions[i]
                    &&& final(self)@.batch == old(self)@.batch.update(i, item_view(*final(d.0)))
                    &&& final(self)@.decisions == old(self)@.decisions.update(i, *final(d.1))
                    &&& final(self)@.state == old(self)@.state
                    &&& final(self)@.author == old(self)@.author
                },
                Err(msg) => msg@ == "Not a member"@ && final(self)@ == old(self)@,
            },
    {
        let ghost p = self@;
        let n = if self.batch.len() <= self.decisions.len() {
            self.batch.len()
        } else {
            self.decisions.len()
        };
        let mut i: usize = 0;
        while i < n && self.batch[i].account != member
            invariant
                0 <= i <= n,
                n == decided_len(p),
                p == self@,
                forall|j: int| 0 <= j < i ==> p.batch[j].0 != member,
            decreases n - i,
        {
            i += 1;
        }
        if i == n {
            return Err("Not a member");
        }
        proof {
            assert(p.batch[i as int] == item_view(self.batch@[i as int]));
            assert(is_first_member(p.batch, n as int, member, i as int));
            let c = member_index(p, member);
            if c < i {
                assert(p.batch[c].0 != member);
            } else if c > i {
                assert(p.batch[i as int].0 != member);
            }
        }
        let DeipProposal { batch, decisions, .. } = self;
        let item = element_mut(batch, i);
        let decision = element_mut(decisions, i);
        Ok(MemberDecision(item, decision))
    }
}

impl<'a> MemberDecision<'a> {
    /// Approves a pending decision; a decision already made is reported
    /// unchanged as an error.
    pub fn approve(self) -> (res: Result<MemberDecisionState, MemberDecisionState>)
        ensures
            (res, *final(self.1)) == decision_outcome(*old(self.1), MemberDecisionState::Approve),
            *final(self.0) == *old(self.0),
    {
        match self.1 {
            MemberDecisionState::Pending => {
                *self.1 = MemberDecisionState::Approve;
                Ok(*self.1)
            },
            _ => Err(*self.1),
        }
    }

    /// Declines a pending decision; a decision already made is reported
    /// unchanged as an error.
    pub fn decline(self) -> (res: Result<MemberDecisionState, MemberDecisionState>)
        ensures
            (res, *final(self.1)) == decision_outcome(*old(self.1), MemberDecisionState::Decline),
            *final(self.0) == *old(self.0),
    {
        match self.1 {
            MemberDecisionState::Pending => {
                *self.1 = MemberDecisionState::Decline;
                Ok(*self.1)
            },
            _ => Err(*self.1),
        }
    }
}

/// Whether some item of `items` belongs to `acc`.
pub open spec fn has_member(items: Seq<(AccountId, Seq<u8>)>, acc: AccountId) -> bool {
    exists|k: int| 0 <= k < items.len() && #[trigger] items[k].0 == acc
}

/// Ids in strictly ascending order of their big-endian value (the order of
/// their bytes compared one by one).
pub open spec fn ascending(ids: Seq<Seq<u8>>) -> bool {
    forall|i: int, j: int| 0 <= i < j < ids.len() ==> be_value(ids[i]) < be_value(ids[j])
}

/// Ids in ascending order appear once each.
pub proof fn lemma_ascending_no_duplicates(ids: Seq<Seq<u8>>)
    requires
        ascending(ids),
    ensures
        ids.no_duplicates(),
{
    assert forall|i: int, j: int| 0 <= i < ids.len() && 0 <= j < ids.len() && i != j implies ids[i]
        != ids[j] by {
        if i < j {
            assert(be_value(ids[i]) < be_value(ids[j]));
        } else {
            assert(be_value(ids[j]) < be_value(ids[i]));
        }
    }
}

/// Stored proposals and, per account, the ids of the proposals waiting for it.
pub struct PalletView {
    /// `ProposalStorage`: author, id, proposal.
    pub proposals: Seq<(AccountId, Seq<u8>, DeipProposalView)>,
    /// `PendingProposals`: account, ids.
    pub pending: Seq<(AccountId, Seq<Seq<u8>>)>,
}

impl PalletView {
    /// A proposal of `author` with id `id` is stored.
    pub open spec fn contains_key(self, author: AccountId, id: Seq<u8>) -> bool {
        exists|i: int|
            0 <= i < self.proposals.len() && #[trigger] self.proposals[i].0 == author
                && self.proposals[i].1 == id
    }

    /// The ids of the proposals waiting for `acc`.
    pub open spec fn pending_of(self, acc: AccountId) -> Set<Seq<u8>> {
        Set::new(
            |id: Seq<u8>|
                exists|i: int|
                    0 <= i < self.pending.len() && #[trigger] self.pending[i].0 == acc
                        && self.pending[i].1.contains(id),
        )
    }

    /// Each `(author, id)` is stored once, each account has one list of
    /// pending ids, and a list holds its ids in ascending order, each once.
    pub open spec fn wf(self) -> bool {
        &&& forall|i: int, j: int|
            0 <= i < self.proposals.len() && 0 <= j < self.proposals.len() && i != j
                ==> !(self.proposals[i].0 == self.proposals[j].0 && self.proposals[i].1
                == self.proposals[j].1)
        &&& forall|i: int, j: int|
            0 <= i < self.pending.len() && 0 <= j < self.pending.len() && i != j
                ==> self.pending[i].0 != self.pending[j].0
        &&& forall|i: int| 0 <= i < self.pending.len() ==> ascending((#[trigger] self.pending[i]).1)
    }
}

/// In a well-formed state, the ids pending for the account of entry `i` are
/// that entry's ids.
proof fn lemma_pending_of_entry(v: PalletView, i: int)
    requires
        v.wf(),
        0 <= i < v.pending.len(),
    ensures
        v.pending_of(v.pending[i].0) == v.pending[i].1.to_set(),
{
    let acc = v.pending[i].0;
    assert forall|x: Seq<u8>| v.pending_of(acc).contains(x) <==> v.pending[i].1.to_set().contains(x) by {
        if v.pending_of(acc).contains(x) {
            let k = choose|k: int|
                0 <= k < v.pending.len() && #[trigger] v.pending[k].0 == acc && v.pending[k].1.contains(x);
            if k != i {
                assert(v.pending[k].0 != v.pending[i].0);
            }
        }
        if v.pending[i].1.contains(x) {
            assert(v.pending[i].0 == acc);
        }
    }
    assert(v.pending_of(acc) =~= v.pending[i].1.to_set());
}

/// An account without an entry has no pending ids.
proof fn lemma_pending_of_absent(v: PalletView, acc: AccountId)
    requires
        forall|k: int| 0 <= k < v.pending.len() ==> v.pending[k].0 != acc,
    ensures
        v.pending_of(acc) == Set::<Seq<u8>>::empty(),
{
    assert(v.pending_of(acc) =~= Set::<Seq<u8>>::empty());
}

/// Replacing the ids of entry `i` leaves every other account's ids as they were.
proof fn lemma_pending_update(v: PalletView, i: int, ids: Seq<Seq<u8>>)
    requires
        v.wf(),
        0 <= i < v.pending.len(),
    ensures
        ({
            let w = PalletView {
                proposals: v.proposals,
                pending: v.pending.update(i, (v.pending[i].0, ids)),
            };
            forall|acc: AccountId|
                acc != v.pending[i].0 ==> #[trigger] w.pending_of(acc) == v.pending_of(acc)
        }),
{
    let w = PalletView { proposals: v.proposals, pending: v.pending.update(i, (v.pending[i].0, ids)) };
    assert forall|acc: AccountId| acc != v.pending[i].0 implies #[trigger] w.pending_of(acc)
        == v.pending_of(acc) by {
        assert forall|x: Seq<u8>| w.pending_of(acc).contains(x) <==> v.pending_of(acc).contains(x) by {
            if w.pending_of(acc).contains(x) {
                let k = choose|k: int|
                    0 <= k < w.pending.len() && #[trigger] w.pending[k].0 == acc && w.pending[k].1.contains(x);
                assert(w.pending[k] == v.pending[k]);
            }
            if v.pending_of(acc).contains(x) {
                let k = choose|k: int|
                    0 <= k < v.pending.len() && #[trigger] v.pending[k].0 == acc && v.pending[k].1.contains(x);
                assert(w.pending[k] == v.pending[k]);
            }
        }
        assert(w.pending_of(acc) =~= v.pending_of(acc));
    }
}

/// Appending an entry leaves every other account's ids as they were.
proof fn lemma_pending_push(v: PalletView, e: (AccountId, Seq<Seq<u8>>))
    ensures
        ({
            let w = PalletView { proposals: v.proposals, pending: v.pending.push(e) };
            forall|acc: AccountId| acc != e.0 ==> #[trigger] w.pending_of(acc) == v.pending_of(acc)
        }),
{
    let w = PalletView { proposals: v.proposals, pending: v.pending.push(e) };
    assert forall|acc: AccountId| acc != e.0 implies #[trigger] w.pending_of(acc) == v.pending_of(acc) by {
        assert forall|x: Seq<u8>| w.pending_of(acc).contains(x) <==> v.pending_of(acc).contains(x) by {
            if w.pending_of(acc).contains(x) {
                let k = choose|k: int|
                    0 <= k < w.pending.len() && #[trigger] w.pending[k].0 == acc && w.pending[k].1.contains(x);
                assert(w.pending[k] == v.pending[k]);
            }
            if v.pending_of(acc).contains(x) {
                let k = choose|k: int|
                    0 <= k < v.pending.len() && #[trigger] v.pending[k].0 == acc && v.pending[k].1.contains(x);
                assert(w.pending[k] == v.pending[k]);
            }
        }
        assert(w.pending_of(acc) =~= v.pending_of(acc));
    }
}

/// The storage of the proposal pallet.
pub struct Pallet {
    proposals: Vec<(AccountId, ProposalId, DeipProposal)>,
    pending: Vec<(AccountId, Vec<ProposalId>)>,
}

pub open spec fn ids_view(ids: Seq<ProposalId>) -> Seq<Seq<u8>> {
    ids.map_values(|x: ProposalId| x@)
}

impl View for Pallet {
    type V = PalletView;

    closed spec fn view(&self) -> PalletView {
        PalletView {
            proposals: self.proposals@.map_values(
                |e: (AccountId, ProposalId, DeipProposal)| (e.0, e.1@, e.2@),
            ),
            pending: self.pending@.map_values(
                |e: (AccountId, Vec<ProposalId>)| (e.0, ids_view(e.1@)),
            ),
        }
    }
}

/// Whether two ids are equal.
fn same_id(a: &ProposalId, b: &ProposalId) -> (res: bool)
    ensures
        res == (a@ == b@),
{
    let mut i: usize = 0;
    while i < 32
        invariant
            0 <= i <= 32,
            forall|k: int| 0 <= k < i ==> a@[k] == b@[k],
        decreases 32 - i,
    {
        if a[i] != b[i] {
            return false;
        }
        i += 1;
    }
    assert(a@ =~= b@);
    true
}

impl Pallet {
    /// No proposals.
    pub fn new() -> (res: Pallet)
        ensures
            res@.proposals == Seq::<(AccountId, Seq<u8>, DeipProposalView)>::empty(),
            res@.pending == Seq::<(AccountId, Seq<Seq<u8>>)>::empty(),
            forall|acc: AccountId| #[trigger] res@.pending_of(acc) == Set::<Seq<u8>>::empty(),
            res@.wf(),
    {
        let res = Pallet { proposals: Vec::new(), pending: Vec::new() };
        assert(res@.proposals =~= Seq::<(AccountId, Seq<u8>, DeipProposalView)>::empty());
        assert(res@.pending =~= Seq::<(AccountId, Seq<Seq<u8>>)>::empty());
        assert forall|acc: AccountId| #[trigger] res@.pending_of(acc) == Set::<Seq<u8>>::empty() by {
            assert(res@.pending_of(acc) =~= Set::<Seq<u8>>::empty());
        }
        res
    }

    /// Whether a proposal of `author` with id `id` is stored.
    pub fn contains_proposal(&self, author: AccountId, id: &ProposalId) -> (res: bool)
        ensures
            res == self@.contains_key(author, id@),
    {
        let ghost v = self@;
        let mut i: usize = 0;
        while i < self.proposals.len()
            invariant
                0 <= i <= self.proposals.len(),
                v == self@,
                forall|k: int| 0 <= k < i ==> !(v.proposals[k].0 == author && v.proposals[k].1 == id@),
            decreases self.proposals.len() - i,
        {
            let e = &self.proposals[i];
            assert(v.proposals[i as int] == (e.0, e.1@, e.2@));
            if e.0 == author && same_id(&e.1, id) {
                assert(v.proposals[i as int].0 == author && v.proposals[i as int].1 == id@);
                return true;
            }
            i += 1;
        }
        false
    }

    /// The stored proposal of `author` with id `id`, if any.
    pub fn proposal(&self, author: AccountId, id: &ProposalId) -> (res: Option<&DeipProposal>)
        ensures
            res is Some <==> self@.contains_key(author, id@),
            res matches Some(p) ==> exists|i: int|
                0 <= i < self@.proposals.len() && #[trigger] self@.proposals[i] == (
                    author,
                    id@,
                    p@,
                ),
    {
        let ghost v = self@;
        let mut i: usize = 0;
        while i < self.proposals.len()
            invariant
                0 <= i <= self.proposals.len(),
                v == self@,
                forall|k: int| 0 <= k < i ==> !(v.proposals[k].0 == author && v.proposals[k].1 == id@),
            decreases self.proposals.len() - i,
        {
            let e = &self.proposals[i];
            assert(v.proposals[i as int] == (e.0, e.1@, e.2@));
            if e.0 == author && same_id(&e.1, id) {
                assert(v.proposals[i as int].0 == author && v.proposals[i as int].1 == id@);
                return Some(&e.2);
            }
            i += 1;
        }
        None
    }

    /// The ids of the proposals waiting for `acc`, each once.
    pub fn pending_proposals(&self, acc: AccountId) -> (res: PendingProposalsMap)
        requires
            self@.wf(),
        ensures
            ids_view(res@).to_set() == self@.pending_of(acc),
            ascending(ids_view(res@)),
            ids_view(res@).no_duplicates(),
    {
        let ghost v = self@;
        let i = self.pending_index(acc);
        let mut res = PendingProposalsMapDefault();
        if i < self.pending.len() {
            let ids = &self.pending[i].1;
            let mut j: usize = 0;
            while j < ids.len()
                invariant
                    0 <= j <= ids.len(),
                    res@ == ids@.take(j as int),
                decreases ids.len() - j,
            {
                res.push(ids[j]);
                j += 1;
                assert(res@ =~= ids@.take(j as int));
            }
            assert(res@ =~= ids@);
            proof {
                assert(v.pending[i as int] == (acc, ids_view(ids@)));
                lemma_pending_of_entry(v, i as int);
                lemma_ascending_no_duplicates(ids_view(res@));
            }
        } else {
            proof {
                lemma_pending_of_absent(v, acc);
                assert(ids_view(res@).to_set() =~= Set::<Seq<u8>>::empty());
            }
        }
        res
    }

    /// Position of the entry of `acc` among the pending lists, or their
    /// number when it has none.
    fn pending_index(&self, acc: AccountId) -> (res: usize)
        ensures
            res <= self@.pending.len(),
            res < self@.pending.len() ==> self@.pending[res as int].0 == acc,
            res == self@.pending.len() ==> forall|k: int|
                0 <= k < self@.pending.len() ==> self@.pending[k].0 != acc,
    {
        let mut i: usize = 0;
        while i < self.pending.len() && self.pending[i].0 != acc
            invariant
                0 <= i <= self.pending.len(),
                forall|k: int| 0 <= k < i ==> self@.pending[k].0 != acc,
            decreases self.pending.len() - i,
        {
            i += 1;
        }
        i
    }

    /// Records that the proposal `id` waits for `member`.
    fn add_pending(&mut self, member: AccountId, id: &ProposalId)
        requires
            old(self)@.wf(),
        ensures
            final(self)@.wf(),
            final(self)@.proposals == old(self)@.proposals,
            forall|acc: AccountId|
                #[trigger] final(self)@.pending_of(acc) == if acc == member {
                    old(self)@.pending_of(acc).insert(id@)
                } else {
                    old(self)@.pending_of(acc)
                },
    {
        let ghost v = self@;
        let i = self.pending_index(member);
        if i < self.pending.len() {
            proof {
                lemma_pending_of_entry(v, i as int);
            }
            let ids_ref = &self.pending[i].1;
            let ghost old_ids = v.pending[i as int].1;
            assert(old_ids == ids_view(ids_ref@));
            let mut p: usize = 0;
            while p < ids_ref.len() && hash_below(&ids_ref[p], id)
                invariant
                    0 <= p <= ids_ref.len(),
                    old_ids == ids_view(ids_ref@),
                    forall|q: int| 0 <= q < p ==> be_value(#[trigger] old_ids[q]) < be_value(id@),
                decreases ids_ref.len() - p,
            {
                p += 1;
            }
            let found = p < ids_ref.len() && same_id(&ids_ref[p], id);
            if found {
                proof {
                    assert(old_ids[p as int] == id@);
                    assert(old_ids.contains(id@));
                    assert forall|acc: AccountId| #[trigger] v.pending_of(acc) == if acc == member {
                        v.pending_of(acc).insert(id@)
                    } else {
                        v.pending_of(acc)
                    } by {
                        if acc == member {
                            assert(v.pending_of(acc) =~= v.pending_of(acc).insert(id@));
                        }
                    }
                }
            } else {
                proof {
                    assert(ascending(old_ids));
                    if p < old_ids.len() {
                        assert(old_ids[p as int] == ids_ref@[p as int]@);
                        assert(be_value(old_ids[p as int]) >= be_value(id@));
                        assert(old_ids[p as int] != id@);
                        if be_value(old_ids[p as int]) == be_value(id@) {
                            lemma_be_value_injective(old_ids[p as int], id@);
                        }
                    }
                    assert forall|q: int| p <= q < old_ids.len() implies be_value(id@) < be_value(
                        #[trigger] old_ids[q],
                    ) by {
                        if q > p {
                            assert(be_value(old_ids[p as int]) < be_value(old_ids[q]));
                        }
                    }
                    assert(!old_ids.contains(id@)) by {
                        if old_ids.contains(id@) {
                            let t = choose|t: int| 0 <= t < old_ids.len() && old_ids[t] == id@;
                            if t < p {
                                assert(be_value(old_ids[t]) < be_value(id@));
                            } else {
                                assert(be_value(id@) < be_value(old_ids[t]));
                            }
                        }
                    }
                }
                let entry = element_mut(&mut self.pending, i);
                entry.1.insert(p, *id);
                proof {
                    let w = self@;
                    let new_ids = old_ids.insert(p as int, id@);
                    assert(w.pending =~= v.pending.update(i as int, (member, new_ids))) by {
                        assert(ids_view(entry.1@) =~= new_ids);
                    }
                    assert(w.proposals =~= v.proposals);
                    lemma_pending_update(v, i as int, new_ids);
                    assert(w.wf()) by {
                        assert forall|a: int| 0 <= a < w.pending.len() implies ascending(
                            #[trigger] w.pending[a].1,
                        ) by {
                            if a == i {
                                assert forall|x: int, y: int|
                                    0 <= x < y < new_ids.len() implies be_value(new_ids[x]) < be_value(
                                    new_ids[y],
                                ) by {
                                    let ox = if x < p { x } else { x - 1 };
                                    let oy = if y < p { y } else { y - 1 };
                                    if x != p as int {
                                        assert(new_ids[x] == old_ids[ox]);
                                    }
                                    if y != p as int {
                                        assert(new_ids[y] == old_ids[oy]);
                                    }
                                }
                            } else {
                                assert(w.pending[a] == v.pending[a]);
                            }
                        }
                        assert forall|a: int, b: int|
                            0 <= a < w.pending.len() && 0 <= b < w.pending.len() && a != b implies w.pending[a].0
                            != w.pending[b].0 by {
                            assert(w.pending[a].0 == v.pending[a].0);
                            assert(w.pending[b].0 == v.pending[b].0);
                        }
                    }
                    lemma_pending_of_entry(w, i as int);
                    assert(new_ids.to_set() =~= old_ids.to_set().insert(id@)) by {
                        assert forall|x: Seq<u8>| new_ids.contains(x) <==> (old_ids.contains(x) || x == id@) by {
                            if new_ids.contains(x) {
                                let t = choose|t: int| 0 <= t < new_ids.len() && new_ids[t] == x;
                                if t < p {
                                    assert(old_ids[t] == x);
                                } else if t > p {
                                    assert(old_ids[t - 1] == x);
                                }
                            }
                            if old_ids.contains(x) {
                                let t = choose|t: int| 0 <= t < old_ids.len() && old_ids[t] == x;
                                if t < p {
                                    assert(new_ids[t] == x);
                                } else {
                                    assert(new_ids[t + 1] == x);
                                }
                            }
                            if x == id@ {
                                assert(new_ids[p as int] == x);
                            }
                        }
                    }
                }
            }
        } else {
            self.pending.push((member, vec![*id]));
            proof {
                let w = self@;
                let new_ids = seq![id@];
                assert(w.pending =~= v.pending.push((member, new_ids))) by {
                    assert(w.pending[v.pending.len() as int].1 =~= new_ids);
                }
                assert(w.proposals =~= v.proposals);
                lemma_pending_push(v, (member, new_ids));
                lemma_pending_of_absent(v, member);
                assert(w.wf()) by {
                    assert forall|a: int| 0 <= a < w.pending.len() implies ascending(
                        #[trigger] w.pending[a].1,
                    ) by {
                        if a < v.pending.len() {
                            assert(w.pending[a] == v.pending[a]);
                        }
                    }
                    assert forall|a: int, b: int|
                        0 <= a < w.pending.len() && 0 <= b < w.pending.len() && a != b implies w.pending[a].0
                        != w.pending[b].0 by {
                        if a < v.pending.len() {
                            assert(w.pending[a] == v.pending[a]);
                        }
                        if b < v.pending.len() {
                            assert(w.pending[b] == v.pending[b]);
                        }
                    }
                }
                lemma_pending_of_entry(w, v.pending.len() as int);
                assert(new_ids.to_set() =~= Set::<Seq<u8>>::empty().insert(id@)) by {
                    assert(new_ids[0] == id@);
                }
            }
        }
    }

    /// Stores the proposal `proposal` of `author` under `id` and records that
    /// it waits for each member of its batch. A proposal already stored under
    /// the same author and id is refused with "exists", and nothing changes.
    pub fn store_proposal(&mut self, author: AccountId, id: ProposalId, proposal: DeipProposal) -> (res:
        Result<PostDispatchInfo, DispatchError>)
        requires
            old(self)@.wf(),
        ensures
            final(self)@.wf(),
            old(self)@.contains_key(author, id@) ==> (res matches Err(DispatchError::Other(msg))
                && msg@ == "exists"@) && final(self)@ == old(self)@,
            !old(self)@.contains_key(author, id@) ==> res == Ok::<PostDispatchInfo, DispatchError>(
                PostDispatchInfo { actual_weight: Some(0), pays_fee: Pays::Yes },
            ) && final(self)@.proposals == old(self)@.proposals.push((author, id@, proposal@))
                && forall|acc: AccountId|
                #[trigger] final(self)@.pending_of(acc) == if has_member(proposal@.batch, acc) {
                    old(self)@.pending_of(acc).insert(id@)
                } else {
                    old(self)@.pending_of(acc)
                },
    {
        if self.contains_proposal(author, &id) {
            return Err(DispatchError::Other("exists"));
        }
        let ghost v = self@;
        let ghost items = proposal@.batch;
        let mut i: usize = 0;
        while i < proposal.batch.len()
            invariant
                0 <= i <= proposal.batch.len(),
                items == proposal@.batch,
                items.len() == proposal.batch.len(),
                self@.wf(),
                self@.proposals == v.proposals,
                forall|acc: AccountId|
                    #[trigger] self@.pending_of(acc) == if has_member(items.take(i as int), acc) {
                        v.pending_of(acc).insert(id@)
                    } else {
                        v.pending_of(acc)
                    },
            decreases proposal.batch.len() - i,
        {
            let member = proposal.batch[i].account;
            let ghost before = self@;
            self.add_pending(member, &id);
            proof {
                assert(items[i as int].0 == member) by {
                    assert(items[i as int] == item_view(proposal.batch@[i as int]));
                }
                assert forall|acc: AccountId| #[trigger] self@.pending_of(acc) == if has_member(
                    items.take(i + 1),
                    acc,
                ) {
                    v.pending_of(acc).insert(id@)
                } else {
                    v.pending_of(acc)
                } by {
                    let pre = items.take(i as int);
                    let post = items.take(i + 1);
                    assert(before.pending_of(acc) == if has_member(pre, acc) {
                        v.pending_of(acc).insert(id@)
                    } else {
                        v.pending_of(acc)
                    });
                    if has_member(pre, acc) {
                        let k = choose|k: int| 0 <= k < pre.len() && #[trigger] pre[k].0 == acc;
                        assert(post[k].0 == acc);
                    }
                    if acc == member {
                        assert(post[i as int].0 == acc);
                        assert(v.pending_of(acc).insert(id@).insert(id@) =~= v.pending_of(acc).insert(id@));
                    } else if has_member(post, acc) {
                        let k = choose|k: int| 0 <= k < post.len() && #[trigger] post[k].0 == acc;
                        assert(pre[k].0 == acc);
                    }
                }
            }
            i += 1;
        }
        assert(items.take(items.len() as int) =~= items);
        let ghost w = self@;
        self.proposals.push((author, id, proposal));
        proof {
            let z = self@;
            assert(z.proposals =~= w.proposals.push((author, id@, proposal@)));
            assert(z.pending =~= w.pending);
            assert(z.pending_of(author) =~= w.pending_of(author));
            assert forall|acc: AccountId| #[trigger] z.pending_of(acc) == w.pending_of(acc) by {
                assert(z.pending_of(acc) =~= w.pending_of(acc));
            }
            assert forall|a: int, b: int|
                0 <= a < z.proposals.len() && 0 <= b < z.proposals.len() && a != b implies !(
                z.proposals[a].0 == z.proposals[b].0 && z.proposals[a].1 == z.proposals[b].1) by {
                if a < w.proposals.len() && b < w.proposals.len() {
                    assert(z.proposals[a] == w.proposals[a]);
                    assert(z.proposals[b] == w.proposals[b]);
                } else if a < w.proposals.len() {
                    assert(z.proposals[a] == v.proposals[a]);
                } else if b < w.proposals.len() {
                    assert(z.proposals[b] == v.proposals[b]);
                }
            }
        }
        Ok(PostDispatchInfo { actual_weight: Some(0), pays_fee: Pays::Yes })
    }

    /// Proposes `batch` on behalf of the signer of `origin`: the proposal is
    /// made with every decision pending, identified by `proposal_id_of`, and
    /// stored as `store_proposal` does. An unsigned or root origin is refused.
    pub fn propose(&mut self, origin: Origin, batch: Vec<BatchItemOf>) -> (res: Result<
        PostDispatchInfo,
        DispatchError,
    >)
        requires
            old(self)@.wf(),
            origin is Signed ==> batch.len() <= u32::MAX,
            origin is Signed ==> batch_encoding(batch_view(batch@)).len() <= u32::MAX,
        ensures
            final(self)@.wf(),
            match origin {
                Origin::Signed(author) => {
                    let id = proposal_id_of(author, batch_view(batch@));
                    &&& old(self)@.contains_key(author, id) ==> (res matches Err(
                        DispatchError::Other(msg),
                    ) && msg@ == "exists"@) && final(self)@ == old(self)@
                    &&& !old(self)@.contains_key(author, id) ==> res == Ok::<
                        PostDispatchInfo,
                        DispatchError,
                    >(PostDispatchInfo { actual_weight: Some(0), pays_fee: Pays::Yes }) && final(self)@.proposals
                        == old(self)@.proposals.push(
                        (author, id, fresh_proposal(batch_view(batch@), author)),
                    ) && forall|acc: AccountId|
                        #[trigger] final(self)@.pending_of(acc) == if has_member(
                            batch_view(batch@),
                            acc,
                        ) {
                            old(self)@.pending_of(acc).insert(id)
                        } else {
                            old(self)@.pending_of(acc)
                        }
                },
                _ => (res matches Err(DispatchError::BadOrigin)) && final(self)@ == old(self)@,
            },
    {
        let author = match ensure_signed(origin) {
            Ok(who) => who,
            Err(e) => {
                return Err(e);
            },
        };
        let proposal = DeipProposal::new(batch, author);
        let proposal_id = proposal.id();
        self.store_proposal(author, proposal_id, proposal)
    }

    /// Approval by the signer of `origin`. Only the refusal of an unsigned or
    /// root origin is defined; a signed origin is outside what this call
    /// accepts.
    pub fn approve(&mut self, origin: Origin) -> (res: Result<PostDispatchInfo, DispatchError>)
        requires
            !(origin is Signed),
        ensures
            res matches Err(DispatchError::BadOrigin),
            final(self)@ == old(self)@,
    {
        match ensure_signed(origin) {
            Ok(_) => Err(DispatchError::BadOrigin),
            Err(e) => Err(e),
        }
    }

    /// Inspection call: accepts any origin, changes nothing, and reports no
    /// weight with the fee paid.
    pub fn explore(&self, origin: Origin) -> (res: Result<PostDispatchInfo, DispatchError>)
        ensures
            res == Ok::<PostDispatchInfo, DispatchError>(
                PostDispatchInfo { actual_weight: None, pays_fee: Pays::Yes },
            ),
    {
        Ok(PostDispatchInfo { actual_weight: None, pays_fee: Pays::Yes })
    }
}

} // verus!
