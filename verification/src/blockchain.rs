//! Blocks, consensus messages, and the per-validator block tree: a
//! content-addressed DAG rooted at an empty genesis block, with a per-epoch
//! block index, vote tallies, and the notarized and finalized sets.

use vstd::prelude::*;
use crate::utils::{
    Crypto,
    Signature,
    sha256_of,
    spec_le_bytes,
    hash_eq,
    bytes_to_vec,
    push_bytes,
};

verus! {

/// Upper bound (exclusive) on the byte length of a block's payload.
pub const MAXLENGTH_TXS: usize = 10000;

/// Upper bound (inclusive) on the byte length of a single transaction.
pub const MAXLENGTH_SINGLE_TX: usize = 2000;

/// Whether the byte sequence `h` occurs among the stored hashes.
pub open spec fn hash_in(s: Seq<crate::utils::Hash>, h: Seq<u8>) -> bool {
    exists|i: int| 0 <= i < s.len() && s[i]@ == h
}

/// No two stored hashes are equal.
pub open spec fn hashes_nodup(s: Seq<crate::utils::Hash>) -> bool {
    forall|i: int, j: int| 0 <= i < j < s.len() ==> s[i]@ != s[j]@
}

/// No validator id occurs twice.
pub open spec fn ids_nodup(s: Seq<usize>) -> bool {
    forall|i: int, j: int| 0 <= i < j < s.len() ==> s[i] != s[j]
}

/// Scans a vector of hashes for `h`.
pub fn hash_vec_contains(v: &Vec<crate::utils::Hash>, h: &crate::utils::Hash) -> (r: bool)
    ensures
        r == hash_in(v@, h@),
{
    let mut i: usize = 0;
    while i < v.len()
        invariant
            i <= v@.len(),
            forall|k: int| 0 <= k < i ==> v@[k]@ != h@,
        decreases v@.len() - i,
    {
        if hash_eq(&v[i], h) {
            return true;
        }
        i += 1;
    }
    false
}

/// Scans a vector of validator ids for `x`.
pub fn ids_vec_contains(v: &Vec<usize>, x: usize) -> (r: bool)
    ensures
        r == v@.contains(x),
{
    let mut i: usize = 0;
    while i < v.len()
        invariant
            i <= v@.len(),
            forall|k: int| 0 <= k < i ==> v@[k] != x,
        decreases v@.len() - i,
    {
        if v[i] == x {
            return true;
        }
        i += 1;
    }
    false
}

/// The view of an optional parent hash as an optional byte sequence.
pub open spec fn opt_view(p: Option<crate::utils::Hash>) -> Option<Seq<u8>> {
    match p {
        Some(h) => Some(h@),
        None => None,
    }
}

/// The 32-byte zero sentinel that stands for an absent parent in a hash
/// preimage.
pub open spec fn zero_hash() -> Seq<u8> {
    Seq::new(32, |i: int| 0u8)
}

/// The hash preimage of a block: the parent hash (or the zero sentinel), the
/// 8-byte little-endian epoch, then the raw payload bytes, concatenated.
pub open spec fn spec_preimage(parent: Option<Seq<u8>>, e: usize, txs: Seq<u8>) -> Seq<u8> {
    (match parent {
        Some(p) => p,
        None => zero_hash(),
    }) + spec_le_bytes(e) + txs
}

/// The content identity of a block: SHA-256 over its hash preimage. Two
/// blocks with the same parent, epoch and payload have the same identity.
pub open spec fn spec_block_hash(parent: Option<Seq<u8>>, e: usize, txs: Seq<u8>) -> Seq<u8> {
    sha256_of(spec_preimage(parent, e, txs))
}

/// The content identity of the canonical empty genesis block.
pub open spec fn spec_genesis_hash() -> Seq<u8> {
    spec_block_hash(None, 0, Seq::empty())
}

/// Hashing is deterministic: identical parent, epoch and payload always give
/// the identical content identity, so all validators agree on block identity.
pub proof fn lemma_block_hash_deterministic(
    p1: Option<Seq<u8>>,
    e1: usize,
    t1: Seq<u8>,
    p2: Option<Seq<u8>>,
    e2: usize,
    t2: Seq<u8>,
)
    requires
        p1 == p2,
        e1 == e2,
        t1 == t2,
    ensures
        spec_block_hash(p1, e1, t1) == spec_block_hash(p2, e2, t2),
{
}

/// A block of the chain, identified by the hash of its content (parent,
/// epoch, payload). The name, children and height are derived or auxiliary
/// and not part of the identity.
pub struct Block {
    pub parent_hash: Option<crate::utils::Hash>,
    pub e: usize,
    pub txs: Vec<u8>,
    pub name: Vec<u8>,
    pub children: Vec<crate::utils::Hash>,
    pub height: usize,
    pub hash: crate::utils::Hash,
}

impl Block {
    /// The stored hash is the hash of the block's content.
    pub open spec fn hash_ok(self) -> bool {
        self.hash@ == spec_block_hash(opt_view(self.parent_hash), self.e, self.txs@)
    }

    /// What block validation decides: the payload is under the cap and the
    /// epoch is positive.
    pub open spec fn spec_valid(self) -> bool {
        self.txs@.len() < MAXLENGTH_TXS && self.e > 0
    }

    /// Builds a block and computes its content identity over (parent, epoch,
    /// payload) with the fixed preimage encoding.
    pub fn new(
        parent_hash: Option<crate::utils::Hash>,
        e: usize,
        txs: Vec<u8>,
        name: Vec<u8>,
        height: usize,
    ) -> (r: Block)
        ensures
            r.parent_hash == parent_hash,
            r.e == e,
            r.txs@ == txs@,
            r.name@ == name@,
            r.children@.len() == 0,
            r.height == height,
            r.hash_ok(),
    {
        let mut combined: Vec<u8> = Vec::new();
        match &parent_hash {
            Some(p) => {
                push_bytes(&mut combined, p.as_slice());
            },
            None => {
                let mut i: usize = 0;
                while i < 32
                    invariant
                        i <= 32,
                        combined@.len() == i,
                        forall|k: int| 0 <= k < i ==> combined@[k] == 0u8,
                    decreases 32 - i,
                {
                    combined.push(0u8);
                    i += 1;
                }
                proof {
                    assert(combined@ =~= zero_hash());
                }
            },
        }
        let e_bytes = Crypto::var_to_bytes(e);
        push_bytes(&mut combined, e_bytes.as_slice());
        push_bytes(&mut combined, txs.as_slice());
        proof {
            assert(combined@ =~= spec_preimage(opt_view(parent_hash), e, txs@));
        }
        let hash = Crypto::hash(combined.as_slice());
        Block { parent_hash, e, txs, name, children: Vec::new(), height, hash }
    }

    /// Returns an owned copy with the same content.
    pub fn dup(&self) -> (r: Block)
        ensures
            r.parent_hash == self.parent_hash,
            r.e == self.e,
            r.txs@ == self.txs@,
            r.name@ == self.name@,
            r.children@ == self.children@,
            r.height == self.height,
            r.hash == self.hash,
    {
        let mut children: Vec<crate::utils::Hash> = Vec::new();
        let mut i: usize = 0;
        while i < self.children.len()
            invariant
                i <= self.children@.len(),
                children@ == self.children@.subrange(0, i as int),
            decreases self.children@.len() - i,
        {
            children.push(self.children[i]);
            proof {
                assert(children@ =~= self.children@.subrange(0, i + 1 as int));
            }
            i += 1;
        }
        proof {
            assert(children@ =~= self.children@);
        }
        Block {
            parent_hash: self.parent_hash,
            e: self.e,
            txs: bytes_to_vec(self.txs.as_slice()),
            name: bytes_to_vec(self.name.as_slice()),
            children,
            height: self.height,
            hash: self.hash,
        }
    }

    /// Validates a block: the payload length must stay under MAXLENGTH_TXS
    /// and the epoch must be positive. The signature is carried by the
    /// enclosing message, not by the block, and is checked elsewhere.
    pub fn validate_block(&self) -> (r: bool)
        ensures
            r == self.spec_valid(),
    {
        self.txs.len() < MAXLENGTH_TXS && self.e > 0
    }

    /// Converts the block into a proposal message; the sender and the signer
    /// are set to the same value.
    pub fn to_block_message(&self, sender: usize, signature: Signature) -> (r: BlockMessage)
        ensures
            r@ == (MsgModel {
                creator: sender,
                parent_hash: opt_view(self.parent_hash),
                e: self.e,
                txs: self.txs@,
                name: self.name@,
                signer: sender,
                signature: (signature.0, signature.1@),
            }),
    {
        BlockMessage::new(
            sender,
            self.parent_hash,
            self.e,
            bytes_to_vec(self.txs.as_slice()),
            bytes_to_vec(self.name.as_slice()),
            sender,
            signature,
        )
    }

    /// Converts the block into a vote message; the sender and the signer are
    /// set to the same value.
    pub fn to_vote_message(&self, sender: usize, signature: Signature) -> (r: VoteMessage)
        ensures
            r@ == (MsgModel {
                creator: sender,
                parent_hash: opt_view(self.parent_hash),
                e: self.e,
                txs: self.txs@,
                name: self.name@,
                signer: sender,
                signature: (signature.0, signature.1@),
            }),
    {
        VoteMessage::new(
            sender,
            self.parent_hash,
            self.e,
            bytes_to_vec(self.txs.as_slice()),
            bytes_to_vec(self.name.as_slice()),
            sender,
            signature,
        )
    }
}

/// Domain-separation tag included in every signed payload, so that a proposal
/// signature cannot be replayed as a vote.
pub enum MessageType {
    BlockProposal,
    Vote,
    Empty,
}

impl MessageType {
    /// The wire tag of the message type in a signed payload.
    pub open spec fn spec_tag(self) -> u32 {
        match self {
            MessageType::BlockProposal => 0,
            MessageType::Vote => 1,
            MessageType::Empty => 2,
        }
    }

    /// Returns the wire tag of the message type.
    pub fn tag(&self) -> (r: u32)
        ensures
            r == self.spec_tag(),
    {
        match self {
            MessageType::BlockProposal => 0,
            MessageType::Vote => 1,
            MessageType::Empty => 2,
        }
    }
}

/// The bytes signed for a message with wire tag `tag` about block hash `h`:
/// the 4 tag bytes little-endian, then the 32 hash bytes.
pub open spec fn spec_signed_payload(tag: u32, h: Seq<u8>) -> Seq<u8> {
    seq![
        (tag % 256) as u8,
        (tag / 256 % 256) as u8,
        (tag / 65536 % 256) as u8,
        (tag / 16777216 % 256) as u8,
    ] + h
}

/// Relies on bincode::serialize (fixed-width little-endian integer encoding,
/// no length limit): a pair of a u32 and a 32-byte array is encoded as the 4
/// integer bytes little-endian followed by the 32 array bytes, and encoding
/// such a pair into a vector cannot fail.
#[verifier::external_body]
fn bincode_tag_hash(tag: u32, h: &crate::utils::Hash) -> (r: Vec<u8>)
    ensures
        r@ == spec_signed_payload(tag, h@),
{
    bincode::serialize(&(tag, *h)).unwrap()
}

/// The stable encoding of the tagged tuple (message type, block hash) that
/// signatures are computed over.
pub fn signed_payload(t: &MessageType, h: &crate::utils::Hash) -> (r: Vec<u8>)
    ensures
        r@ == spec_signed_payload(t.spec_tag(), h@),
{
    bincode_tag_hash(t.tag(), h)
}

/// The mathematical content of a proposal or vote message.
pub struct MsgModel {
    pub creator: usize,
    pub parent_hash: Option<Seq<u8>>,
    pub e: usize,
    pub txs: Seq<u8>,
    pub name: Seq<u8>,
    pub signer: usize,
    pub signature: (u64, Seq<u8>),
}

/// A message carrying a proposed block and the signature of the block's
/// creator (the signer may differ from the sender when the message is
/// relayed).
pub struct BlockMessage {
    pub creator: usize,
    pub parent_hash: Option<crate::utils::Hash>,
    pub e: usize,
    pub txs: Vec<u8>,
    pub name: Vec<u8>,
    pub signer: usize,
    pub signature: Signature,
}

impl View for BlockMessage {
    type V = MsgModel;

    open spec fn view(&self) -> MsgModel {
        MsgModel {
            creator: self.creator,
            parent_hash: opt_view(self.parent_hash),
            e: self.e,
            txs: self.txs@,
            name: self.name@,
            signer: self.signer,
            signature: (self.signature.0, self.signature.1@),
        }
    }
}

impl BlockMessage {
    /// Builds a proposal message from its parts.
    pub fn new(
        creator: usize,
        parent_hash: Option<crate::utils::Hash>,
        e: usize,
        txs: Vec<u8>,
        name: Vec<u8>,
        signer: usize,
        signature: Signature,
    ) -> (r: BlockMessage)
        ensures
            r@ == (MsgModel {
                creator: creator,
                parent_hash: opt_view(parent_hash),
                e: e,
                txs: txs@,
                name: name@,
                signer: signer,
                signature: (signature.0, signature.1@),
            }),
    {
        BlockMessage { creator, parent_hash, e, txs, name, signer, signature }
    }

    /// Returns an owned copy with the same content.
    pub fn dup(&self) -> (r: BlockMessage)
        ensures
            r@ == self@,
    {
        BlockMessage {
            creator: self.creator,
            parent_hash: self.parent_hash,
            e: self.e,
            txs: bytes_to_vec(self.txs.as_slice()),
            name: bytes_to_vec(self.name.as_slice()),
            signer: self.signer,
            signature: (self.signature.0, bytes_to_vec(self.signature.1.as_slice())),
        }
    }
}

/// A message carrying a vote: a block identity and a signature on it by a
/// validator that supports the block.
pub struct VoteMessage {
    pub creator: usize,
    pub parent_hash: Option<crate::utils::Hash>,
    pub e: usize,
    pub txs: Vec<u8>,
    pub name: Vec<u8>,
    pub signer: usize,
    pub signature: Signature,
}

impl View for VoteMessage {
    type V = MsgModel;

    open spec fn view(&self) -> MsgModel {
        MsgModel {
            creator: self.creator,
            parent_hash: opt_view(self.parent_hash),
            e: self.e,
            txs: self.txs@,
            name: self.name@,
            signer: self.signer,
            signature: (self.signature.0, self.signature.1@),
        }
    }
}

impl VoteMessage {
    /// Builds a vote message from its parts.
    pub fn new(
        creator: usize,
        parent_hash: Option<crate::utils::Hash>,
        e: usize,
        txs: Vec<u8>,
        name: Vec<u8>,
        signer: usize,
        signature: Signature,
    ) -> (r: VoteMessage)
        ensures
            r@ == (MsgModel {
                creator: creator,
                parent_hash: opt_view(parent_hash),
                e: e,
                txs: txs@,
                name: name@,
                signer: signer,
                signature: (signature.0, signature.1@),
            }),
    {
        VoteMessage { creator, parent_hash, e, txs, name, signer, signature }
    }

    /// Returns an owned copy with the same content.
    pub fn dup(&self) -> (r: VoteMessage)
        ensures
            r@ == self@,
    {
        VoteMessage {
            creator: self.creator,
            parent_hash: self.parent_hash,
            e: self.e,
            txs: bytes_to_vec(self.txs.as_slice()),
            name: bytes_to_vec(self.name.as_slice()),
            signer: self.signer,
            signature: (self.signature.0, bytes_to_vec(self.signature.1.as_slice())),
        }
    }
}

/// The mathematical content of a message of either kind.
pub enum MessageModel {
    BlockProposal(MsgModel),
    Vote(MsgModel),
}

/// A consensus message: either a block proposal or a vote. Every message is a
/// tagged sum, and receivers dispatch by an exhaustive match.
pub enum Message {
    BlockProposal(BlockMessage),
    Vote(VoteMessage),
}

impl View for Message {
    type V = MessageModel;

    open spec fn view(&self) -> MessageModel {
        match self {
            Message::BlockProposal(m) => MessageModel::BlockProposal(m@),
            Message::Vote(m) => MessageModel::Vote(m@),
        }
    }
}

impl Message {
    /// The id of the validator that created the message.
    pub fn creator(&self) -> (r: usize)
        ensures
            r == (match self@ {
                MessageModel::BlockProposal(m) => m.creator,
                MessageModel::Vote(m) => m.creator,
            }),
    {
        match self {
            Message::BlockProposal(m) => m.creator,
            Message::Vote(m) => m.creator,
        }
    }

    /// Returns an owned copy with the same content.
    pub fn dup(&self) -> (r: Message)
        ensures
            r@ == self@,
    {
        match self {
            Message::BlockProposal(m) => Message::BlockProposal(m.dup()),
            Message::Vote(m) => Message::Vote(m.dup()),
        }
    }
}

/// The position in `blocks` of a block with content identity `h`.
pub open spec fn blocks_idx(blocks: Seq<Block>, h: Seq<u8>) -> int {
    choose|i: int| 0 <= i < blocks.len() && blocks[i].hash@ == h
}

/// The position in `votes` of the tally for hash `h`.
pub open spec fn votes_idx(votes: Seq<VoteRecord>, h: Seq<u8>) -> int {
    choose|i: int| 0 <= i < votes.len() && votes[i].hash@ == h
}

/// The stored block in `blocks` with content identity `h`.
pub open spec fn block_in(blocks: Seq<Block>, h: Seq<u8>) -> Block {
    blocks[blocks_idx(blocks, h)]
}

/// The voters recorded in `votes` for hash `h`; empty when no tally exists.
pub open spec fn voters_in(votes: Seq<VoteRecord>, h: Seq<u8>) -> Seq<usize> {
    if exists|i: int| 0 <= i < votes.len() && votes[i].hash@ == h {
        votes[votes_idx(votes, h)].voters@
    } else {
        Seq::empty()
    }
}

/// The views of a sequence of stored hashes.
pub open spec fn view_seq(v: Seq<crate::utils::Hash>) -> Seq<Seq<u8>> {
    v.map(|i: int, h: crate::utils::Hash| h@)
}

/// Whether some hash of a row is marked.
pub open spec fn row_marked(row: Seq<crate::utils::Hash>, marked: Seq<crate::utils::Hash>) -> bool {
    exists|k: int| 0 <= k < row.len() && hash_in(marked, row[k]@)
}

/// The highest epoch whose row holds a marked hash, or -1 when none does.
pub open spec fn top_marked_epoch(
    rows: Seq<Vec<crate::utils::Hash>>,
    marked: Seq<crate::utils::Hash>,
) -> int
    decreases rows.len(),
{
    if rows.len() == 0 {
        -1
    } else if row_marked(rows.last()@, marked) {
        rows.len() - 1
    } else {
        top_marked_epoch(rows.drop_last(), marked)
    }
}

/// The position of the first marked hash in a row (the row's length when
/// none is marked).
pub open spec fn first_marked(row: Seq<crate::utils::Hash>, marked: Seq<crate::utils::Hash>) -> int
    decreases row.len(),
{
    if row.len() == 0 {
        0
    } else if hash_in(marked, row.first()@) {
        0
    } else {
        1 + first_marked(row.drop_first(), marked)
    }
}

/// When the rows above `e` hold nothing marked and row `e` does, `e` is the
/// top marked epoch.
pub proof fn lemma_top_marked_epoch(
    rows: Seq<Vec<crate::utils::Hash>>,
    marked: Seq<crate::utils::Hash>,
    e: int,
)
    requires
        0 <= e < rows.len(),
        row_marked(rows[e]@, marked),
        forall|j: int| e < j < rows.len() ==> !row_marked((#[trigger] rows[j])@, marked),
    ensures
        top_marked_epoch(rows, marked) == e,
    decreases rows.len(),
{
    if e == rows.len() - 1 {
    } else {
        assert(!row_marked(rows.last()@, marked));
        assert(rows.drop_last()[e] == rows[e]);
        assert(forall|j: int|
            e < j < rows.drop_last().len() ==> !row_marked((#[trigger] rows.drop_last()[j])@, marked));
        lemma_top_marked_epoch(rows.drop_last(), marked, e);
    }
}

/// When the entries before `k` are unmarked and the entry at `k` is marked,
/// `k` is the first marked position.
pub proof fn lemma_first_marked(
    row: Seq<crate::utils::Hash>,
    marked: Seq<crate::utils::Hash>,
    k: int,
)
    requires
        0 <= k < row.len(),
        hash_in(marked, row[k]@),
        forall|k2: int| 0 <= k2 < k ==> !hash_in(marked, (#[trigger] row[k2])@),
    ensures
        first_marked(row, marked) == k,
    decreases row.len(),
{
    if k == 0 {
    } else {
        assert(!hash_in(marked, row.first()@));
        assert(row.drop_first()[k - 1] == row[k]);
        assert(forall|k2: int|
            0 <= k2 < k - 1 ==> !hash_in(marked, (#[trigger] row.drop_first()[k2])@));
        lemma_first_marked(row.drop_first(), marked, k - 1);
    }
}

/// One block hash together with the validator ids recorded as voting for it,
/// kept without duplicates.
pub struct VoteRecord {
    pub hash: crate::utils::Hash,
    pub voters: Vec<usize>,
}

/// The block tree a validator keeps: blocks addressed by content hash, vote
/// tallies, the notarized and finalized sets, and a per-epoch index of block
/// hashes. Blocks are referenced by hash, never by direct reference.
pub struct Blockchain {
    /// The hash of the empty genesis block.
    pub genesis: crate::utils::Hash,
    /// All known blocks; the hash of each is unique in this vector.
    pub blocks: Vec<Block>,
    /// For some block hashes, the set of validator ids that voted for them.
    pub votes: Vec<VoteRecord>,
    /// Hashes of notarized blocks; grows monotonically.
    pub notarized: Vec<crate::utils::Hash>,
    /// Hashes of finalized blocks; grows monotonically.
    pub finalized: Vec<crate::utils::Hash>,
    /// For each epoch, the hashes of the known blocks of that epoch.
    pub block_by_epoch: Vec<Vec<crate::utils::Hash>>,
    /// The id of the validator that runs this tree.
    pub id: usize,
}

impl Blockchain {
    /// Whether a block with content identity `h` is stored.
    pub open spec fn spec_contains(self, h: Seq<u8>) -> bool {
        exists|i: int| 0 <= i < self.blocks@.len() && self.blocks@[i].hash@ == h
    }

    /// The position of the block with content identity `h`.
    pub open spec fn idx_of(self, h: Seq<u8>) -> int {
        blocks_idx(self.blocks@, h)
    }

    /// The stored block with content identity `h`.
    pub open spec fn block_of(self, h: Seq<u8>) -> Block
        recommends
            self.spec_contains(h),
    {
        block_in(self.blocks@, h)
    }

    /// Whether a vote tally exists for hash `h`.
    pub open spec fn has_vote_record(self, h: Seq<u8>) -> bool {
        exists|i: int| 0 <= i < self.votes@.len() && self.votes@[i].hash@ == h
    }

    /// The position of the vote tally for hash `h`.
    pub open spec fn vote_idx_of(self, h: Seq<u8>) -> int {
        votes_idx(self.votes@, h)
    }

    /// The validator ids recorded as voting for `h`, in insertion order.
    pub open spec fn voters_of(self, h: Seq<u8>) -> Seq<usize> {
        voters_in(self.votes@, h)
    }

    /// Whether `h` is notarized.
    pub open spec fn spec_notarized(self, h: Seq<u8>) -> bool {
        hash_in(self.notarized@, h)
    }

    /// Whether `h` is finalized.
    pub open spec fn spec_finalized(self, h: Seq<u8>) -> bool {
        hash_in(self.finalized@, h)
    }

    /// The block the backward scan picks among the marked ones: the first
    /// marked entry of the highest epoch row that holds one.
    pub open spec fn spec_highest_marked(self, marked: Seq<crate::utils::Hash>) -> crate::utils::Hash
        recommends
            top_marked_epoch(self.block_by_epoch@, marked) >= 0,
    {
        let e = top_marked_epoch(self.block_by_epoch@, marked);
        let row = self.block_by_epoch@[e]@;
        row[first_marked(row, marked)]
    }

    /// No two stored blocks share a content identity.
    pub open spec fn blocks_nodup(self) -> bool {
        forall|i: int, j: int|
            0 <= i < j < self.blocks@.len() ==> self.blocks@[i].hash@ != self.blocks@[j].hash@
    }

    /// The genesis block sits at position 0: empty, of epoch 0 and height 0.
    pub open spec fn genesis_wf(self) -> bool {
        &&& self.genesis@ == spec_genesis_hash()
        &&& self.blocks@.len() >= 1
        &&& self.blocks@[0].hash@ == self.genesis@
        &&& self.blocks@[0].parent_hash is None
        &&& self.blocks@[0].e == 0
        &&& self.blocks@[0].height == 0
        &&& self.blocks@[0].txs@.len() == 0
    }

    /// Structural facts of the stored block at position `i`: its hash matches
    /// its content, its height is bounded by the number of blocks, and every
    /// non-genesis block passed validation and extends a present parent with
    /// the height one above the parent's.
    pub open spec fn block_entry_wf(self, i: int) -> bool {
        let b = self.blocks@[i];
        &&& b.hash_ok()
        &&& b.height < self.blocks@.len()
        &&& i >= 1 ==> {
            &&& b.parent_hash is Some
            &&& self.spec_contains(b.parent_hash.unwrap()@)
            &&& b.height == self.block_of(b.parent_hash.unwrap()@).height + 1
            &&& b.e >= 1
            &&& b.txs@.len() < MAXLENGTH_TXS
        }
    }

    /// Every non-genesis block has a parent that exists among the blocks.
    pub open spec fn blocks_wf(self) -> bool {
        &&& self.genesis_wf()
        &&& self.blocks_nodup()
        &&& forall|i: int| 0 <= i < self.blocks@.len() ==> #[trigger] self.block_entry_wf(i)
    }

    /// Vote tallies have unique keys and duplicate-free voter sets.
    pub open spec fn votes_wf(self) -> bool {
        &&& forall|i: int, j: int|
            0 <= i < j < self.votes@.len() ==> self.votes@[i].hash@ != self.votes@[j].hash@
        &&& forall|i: int|
            0 <= i < self.votes@.len() ==> ids_nodup(#[trigger] self.votes@[i].voters@)
    }

    /// The notarized set: duplicate-free block hashes, genesis included.
    pub open spec fn notarized_wf(self) -> bool {
        &&& hashes_nodup(self.notarized@)
        &&& forall|i: int|
            0 <= i < self.notarized@.len() ==> self.spec_contains(
                (#[trigger] self.notarized@[i])@,
            )
        &&& self.spec_notarized(self.genesis@)
    }

    /// The finalized set: duplicate-free block hashes of stored blocks,
    /// genesis included, and closed under parents: a finalized block other
    /// than genesis has a finalized parent.
    pub open spec fn finalized_wf(self) -> bool {
        &&& hashes_nodup(self.finalized@)
        &&& forall|i: int|
            0 <= i < self.finalized@.len() ==> self.spec_contains(
                (#[trigger] self.finalized@[i])@,
            )
        &&& self.spec_finalized(self.genesis@)
        &&& forall|i: int|
            0 <= i < self.finalized@.len() ==> {
                let h = (#[trigger] self.finalized@[i])@;
                h == self.genesis@ || self.spec_finalized(self.block_of(h).parent_hash.unwrap()@)
            }
    }

    /// Facts of the epoch row `e`: its members are stored blocks of epoch `e`,
    /// without duplicates.
    pub open spec fn epoch_row_wf(self, e: int) -> bool {
        let row = self.block_by_epoch@[e]@;
        &&& hashes_nodup(row)
        &&& forall|k: int|
            0 <= k < row.len() ==> self.spec_contains((#[trigger] row[k])@) && self.block_of(
                row[k]@,
            ).e == e
    }

    /// The per-epoch index: every row is well formed and every stored block
    /// appears in the row of its epoch.
    pub open spec fn epochs_wf(self) -> bool {
        &&& self.block_by_epoch@.len() >= 1
        &&& forall|e: int| 0 <= e < self.block_by_epoch@.len() ==> #[trigger] self.epoch_row_wf(e)
        &&& forall|i: int|
            0 <= i < self.blocks@.len() ==> (#[trigger] self.blocks@[i]).e
                < self.block_by_epoch@.len() && hash_in(
                self.block_by_epoch@[self.blocks@[i].e as int]@,
                self.blocks@[i].hash@,
            )
    }

    /// All structural invariants of the block tree together.
    pub open spec fn wf(self) -> bool {
        &&& self.blocks_wf()
        &&& self.votes_wf()
        &&& self.notarized_wf()
        &&& self.finalized_wf()
        &&& self.epochs_wf()
    }

    /// With duplicate-free block hashes, the stored block at position `i` is
    /// the one its hash resolves to.
    pub proof fn lemma_idx_of(self, i: int)
        requires
            self.blocks_nodup(),
            0 <= i < self.blocks@.len(),
        ensures
            self.spec_contains(self.blocks@[i].hash@),
            self.idx_of(self.blocks@[i].hash@) == i,
            self.block_of(self.blocks@[i].hash@) == self.blocks@[i],
    {
        let h = self.blocks@[i].hash@;
        assert(self.spec_contains(h));
        let j = self.idx_of(h);
        assert(0 <= j < self.blocks@.len() && self.blocks@[j].hash@ == h);
        if i < j {
            assert(false);
        } else if j < i {
            assert(false);
        }
    }

    /// With unique tally keys, the tally at position `i` is the one its hash
    /// resolves to.
    pub proof fn lemma_vote_idx_of(self, i: int)
        requires
            self.votes_wf(),
            0 <= i < self.votes@.len(),
        ensures
            self.has_vote_record(self.votes@[i].hash@),
            self.vote_idx_of(self.votes@[i].hash@) == i,
            self.voters_of(self.votes@[i].hash@) == self.votes@[i].voters@,
    {
        let h = self.votes@[i].hash@;
        assert(self.has_vote_record(h));
        let j = self.vote_idx_of(h);
        assert(0 <= j < self.votes@.len() && self.votes@[j].hash@ == h);
        if i < j {
            assert(false);
        } else if j < i {
            assert(false);
        }
    }

    /// Creates a tree holding only the genesis block, which starts out
    /// notarized and finalized, with the epoch index holding genesis at
    /// epoch 0.
    pub fn new(id: usize) -> (r: Blockchain)
        ensures
            r.wf(),
            r.id == id,
            r.genesis@ == spec_genesis_hash(),
            r.blocks@.len() == 1,
            r.votes@.len() == 0,
            r.notarized@.len() == 1 && r.notarized@[0]@ == r.genesis@,
            r.finalized@.len() == 1 && r.finalized@[0]@ == r.genesis@,
            r.block_by_epoch@.len() == 1,
            r.spec_contains(r.genesis@),
    {
        let mut name: Vec<u8> = Vec::new();
        name.push(48u8);
        let genesis = Block::new(None, 0, Vec::new(), name, 0);
        let genesis_hash = genesis.hash;
        let mut blocks: Vec<Block> = Vec::new();
        blocks.push(genesis);
        let mut notarized: Vec<crate::utils::Hash> = Vec::new();
        notarized.push(genesis_hash);
        let mut finalized: Vec<crate::utils::Hash> = Vec::new();
        finalized.push(genesis_hash);
        let mut genesis_row: Vec<crate::utils::Hash> = Vec::new();
        genesis_row.push(genesis_hash);
        let mut block_by_epoch: Vec<Vec<crate::utils::Hash>> = Vec::new();
        block_by_epoch.push(genesis_row);
        let r = Blockchain {
            genesis: genesis_hash,
            blocks,
            votes: Vec::new(),
            notarized,
            finalized,
            block_by_epoch,
            id,
        };
        proof {
            assert(r.blocks@[0].hash@ == r.genesis@);
            assert(r.spec_contains(r.genesis@));
            r.lemma_idx_of(0);
            assert(r.block_entry_wf(0));
            assert(r.epoch_row_wf(0));
            assert(r.notarized@[0]@ == r.genesis@);
            assert(r.spec_notarized(r.genesis@));
            assert(r.finalized@[0]@ == r.genesis@);
            assert(r.spec_finalized(r.genesis@));
        }
        r
    }

    /// Finds the position of the block with the given hash, if stored.
    pub fn find_block(&self, h: &crate::utils::Hash) -> (r: Option<usize>)
        ensures
            match r {
                Some(i) => i < self.blocks@.len() && self.blocks@[i as int].hash@ == h@
                    && self.spec_contains(h@),
                None => !self.spec_contains(h@),
            },
    {
        let mut i: usize = 0;
        while i < self.blocks.len()
            invariant
                i <= self.blocks@.len(),
                forall|k: int| 0 <= k < i ==> self.blocks@[k].hash@ != h@,
            decreases self.blocks@.len() - i,
        {
            if hash_eq(&self.blocks[i].hash, h) {
                return Some(i);
            }
            i += 1;
        }
        None
    }

    /// Returns whether a given block is already part of the blockchain.
    pub fn contains_block(&self, b: crate::utils::Hash) -> (r: bool)
        ensures
            r == self.spec_contains(b@),
    {
        self.find_block(&b).is_some()
    }

    /// Returns the parent hash of a stored block; None only for genesis.
    pub fn parent_of(&self, b: crate::utils::Hash) -> (r: Option<crate::utils::Hash>)
        requires
            self.blocks_nodup(),
            self.spec_contains(b@),
        ensures
            r == self.block_of(b@).parent_hash,
    {
        let i = self.find_block(&b).unwrap();
        proof {
            self.lemma_idx_of(i as int);
        }
        self.blocks[i].parent_hash
    }

    /// Finds the position of the vote tally for the given hash, if present.
    pub fn find_vote_record(&self, h: &crate::utils::Hash) -> (r: Option<usize>)
        ensures
            match r {
                Some(i) => i < self.votes@.len() && self.votes@[i as int].hash@ == h@
                    && self.has_vote_record(h@),
                None => !self.has_vote_record(h@),
            },
    {
        let mut i: usize = 0;
        while i < self.votes.len()
            invariant
                i <= self.votes@.len(),
                forall|k: int| 0 <= k < i ==> self.votes@[k].hash@ != h@,
            decreases self.votes@.len() - i,
        {
            if hash_eq(&self.votes[i].hash, h) {
                return Some(i);
            }
            i += 1;
        }
        None
    }

    /// The number of distinct voters recorded for `h`.
    pub fn voters_count(&self, h: &crate::utils::Hash) -> (r: usize)
        requires
            self.votes_wf(),
        ensures
            r == self.voters_of(h@).len(),
    {
        match self.find_vote_record(h) {
            Some(i) => {
                proof {
                    self.lemma_vote_idx_of(i as int);
                }
                self.votes[i].voters.len()
            },
            None => 0,
        }
    }

    /// Whether `voter` is recorded as having voted for `h`.
    pub fn has_voted(&self, h: &crate::utils::Hash, voter: usize) -> (r: bool)
        requires
            self.votes_wf(),
        ensures
            r == self.voters_of(h@).contains(voter),
    {
        match self.find_vote_record(h) {
            Some(i) => {
                proof {
                    self.lemma_vote_idx_of(i as int);
                }
                ids_vec_contains(&self.votes[i].voters, voter)
            },
            None => false,
        }
    }

    /// Records `voter` as voting for `h`, creating the tally if missing.
    /// Duplicate votes have no effect (set semantics), and tallies only grow.
    pub fn add_vote(&mut self, h: &crate::utils::Hash, voter: usize)
        requires
            old(self).votes_wf(),
        ensures
            final(self).votes_wf(),
            final(self).blocks@ == old(self).blocks@,
            final(self).notarized@ == old(self).notarized@,
            final(self).finalized@ == old(self).finalized@,
            final(self).block_by_epoch@ == old(self).block_by_epoch@,
            final(self).genesis == old(self).genesis,
            final(self).id == old(self).id,
            final(self).voters_of(h@) == (if old(self).voters_of(h@).contains(voter) {
                old(self).voters_of(h@)
            } else {
                old(self).voters_of(h@).push(voter)
            }),
            forall|x: Seq<u8>| x != h@ ==> final(self).voters_of(x) == old(self).voters_of(x),
            final(self).voters_of(h@).contains(voter),
    {
        match self.find_vote_record(h) {
            Some(i) => {
                proof {
                    self.lemma_vote_idx_of(i as int);
                }
                if !ids_vec_contains(&self.votes[i].voters, voter) {
                    self.votes[i].voters.push(voter);
                    proof {
                        let ov = old(self).votes@;
                        let nv = self.votes@;
                        assert(nv.len() == ov.len());
                        assert(nv[i as int].hash == ov[i as int].hash);
                        assert(nv[i as int].voters@ == ov[i as int].voters@.push(voter));
                        assert(forall|j: int| 0 <= j < ov.len() && j != i ==> nv[j] == ov[j]);
                        assert(ids_nodup(nv[i as int].voters@)) by {
                            let w = ov[i as int].voters@;
                            assert(forall|k: int| 0 <= k < w.len() ==> w[k] != voter);
                        }
                        assert(self.votes_wf());
                        self.lemma_vote_idx_of(i as int);
                        assert(final(self).voters_of(h@) == ov[i as int].voters@.push(voter));
                        assert(final(self).voters_of(h@).contains(voter)) by {
                            let w = self.votes@[i as int].voters@;
                            assert(w[w.len() - 1] == voter);
                        }
                        assert forall|x: Seq<u8>| x != h@ implies final(self).voters_of(x)
                            == old(self).voters_of(x) by {
                            if old(self).has_vote_record(x) {
                                let j = old(self).vote_idx_of(x);
                                assert(ov[j].hash@ == x);
                                assert(j != i);
                                assert(self.votes@[j].hash@ == x);
                                self.lemma_vote_idx_of(j);
                                old(self).lemma_vote_idx_of(j);
                            } else {
                                assert(!self.has_vote_record(x)) by {
                                    if self.has_vote_record(x) {
                                        let j = self.vote_idx_of(x);
                                        assert(self.votes@[j].hash@ == x);
                                        assert(ov[j].hash@ == x);
                                    }
                                }
                            }
                        }
                    }
                }
            },
            None => {
                let mut voters: Vec<usize> = Vec::new();
                voters.push(voter);
                self.votes.push(VoteRecord { hash: *h, voters });
                proof {
                    let ov = old(self).votes@;
                    let nv = self.votes@;
                    let n = ov.len() as int;
                    assert(nv.len() == n + 1);
                    assert(nv[n].hash@ == h@);
                    assert(nv[n].voters@ == Seq::empty().push(voter)) by {
                        assert(nv[n].voters@ =~= Seq::empty().push(voter));
                    }
                    assert(forall|j: int| 0 <= j < n ==> nv[j] == ov[j]);
                    assert(forall|j: int| 0 <= j < n ==> ov[j].hash@ != h@);
                    assert(self.votes_wf()) by {
                        assert(ids_nodup(nv[n].voters@));
                        assert(forall|k: int| 0 <= k < nv.len() ==> ids_nodup(
                            #[trigger] nv[k].voters@,
                        ));
                    }
                    self.lemma_vote_idx_of(n);
                    assert(final(self).voters_of(h@) == Seq::empty().push(voter));
                    assert(old(self).voters_of(h@) == Seq::<usize>::empty());
                    assert(final(self).voters_of(h@).contains(voter)) by {
                        let w = nv[n].voters@;
                        assert(w[0] == voter);
                    }
                    assert forall|x: Seq<u8>| x != h@ implies final(self).voters_of(x) == old(self).voters_of(x) by {
                        if old(self).has_vote_record(x) {
                            let j = old(self).vote_idx_of(x);
                            assert(ov[j].hash@ == x);
                            assert(nv[j].hash@ == x);
                            self.lemma_vote_idx_of(j);
                            old(self).lemma_vote_idx_of(j);
                        } else {
                            assert(!self.has_vote_record(x)) by {
                                if self.has_vote_record(x) {
                                    let j = self.vote_idx_of(x);
                                    assert(nv[j].hash@ == x);
                                    if j < n {
                                        assert(ov[j].hash@ == x);
                                    }
                                }
                            }
                        }
                    }
                }
            },
        }
    }

    /// Scans the per-epoch index from the highest epoch down and returns a
    /// marked block of the highest epoch that has one. The genesis block must
    /// be marked, so the scan always finds something.
    fn highest_marked(&self, marked: &Vec<crate::utils::Hash>) -> (r: crate::utils::Hash)
        requires
            self.wf(),
            forall|i: int| 0 <= i < marked@.len() ==> self.spec_contains((#[trigger] marked@[i])@),
            hash_in(marked@, self.genesis@),
        ensures
            hash_in(marked@, r@),
            self.spec_contains(r@),
            forall|x: Seq<u8>| hash_in(marked@, x) ==> self.block_of(x).e <= self.block_of(r@).e,
            r == self.spec_highest_marked(marked@),
    {
        let mut e = self.block_by_epoch.len();
        while e > 0
            invariant
                self.wf(),
                e <= self.block_by_epoch@.len(),
                forall|i: int| 0 <= i < marked@.len() ==> self.spec_contains(
                    (#[trigger] marked@[i])@,
                ),
                hash_in(marked@, self.genesis@),
                forall|j: int, k: int|
                    e <= j < self.block_by_epoch@.len() && 0 <= k
                        < self.block_by_epoch@[j]@.len() ==> !hash_in(
                        marked@,
                        (#[trigger] self.block_by_epoch@[j]@[k])@,
                    ),
            decreases e,
        {
            e -= 1;
            let mut k: usize = 0;
            let row_len = self.block_by_epoch[e].len();
            while k < row_len
                invariant
                    self.wf(),
                    e < self.block_by_epoch@.len(),
                    row_len == self.block_by_epoch@[e as int]@.len(),
                    k <= row_len,
                    forall|i: int| 0 <= i < marked@.len() ==> self.spec_contains(
                        (#[trigger] marked@[i])@,
                    ),
                    forall|j: int, k2: int|
                        e < j < self.block_by_epoch@.len() && 0 <= k2
                            < self.block_by_epoch@[j]@.len() ==> !hash_in(
                            marked@,
                            (#[trigger] self.block_by_epoch@[j]@[k2])@,
                        ),
                    forall|k2: int| 0 <= k2 < k ==> !hash_in(
                        marked@,
                        (#[trigger] self.block_by_epoch@[e as int]@[k2])@,
                    ),
                decreases row_len - k,
            {
                if hash_vec_contains(marked, &self.block_by_epoch[e][k]) {
                    let found = self.block_by_epoch[e][k];
                    proof {
                        assert(self.epoch_row_wf(e as int));
                        assert(self.spec_contains(found@));
                        assert(self.block_of(found@).e == e);
                        assert(found == self.spec_highest_marked(marked@)) by {
                            let rows = self.block_by_epoch@;
                            assert forall|j: int|
                                e < j < rows.len() implies !row_marked(
                                (#[trigger] rows[j])@,
                                marked@,
                            ) by {
                                if row_marked(rows[j]@, marked@) {
                                    let k3 = choose|k3: int|
                                        0 <= k3 < rows[j]@.len() && hash_in(
                                            marked@,
                                            (#[trigger] rows[j]@[k3])@,
                                        );
                                }
                            }
                            assert(row_marked(rows[e as int]@, marked@));
                            lemma_top_marked_epoch(rows, marked@, e as int);
                            lemma_first_marked(rows[e as int]@, marked@, k as int);
                        }
                        assert forall|x: Seq<u8>| hash_in(marked@, x) implies self.block_of(x).e
                            <= self.block_of(found@).e by {
                            let mi = choose|mi: int|
                                0 <= mi < marked@.len() && marked@[mi]@ == x;
                            assert(self.spec_contains(x));
                            let bi = self.idx_of(x);
                            assert(self.blocks@[bi].hash@ == x);
                            assert(self.block_entry_wf(bi));
                            let be = self.blocks@[bi].e;
                            assert(be < self.block_by_epoch@.len());
                            assert(hash_in(self.block_by_epoch@[be as int]@, x));
                            if be > e {
                                let k3 = choose|k3: int|
                                    0 <= k3 < self.block_by_epoch@[be as int]@.len()
                                        && self.block_by_epoch@[be as int]@[k3]@ == x;
                                assert(!hash_in(
                                    marked@,
                                    self.block_by_epoch@[be as int]@[k3]@,
                                ));
                                assert(false);
                            }
                        }
                    }
                    return found;
                }
                k += 1;
            }
        }
        proof {
            assert(self.blocks@[0].hash@ == self.genesis@);
            assert(self.blocks@[0].e == 0);
            assert(hash_in(self.block_by_epoch@[0]@, self.genesis@));
            let k3 = choose|k3: int|
                0 <= k3 < self.block_by_epoch@[0]@.len() && self.block_by_epoch@[0]@[k3]@
                    == self.genesis@;
            assert(!hash_in(marked@, self.block_by_epoch@[0]@[k3]@));
            assert(false);
        }
        self.genesis
    }

    /// Returns the highest notarized block of the chain: a notarized block
    /// whose epoch is at least the epoch of every notarized block. Genesis is
    /// always notarized, so the scan always finds something.
    pub fn get_highest_notarized_block(&self) -> (r: crate::utils::Hash)
        requires
            self.wf(),
        ensures
            self.spec_notarized(r@),
            self.spec_contains(r@),
            forall|x: Seq<u8>| self.spec_notarized(x) ==> self.block_of(x).e <= self.block_of(
                r@,
            ).e,
            r == self.spec_highest_marked(self.notarized@),
    {
        self.highest_marked(&self.notarized)
    }

    /// Returns the highest finalized block of the chain: a finalized block
    /// whose epoch is at least the epoch of every finalized block. Genesis is
    /// always finalized, so the scan always finds something.
    pub fn highest_finalized_block(&self) -> (r: crate::utils::Hash)
        requires
            self.wf(),
        ensures
            self.spec_finalized(r@),
            self.spec_contains(r@),
            forall|x: Seq<u8>| self.spec_finalized(x) ==> self.block_of(x).e <= self.block_of(
                r@,
            ).e,
            r == self.spec_highest_marked(self.finalized@),
    {
        self.highest_marked(&self.finalized)
    }

    /// Validates a new block and extends the chain by it. A block that fails
    /// validation and is not already stored is rejected; a block that is
    /// already stored is left exactly as it is; otherwise the block is
    /// recorded, added to its parent's children, and indexed under its epoch
    /// (the per-epoch index grows as needed, never shrinks). The parent block
    /// must already be part of the chain.
    pub fn validate_and_extend(&mut self, b: Block, parent_hash: crate::utils::Hash) -> (r: bool)
        requires
            old(self).wf(),
            b.parent_hash == Some(parent_hash),
            old(self).spec_contains(parent_hash@),
            b.hash_ok(),
            b.height == old(self).block_of(parent_hash@).height + 1,
        ensures
            final(self).wf(),
            r == (b.spec_valid() || old(self).spec_contains(b.hash@)),
            old(self).spec_contains(b.hash@) ==> *final(self) == *old(self),
            !b.spec_valid() && !old(self).spec_contains(b.hash@) ==> *final(self) == *old(self),
            final(self).genesis == old(self).genesis,
            final(self).id == old(self).id,
            final(self).votes@ == old(self).votes@,
            final(self).notarized@ == old(self).notarized@,
            final(self).finalized@ == old(self).finalized@,
            forall|x: Seq<u8>| old(self).spec_contains(x) ==> final(self).spec_contains(x),
            forall|x: Seq<u8>| #[trigger] old(self).spec_contains(x) ==> {
                &&& final(self).block_of(x).parent_hash == old(self).block_of(x).parent_hash
                &&& final(self).block_of(x).e == old(self).block_of(x).e
                &&& final(self).block_of(x).height == old(self).block_of(x).height
                &&& final(self).block_of(x).txs@ == old(self).block_of(x).txs@
            },
            b.spec_valid() && !old(self).spec_contains(b.hash@) ==> {
                &&& final(self).blocks@.len() == old(self).blocks@.len() + 1
                &&& final(self).spec_contains(b.hash@)
                &&& final(self).block_of(b.hash@).parent_hash == b.parent_hash
                &&& final(self).block_of(b.hash@).e == b.e
                &&& final(self).block_of(b.hash@).height == b.height
                &&& final(self).block_of(b.hash@).txs@ == b.txs@
                &&& final(self).block_of(parent_hash@).children@ == old(self).block_of(
                    parent_hash@,
                ).children@.push(b.hash)
                &&& forall|x: Seq<u8>|
                    old(self).spec_contains(x) && x != parent_hash@ ==> final(self).block_of(
                        x,
                    ).children@ == old(self).block_of(x).children@
                &&& old(self).block_by_epoch@.len() > b.e ==> {
                    &&& final(self).block_by_epoch@.len() == old(self).block_by_epoch@.len()
                    &&& forall|j: int|
                        0 <= j < old(self).block_by_epoch@.len() && j != b.e ==> final(self).block_by_epoch@[j] == old(self).block_by_epoch@[j]
                    &&& final(self).block_by_epoch@[b.e as int]@ == old(self).block_by_epoch@[
                        b.e as int]@.push(b.hash)
                }
                &&& old(self).block_by_epoch@.len() <= b.e ==> {
                    &&& final(self).block_by_epoch@.len() == b.e + 1
                    &&& forall|j: int|
                        0 <= j < old(self).block_by_epoch@.len() ==> final(self).block_by_epoch@[j] == old(self).block_by_epoch@[j]
                    &&& final(self).block_by_epoch@[b.e as int]@ =~= seq![b.hash]
                }
            },
    {
        if self.contains_block(b.hash) {
            return true;
        }
        if !b.validate_block() {
            return false;
        }
        let pidx = self.find_block(&parent_hash).unwrap();
        proof {
            old(self).lemma_idx_of(pidx as int);
        }
        self.blocks[pidx].children.push(b.hash);
        let ghost mid_blocks = self.blocks@;
        proof {
            assert(mid_blocks.len() == old(self).blocks@.len());
            assert(forall|j: int|
                0 <= j < mid_blocks.len() && j != pidx ==> mid_blocks[j] == old(self).blocks@[j]);
            assert(mid_blocks[pidx as int].hash == old(self).blocks@[pidx as int].hash);
            assert(mid_blocks[pidx as int].parent_hash == old(self).blocks@[
                pidx as int].parent_hash);
            assert(mid_blocks[pidx as int].e == old(self).blocks@[pidx as int].e);
            assert(mid_blocks[pidx as int].height == old(self).blocks@[pidx as int].height);
            assert(mid_blocks[pidx as int].txs@ == old(self).blocks@[pidx as int].txs@);
        }
        let ghost old_rows = self.block_by_epoch@;
        while self.block_by_epoch.len() <= b.e
            invariant
                self.block_by_epoch@.len() >= old_rows.len(),
                old_rows.len() > b.e ==> self.block_by_epoch@ == old_rows,
                old_rows.len() <= b.e ==> self.block_by_epoch@.len() <= b.e + 1,
                forall|j: int|
                    0 <= j < old_rows.len() ==> self.block_by_epoch@[j] == old_rows[j],
                forall|j: int|
                    old_rows.len() <= j < self.block_by_epoch@.len()
                        ==> (#[trigger] self.block_by_epoch@[j])@.len() == 0,
                self.blocks@ == mid_blocks,
                self.votes@ == old(self).votes@,
                self.notarized@ == old(self).notarized@,
                self.finalized@ == old(self).finalized@,
                self.genesis == old(self).genesis,
                self.id == old(self).id,
            decreases b.e + 1 - self.block_by_epoch@.len(),
        {
            self.block_by_epoch.push(Vec::new());
        }
        let ghost grown_rows = self.block_by_epoch@;
        self.block_by_epoch[b.e].push(b.hash);
        self.blocks.push(b);
        proof {
            let oldc = *old(self);
            let newc = *self;
            let n = oldc.blocks@.len() as int;
            let bh = b.hash@;
            // the stored hashes are the old ones plus the new block's
            assert(newc.blocks@.len() == n + 1);
            assert(newc.blocks@[n] == b);
            assert(forall|j: int| 0 <= j < n && j != pidx ==> newc.blocks@[j] == oldc.blocks@[j]);
            assert(forall|j: int| 0 <= j < n ==> (#[trigger] newc.blocks@[j]).hash@
                == oldc.blocks@[j].hash@);
            assert(forall|j: int| 0 <= j < n ==> (#[trigger] newc.blocks@[j]).parent_hash
                == oldc.blocks@[j].parent_hash);
            assert(forall|j: int| 0 <= j < n ==> (#[trigger] newc.blocks@[j]).e
                == oldc.blocks@[j].e);
            assert(forall|j: int| 0 <= j < n ==> (#[trigger] newc.blocks@[j]).height
                == oldc.blocks@[j].height);
            assert(forall|j: int| 0 <= j < n ==> (#[trigger] newc.blocks@[j]).txs@
                == oldc.blocks@[j].txs@);
            // no stored block had the new hash
            assert(forall|j: int| 0 <= j < n ==> oldc.blocks@[j].hash@ != bh);
            assert(newc.blocks_nodup());
            // membership carries over in both directions
            assert forall|x: Seq<u8>| oldc.spec_contains(x) implies newc.spec_contains(x) by {
                let j = oldc.idx_of(x);
                assert(newc.blocks@[j].hash@ == x);
            }
            assert(newc.spec_contains(bh)) by {
                assert(newc.blocks@[n].hash@ == bh);
            }
            // positions resolve as before for old blocks, and to the new block
            assert forall|x: Seq<u8>| #[trigger] oldc.spec_contains(x) implies {
                &&& newc.block_of(x).parent_hash == oldc.block_of(x).parent_hash
                &&& newc.block_of(x).e == oldc.block_of(x).e
                &&& newc.block_of(x).height == oldc.block_of(x).height
                &&& newc.block_of(x).txs@ == oldc.block_of(x).txs@
                &&& newc.idx_of(x) == oldc.idx_of(x)
            } by {
                let j = oldc.idx_of(x);
                assert(oldc.blocks@[j].hash@ == x);
                assert(newc.blocks@[j].hash@ == x);
                newc.lemma_idx_of(j);
            }
            newc.lemma_idx_of(n);
            assert(newc.block_of(bh) == b);
            // genesis is untouched at position 0
            assert(newc.genesis_wf()) by {
                assert(newc.blocks@[0].hash@ == oldc.blocks@[0].hash@);
                if pidx == 0 {
                    assert(newc.blocks@[0].parent_hash == oldc.blocks@[0].parent_hash);
                }
            }
            // every entry keeps its structural facts; the new block gains them
            assert forall|i: int| 0 <= i < newc.blocks@.len() implies #[trigger] newc
                .block_entry_wf(i) by {
                if i < n {
                    assert(oldc.block_entry_wf(i));
                    assert(newc.blocks@[i].hash_ok());
                    if i >= 1 {
                        let ph = oldc.blocks@[i].parent_hash.unwrap()@;
                        assert(oldc.spec_contains(ph));
                        assert(newc.spec_contains(ph));
                        assert(newc.block_of(ph).height == oldc.block_of(ph).height);
                    }
                } else {
                    assert(i == n);
                    assert(newc.blocks@[n] == b);
                    let ph = parent_hash@;
                    assert(oldc.spec_contains(ph));
                    assert(newc.block_of(ph).height == oldc.block_of(ph).height);
                    assert(b.height == newc.block_of(ph).height + 1);
                    assert(oldc.block_entry_wf(oldc.idx_of(ph)));
                    assert(oldc.block_of(ph).height < n);
                }
            }
            assert(newc.blocks_wf());
            assert(newc.votes_wf());
            assert(newc.notarized_wf()) by {
                assert forall|i: int| 0 <= i < newc.notarized@.len() implies newc.spec_contains(
                    (#[trigger] newc.notarized@[i])@,
                ) by {
                    assert(oldc.spec_contains(oldc.notarized@[i]@));
                }
                assert(hash_in(newc.notarized@, newc.genesis@));
            }
            assert(newc.finalized_wf()) by {
                assert forall|i: int| 0 <= i < newc.finalized@.len() implies newc.spec_contains(
                    (#[trigger] newc.finalized@[i])@,
                ) by {
                    assert(oldc.spec_contains(oldc.finalized@[i]@));
                }
                assert(hash_in(newc.finalized@, newc.genesis@));
                assert forall|i: int| 0 <= i < newc.finalized@.len() implies {
                    let h = (#[trigger] newc.finalized@[i])@;
                    h == newc.genesis@ || newc.spec_finalized(
                        newc.block_of(h).parent_hash.unwrap()@,
                    )
                } by {
                    let h = newc.finalized@[i]@;
                    assert(oldc.spec_contains(h));
                    assert(newc.block_of(h).parent_hash == oldc.block_of(h).parent_hash);
                }
            }
            // the epoch index: old rows kept (the new block's row gains it),
            // empty rows in between, and the new block indexed under its epoch
            assert(newc.epochs_wf()) by {
                let rows = newc.block_by_epoch@;
                assert(rows.len() == grown_rows.len());
                assert(rows.len() > b.e);
                assert(forall|j: int| 0 <= j < rows.len() && j != b.e ==> rows[j]
                    == grown_rows[j]);
                assert(rows[b.e as int]@ == grown_rows[b.e as int]@.push(b.hash));
                assert forall|e2: int| 0 <= e2 < rows.len() implies #[trigger] newc.epoch_row_wf(
                    e2,
                ) by {
                    if e2 < old_rows.len() {
                        assert(oldc.epoch_row_wf(e2));
                    }
                    let row = rows[e2]@;
                    assert forall|k: int| 0 <= k < row.len() implies newc.spec_contains(
                        (#[trigger] row[k])@,
                    ) && newc.block_of(row[k]@).e == e2 by {
                        if e2 == b.e && k == row.len() - 1 {
                            assert(row[k] == b.hash);
                            assert(newc.block_of(bh) == b);
                        } else {
                            assert(e2 < old_rows.len() || row.len() == 1);
                            if e2 >= old_rows.len() {
                                assert(e2 == b.e);
                                assert(grown_rows[e2]@.len() == 0);
                            } else {
                                assert(row[k] == oldc.block_by_epoch@[e2]@[k]);
                                assert(oldc.spec_contains(row[k]@));
                                assert(oldc.block_of(row[k]@).e == e2);
                                assert(newc.block_of(row[k]@).e == e2);
                            }
                        }
                    }
                    assert(hashes_nodup(row)) by {
                        if e2 == b.e {
                            if e2 < old_rows.len() {
                                assert(hashes_nodup(grown_rows[e2]@));
                                assert(forall|k: int| 0 <= k < grown_rows[e2]@.len()
                                    ==> oldc.spec_contains((#[trigger] grown_rows[e2]@[k])@));
                                assert(forall|k: int| 0 <= k < grown_rows[e2]@.len()
                                    ==> (#[trigger] grown_rows[e2]@[k])@ != bh);
                            } else {
                                assert(grown_rows[e2]@.len() == 0);
                            }
                        }
                    }
                }
                assert forall|i: int| 0 <= i < newc.blocks@.len() implies (
                #[trigger] newc.blocks@[i]).e < rows.len() && hash_in(
                    rows[newc.blocks@[i].e as int]@,
                    newc.blocks@[i].hash@,
                ) by {
                    if i < n {
                        let e2 = oldc.blocks@[i].e;
                        assert(hash_in(oldc.block_by_epoch@[e2 as int]@, oldc.blocks@[i].hash@));
                        let k = choose|k: int|
                            0 <= k < oldc.block_by_epoch@[e2 as int]@.len()
                                && oldc.block_by_epoch@[e2 as int]@[k]@ == oldc.blocks@[i].hash@;
                        if e2 == b.e {
                            assert(rows[e2 as int]@[k]@ == newc.blocks@[i].hash@);
                        } else {
                            assert(rows[e2 as int] == oldc.block_by_epoch@[e2 as int]);
                        }
                    } else {
                        let row = rows[b.e as int]@;
                        assert(row[row.len() - 1]@ == bh);
                    }
                }
            }
            assert(newc.wf());
            // the epoch index changed exactly at the new block's row
            assert(newc.block_by_epoch@.len() == grown_rows.len());
            assert(forall|j: int|
                0 <= j < newc.block_by_epoch@.len() && j != b.e ==> newc.block_by_epoch@[j]
                    == grown_rows[j]);
            assert(newc.block_by_epoch@[b.e as int]@ == grown_rows[b.e as int]@.push(b.hash));
            assert(old_rows.len() > b.e ==> grown_rows == old_rows);
            assert(old_rows.len() <= b.e ==> grown_rows.len() == b.e + 1);
            assert(old_rows.len() <= b.e ==> grown_rows[b.e as int]@.len() == 0);
            assert(old_rows.len() <= b.e ==> (newc.block_by_epoch@[b.e as int]@ =~= seq![
                b.hash,
            ]));
        }
        true
    }

    /// The block-level invariants depend only on the stored blocks and the
    /// genesis hash.
    pub proof fn lemma_blocks_wf_congruent(a: Blockchain, b: Blockchain)
        requires
            a.blocks@ == b.blocks@,
            a.genesis == b.genesis,
            a.blocks_wf(),
        ensures
            b.blocks_wf(),
    {
        assert forall|i: int| 0 <= i < b.blocks@.len() implies #[trigger] b.block_entry_wf(i) by {
            assert(a.block_entry_wf(i));
        }
    }

    /// The vote-tally invariants depend only on the tallies.
    pub proof fn lemma_votes_wf_congruent(a: Blockchain, b: Blockchain)
        requires
            a.votes@ == b.votes@,
            a.votes_wf(),
        ensures
            b.votes_wf(),
    {
    }

    /// The notarized-set invariants depend only on the notarized set, the
    /// stored blocks and the genesis hash.
    pub proof fn lemma_notarized_wf_congruent(a: Blockchain, b: Blockchain)
        requires
            a.blocks@ == b.blocks@,
            a.notarized@ == b.notarized@,
            a.genesis == b.genesis,
            a.notarized_wf(),
        ensures
            b.notarized_wf(),
    {
    }

    /// The finalized-set invariants depend only on the finalized set, the
    /// stored blocks and the genesis hash.
    pub proof fn lemma_finalized_wf_congruent(a: Blockchain, b: Blockchain)
        requires
            a.blocks@ == b.blocks@,
            a.finalized@ == b.finalized@,
            a.genesis == b.genesis,
            a.finalized_wf(),
        ensures
            b.finalized_wf(),
    {
    }

    /// The epoch-index invariants depend only on the index and the stored
    /// blocks.
    pub proof fn lemma_epochs_wf_congruent(a: Blockchain, b: Blockchain)
        requires
            a.blocks@ == b.blocks@,
            a.block_by_epoch@ == b.block_by_epoch@,
            a.epochs_wf(),
        ensures
            b.epochs_wf(),
    {
        assert forall|e: int| 0 <= e < b.block_by_epoch@.len() implies #[trigger] b.epoch_row_wf(
            e,
        ) by {
            assert(a.epoch_row_wf(e));
        }
    }

}

} // verus!
