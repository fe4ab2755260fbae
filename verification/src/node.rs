//! The honest validator: a state machine that consumes messages, maintains
//! its block tree, proposes when it leads an epoch, votes at most once per
//! epoch, notarizes on quorum, finalizes on the three-consecutive-epochs
//! rule, and queues messages it cannot process yet.

use vstd::prelude::*;
use crate::utils::{Crypto, sha256_of, spec_le_bytes, spec_short_hash, spec_check_signature,
    spec_decimal, usize_to_decimal, push_bytes, bytes_to_vec};
use crate::blockchain::{Block, BlockMessage, Blockchain, Message, MessageModel, MessageType,
    MsgModel, VoteMessage, MAXLENGTH_SINGLE_TX, MAXLENGTH_TXS, hash_vec_contains, opt_view,
    signed_payload, spec_block_hash, spec_signed_payload, hash_in, hashes_nodup,
    ids_nodup, view_seq};
use std::collections::VecDeque;

verus! {

/// The leader of epoch `e` among `n` validators: the short hash of the epoch
/// hash, modulo n. Every validator computes the same value.
pub open spec fn spec_leader(e: usize, n: usize) -> usize
    recommends
        n >= 1,
{
    spec_short_hash(sha256_of(spec_le_bytes(e))) % n
}

/// The notarization rule: strictly more than two thirds of the validators.
pub open spec fn spec_quorum(votes: int, n: int) -> bool {
    3 * votes > 2 * n
}

/// The quorum boundary of the notarization rule (a strict two-thirds
/// majority): when the validator count is divisible by three, exactly
/// ceil(2n/3) votes do not notarize and one more vote does. For other counts
/// ceil(2n/3) itself already exceeds 2n/3 and suffices.
pub proof fn lemma_quorum_boundary(n: int)
    requires
        n >= 1,
    ensures
        n % 3 == 0 ==> !spec_quorum((2 * n + 2) / 3, n),
        spec_quorum((2 * n + 2) / 3 + 1, n),
{
}

/// The payload bytes of the pooled transactions.
pub open spec fn pool_views(pool: Seq<Vec<u8>>) -> Seq<Seq<u8>> {
    pool.map(|i: int, t: Vec<u8>| t@)
}

/// How many transactions from the front of the pool a proposer packs into a
/// payload that is already `len` bytes long: it keeps taking the next one
/// while the running total stays under MAXLENGTH_TXS.
pub open spec fn spec_pack_count(pool: Seq<Seq<u8>>, len: int) -> int
    decreases pool.len(),
{
    if pool.len() > 0 && len + pool[0].len() < MAXLENGTH_TXS {
        1 + spec_pack_count(pool.drop_first(), len + pool[0].len())
    } else {
        0
    }
}

/// The concatenation of the given payloads, in order.
pub open spec fn spec_concat(pool: Seq<Seq<u8>>) -> Seq<u8>
    decreases pool.len(),
{
    if pool.len() == 0 {
        Seq::empty()
    } else {
        pool[0] + spec_concat(pool.drop_first())
    }
}

/// Concatenation distributes over appending one payload at the end.
pub proof fn lemma_concat_push(s: Seq<Seq<u8>>, x: Seq<u8>)
    ensures
        spec_concat(s.push(x)) == spec_concat(s) + x,
    decreases s.len(),
{
    if s.len() == 0 {
        assert(s.push(x)[0] == x);
        assert(s.push(x).drop_first() =~= Seq::<Seq<u8>>::empty());
        assert(spec_concat(Seq::<Seq<u8>>::empty()) == Seq::<u8>::empty());
        assert(spec_concat(s.push(x)) == x + Seq::<u8>::empty());
        assert(x + Seq::<u8>::empty() =~= x);
        assert(spec_concat(s) + x =~= x);
    } else {
        assert(s.push(x).drop_first() =~= s.drop_first().push(x));
        lemma_concat_push(s.drop_first(), x);
        assert(spec_concat(s.push(x)) == s[0] + (spec_concat(s.drop_first()) + x));
        assert(s[0] + (spec_concat(s.drop_first()) + x) =~= (s[0] + spec_concat(s.drop_first()))
            + x);
    }
}

/// What handling a received vote with content `m` does to a validator: votes
/// with an absent parent hash, an out-of-range signer, a duplicate signer or
/// a bad signature leave the state unchanged; an accepted vote is recorded
/// under the reconstructed block identity, relayed to all peers, and, when
/// the block itself is known and the tally reaches a strict two-thirds
/// quorum, the block is notarized.
pub open spec fn spec_receive_vote_effect(pre: Node, post: Node, m: MsgModel) -> bool {
    let h = spec_block_hash(m.parent_hash, m.e, m.txs);
    let sig_ok = spec_check_signature(
        m.signer as u64,
        spec_signed_payload(MessageType::Vote.spec_tag(), h),
        m.signature,
    );
    let accepted = m.parent_hash is Some && m.signer < pre.n && !pre.chain.voters_of(h).contains(
        m.signer,
    ) && sig_ok;
    &&& m.parent_hash is None ==> post == pre
    &&& m.parent_hash is Some && m.signer >= pre.n ==> post == pre
    &&& m.parent_hash is Some && m.signer < pre.n && pre.chain.voters_of(h).contains(m.signer)
        ==> post == pre
    &&& m.parent_hash is Some && m.signer < pre.n && !pre.chain.voters_of(h).contains(m.signer)
        && !sig_ok ==> post == pre
    &&& accepted ==> {
        &&& post.chain.blocks@ == pre.chain.blocks@
        &&& post.chain.voters_of(h) == pre.chain.voters_of(h).push(m.signer)
        &&& forall|x: Seq<u8>| x != h ==> post.chain.voters_of(x) == pre.chain.voters_of(x)
        &&& post.unprocessed_pool@ == pre.unprocessed_pool@
        &&& post.tx_pool@ == pre.tx_pool@
        &&& post.outgoing_messages@.len() == pre.outgoing_messages@.len() + pre.n - 1
        &&& forall|k: int|
            0 <= k < pre.outgoing_messages@.len() ==> post.outgoing_messages@[k]
                == pre.outgoing_messages@[k]
        &&& forall|k: int|
            pre.outgoing_messages@.len() <= k < post.outgoing_messages@.len() ==> (
            #[trigger] post.outgoing_messages@[k]).1@ == MessageModel::Vote(m)
        &&& pre.chain.spec_contains(h) && spec_quorum(
            pre.chain.voters_of(h).len() as int + 1,
            pre.n as int,
        ) ==> post.chain.spec_notarized(h)
        &&& !pre.chain.spec_contains(h) ==> post.chain.notarized@ == pre.chain.notarized@
            && post.chain.finalized@ == pre.chain.finalized@
    }
}

/// Whether `x` is notarized in `c` at the greatest notarized epoch (a tie
/// among equal epochs is possible; the scan picks one of them).
pub open spec fn spec_top_notarized(c: Blockchain, x: Seq<u8>) -> bool {
    c.spec_notarized(x) && forall|y: Seq<u8>|
        c.spec_notarized(y) ==> c.block_of(y).e <= c.block_of(x).e
}

/// What handling a received block proposal with content `m` does to a
/// validator. Dropped proposals (absent parent hash, wrong signer, known
/// block, bad signature, failed validation) leave the state unchanged; a
/// proposal whose parent is unknown is queued; an accepted proposal joins the
/// tree with the signer's implied vote and is relayed to all peers, and the
/// validator votes for it exactly when it is the epoch's only known block and
/// sits one height above a highest notarized block.
pub open spec fn spec_receive_block_effect(pre: Node, post: Node, m: MsgModel) -> bool {
    let h = spec_block_hash(m.parent_hash, m.e, m.txs);
    let sig_ok = spec_check_signature(
        m.signer as u64,
        spec_signed_payload(MessageType::BlockProposal.spec_tag(), h),
        m.signature,
    );
    let valid = m.txs.len() < MAXLENGTH_TXS && m.e >= 1;
    let known_parent = m.parent_hash is Some && pre.chain.spec_contains(m.parent_hash.unwrap());
    let is_leader = m.signer == spec_leader(m.e, pre.n);
    let accepted = known_parent && is_leader && !pre.chain.spec_contains(h) && sig_ok && valid;
    let epoch_occupied = pre.chain.block_by_epoch@.len() > m.e
        && pre.chain.block_by_epoch@[m.e as int]@.len() >= 1;
    &&& m.parent_hash is None ==> post == pre
    &&& m.parent_hash is Some && !pre.chain.spec_contains(m.parent_hash.unwrap()) ==> {
        &&& post.chain == pre.chain
        &&& post.outgoing_messages@ == pre.outgoing_messages@
        &&& post.tx_pool@ == pre.tx_pool@
        &&& post.unprocessed_pool@.len() == pre.unprocessed_pool@.len() + 1
        &&& post.unprocessed_pool@.last()@ == MessageModel::BlockProposal(m)
        &&& forall|k: int|
            0 <= k < pre.unprocessed_pool@.len() ==> post.unprocessed_pool@[k]
                == pre.unprocessed_pool@[k]
    }
    &&& known_parent && !is_leader ==> post == pre
    &&& known_parent && is_leader && pre.chain.spec_contains(h) ==> post == pre
    &&& known_parent && is_leader && !pre.chain.spec_contains(h) && !sig_ok ==> post == pre
    &&& known_parent && is_leader && !pre.chain.spec_contains(h) && sig_ok && !valid ==> post
        == pre
    &&& accepted ==> {
        &&& post.chain.spec_contains(h)
        &&& post.chain.voters_of(h).contains(m.signer)
        &&& post.unprocessed_pool@ == pre.unprocessed_pool@
        &&& post.tx_pool@ == pre.tx_pool@
        &&& {
            ||| post.outgoing_messages@.len() == pre.outgoing_messages@.len() + pre.n - 1
            ||| post.outgoing_messages@.len() == pre.outgoing_messages@.len() + 2 * (pre.n - 1)
        }
        &&& forall|k: int|
            0 <= k < pre.outgoing_messages@.len() ==> post.outgoing_messages@[k]
                == pre.outgoing_messages@[k]
        &&& forall|k: int|
            post.outgoing_messages@.len() - (pre.n - 1) <= k < post.outgoing_messages@.len()
                ==> (#[trigger] post.outgoing_messages@[k]).1@ == MessageModel::BlockProposal(m)
        &&& epoch_occupied ==> post.outgoing_messages@.len() == pre.outgoing_messages@.len()
            + pre.n - 1
        &&& (forall|x: Seq<u8>|
            spec_top_notarized(pre.chain, x) ==> pre.chain.block_of(x).height
                != pre.chain.block_of(m.parent_hash.unwrap()).height) ==> post.outgoing_messages@.len()
            == pre.outgoing_messages@.len() + pre.n - 1
        &&& !epoch_occupied && (forall|x: Seq<u8>|
            spec_top_notarized(pre.chain, x) ==> pre.chain.block_of(x).height
                == pre.chain.block_of(m.parent_hash.unwrap()).height) ==> {
            &&& post.outgoing_messages@.len() == pre.outgoing_messages@.len() + 2 * (pre.n - 1)
            &&& post.chain.voters_of(h).contains(pre.id)
            &&& forall|k: int|
                pre.outgoing_messages@.len() <= k < pre.outgoing_messages@.len() + pre.n - 1
                    ==> (#[trigger] post.outgoing_messages@[k]).1@ == MessageModel::Vote(
                    MsgModel {
                        creator: pre.id,
                        parent_hash: m.parent_hash,
                        e: m.e,
                        txs: m.txs,
                        name: m.name,
                        signer: pre.id,
                        signature: (
                            pre.id as u64,
                            spec_signed_payload(MessageType::Vote.spec_tag(), h),
                        ),
                    },
                )
        }
    }
}

/// What handling one message of either kind does to a validator.
pub open spec fn spec_message_effect(pre: Node, post: Node, m: MessageModel) -> bool {
    match m {
        MessageModel::BlockProposal(mm) => spec_receive_block_effect(pre, post, mm),
        MessageModel::Vote(mm) => spec_receive_vote_effect(pre, post, mm),
    }
}

/// The validator consumed the given messages in order, each through its
/// message handler.
pub open spec fn spec_message_steps(pre: Node, post: Node, msgs: Seq<MessageModel>) -> bool
    decreases msgs.len(),
{
    if msgs.len() == 0 {
        post == pre
    } else {
        exists|mid: Node|
            spec_message_effect(pre, mid, msgs.first()) && spec_message_steps(
                mid,
                post,
                msgs.drop_first(),
            )
    }
}

/// Consuming one more message extends a run of message steps.
pub proof fn lemma_message_steps_push(pre: Node, mid: Node, post: Node, msgs: Seq<MessageModel>, m: MessageModel)
    requires
        spec_message_steps(pre, mid, msgs),
        spec_message_effect(mid, post, m),
    ensures
        spec_message_steps(pre, post, msgs.push(m)),
    decreases msgs.len(),
{
    if msgs.len() == 0 {
        assert(mid == pre);
        assert(msgs.push(m).first() == m);
        assert(msgs.push(m).drop_first() =~= Seq::<MessageModel>::empty());
        assert(spec_message_steps(post, post, msgs.push(m).drop_first()));
        assert(spec_message_effect(pre, post, msgs.push(m).first()));
    } else {
        let mid0 = choose|mid0: Node|
            spec_message_effect(pre, mid0, msgs.first()) && spec_message_steps(
                mid0,
                mid,
                msgs.drop_first(),
            );
        lemma_message_steps_push(mid0, mid, post, msgs.drop_first(), m);
        assert(msgs.push(m).first() == msgs.first());
        assert(msgs.push(m).drop_first() =~= msgs.drop_first().push(m));
        assert(spec_message_effect(pre, mid0, msgs.push(m).first()) && spec_message_steps(
            mid0,
            post,
            msgs.push(m).drop_first(),
        ));
    }
}

/// The message contents of a queue of messages.
pub open spec fn message_models(msgs: Seq<Message>) -> Seq<MessageModel> {
    msgs.map(|i: int, mm: Message| mm@)
}

/// What one pool drain does to a validator: from the state with the pool
/// emptied, the previously pooled messages are consumed in insertion order,
/// each through the message handler.
pub open spec fn spec_pool_drain_effect(pre: Node, post: Node) -> bool {
    exists|start: Node|
        {
            &&& start.id == pre.id
            &&& start.n == pre.n
            &&& start.chain == pre.chain
            &&& start.outgoing_messages@ == pre.outgoing_messages@
            &&& start.tx_pool@ == pre.tx_pool@
            &&& start.unprocessed_pool@.len() == 0
            &&& #[trigger] spec_message_steps(start, post, message_models(pre.unprocessed_pool@))
        }
}

/// What a proposal round does to a validator: the block `blk` is built on a
/// highest notarized parent with the height one above it, its payload packs
/// the id's decimal form and then pooled transactions greedily under the
/// length cap (consumed ones leave the pool), it joins the tree with a
/// self-vote when its epoch is positive, and a proposal message signed over
/// the proposal tag and the block's hash is queued for every peer.
pub open spec fn spec_propose_effect(pre: Node, post: Node, e: usize, blk: Block) -> bool {
    &&& blk.e == e
    &&& blk.hash_ok()
    &&& blk.parent_hash is Some
    &&& pre.chain.spec_notarized(blk.parent_hash.unwrap()@)
    &&& forall|x: Seq<u8>|
        pre.chain.spec_notarized(x) ==> pre.chain.block_of(x).e <= pre.chain.block_of(
            blk.parent_hash.unwrap()@,
        ).e
    &&& blk.height == pre.chain.block_of(blk.parent_hash.unwrap()@).height + 1
    &&& blk.txs@.len() < MAXLENGTH_TXS
    &&& ({
        let pool0 = pool_views(pre.tx_pool@);
        let start = spec_decimal(pre.id as int);
        let k = spec_pack_count(pool0, start.len() as int);
        &&& blk.txs@ == start + spec_concat(pool0.take(k))
        &&& post.tx_pool@ == pre.tx_pool@.skip(k)
    })
    &&& e >= 1 ==> post.chain.spec_contains(blk.hash@) && post.chain.voters_of(
        blk.hash@,
    ).contains(pre.id)
    &&& post.unprocessed_pool@ == pre.unprocessed_pool@
    &&& post.outgoing_messages@.len() == pre.outgoing_messages@.len() + pre.n - 1
    &&& forall|k2: int|
        0 <= k2 < pre.outgoing_messages@.len() ==> post.outgoing_messages@[k2]
            == pre.outgoing_messages@[k2]
    &&& forall|k2: int|
        pre.outgoing_messages@.len() <= k2 < post.outgoing_messages@.len() ==> (
        #[trigger] post.outgoing_messages@[k2]).1@ == MessageModel::BlockProposal(
            MsgModel {
                creator: pre.id,
                parent_hash: opt_view(blk.parent_hash),
                e: e,
                txs: blk.txs@,
                name: blk.name@,
                signer: pre.id,
                signature: (
                    pre.id as u64,
                    spec_signed_payload(MessageType::BlockProposal.spec_tag(), blk.hash@),
                ),
            },
        )
}

/// When the finalization rule fires for block `h` handed in with epoch `e`:
/// the block is not yet finalized, it and its parent are notarized, and their
/// epochs are `e` and `e - 1` (the notarized child of epoch `e + 1` is the
/// caller's premise).
pub open spec fn spec_finalize_fires(pre: Node, h: Seq<u8>, e: usize) -> bool {
    let b = pre.chain.block_of(h);
    &&& !pre.chain.spec_finalized(h)
    &&& pre.chain.spec_notarized(h)
    &&& b.e == e
    &&& b.parent_hash is Some
    &&& pre.chain.spec_notarized(b.parent_hash.unwrap()@)
    &&& pre.chain.spec_contains(b.parent_hash.unwrap()@)
    &&& pre.chain.block_of(b.parent_hash.unwrap()@).e + 1 == e
}

/// The hashes that finalizing `h` adds against the already-finalized set
/// `fin`: `h` and its ancestors, up to and excluding the nearest ancestor
/// already in `fin`, in walk order.
pub open spec fn spec_fin_segment(c: Blockchain, fin: Seq<crate::utils::Hash>, h: Seq<u8>) -> Seq<
    Seq<u8>,
>
    recommends
        c.wf(),
        c.spec_contains(h),
    decreases c.block_of(h).height
        when c.wf() && c.spec_contains(h)
        via spec_fin_segment_decreases
{
    if !c.wf() || !c.spec_contains(h) || hash_in(fin, h) {
        Seq::empty()
    } else if c.block_of(h).parent_hash is Some {
        seq![h] + spec_fin_segment(c, fin, c.block_of(h).parent_hash.unwrap()@)
    } else {
        seq![h]
    }
}

#[via_fn]
proof fn spec_fin_segment_decreases(c: Blockchain, fin: Seq<crate::utils::Hash>, h: Seq<u8>) {
    if c.wf() && c.spec_contains(h) && !hash_in(fin, h) {
        let i = c.idx_of(h);
        c.lemma_idx_of(i);
        assert(c.block_entry_wf(i));
        if c.block_of(h).parent_hash is Some {
            assert(i >= 1) by {
                if i == 0 {
                    assert(c.blocks@[0].parent_hash is None);
                }
            }
            let p = c.block_of(h).parent_hash.unwrap()@;
            assert(c.spec_contains(p));
            assert(c.block_of(h).height == c.block_of(p).height + 1);
        }
    }
}

/// What a new-epoch notification does to an honest validator: the leader of
/// the epoch proposes a block, every other validator leaves its state
/// unchanged.
pub open spec fn spec_new_epoch_effect(pre: Node, post: Node, e: usize) -> bool {
    &&& spec_leader(e, pre.n) != pre.id ==> post == pre
    &&& spec_leader(e, pre.n) == pre.id ==> exists|blk: Block|
        spec_propose_effect(pre, post, e, blk)
}

/// An honest validator. The protocol proceeds in three phases per epoch:
/// the leader of the epoch proposes a block; validators disseminate blocks,
/// vote for them, and notarize blocks with enough votes; and blocks in the
/// middle of three consecutively-numbered notarized epochs are finalized.
pub struct Node {
    /// The validator id.
    pub id: usize,
    /// The total number of validators.
    pub n: usize,
    /// The block tree.
    pub chain: Blockchain,
    /// Outgoing messages, queued and handed to the network in batches.
    pub outgoing_messages: VecDeque<(usize, Message)>,
    /// Messages that could not be processed yet (parent still unknown).
    pub unprocessed_pool: VecDeque<Message>,
    /// Transactions handed in by users, drained into proposed blocks.
    pub tx_pool: VecDeque<Vec<u8>>,
}

impl Node {
    /// Every recorded voter is a validator id.
    pub open spec fn voters_bounded(self) -> bool {
        forall|x: Seq<u8>, v: usize|
            #[trigger] self.chain.voters_of(x).contains(v) ==> v < self.n
    }

    /// Behind every notarized block but genesis stands a strict two-thirds
    /// quorum of recorded votes.
    pub open spec fn notarized_quorum(self) -> bool {
        forall|i: int|
            0 <= i < self.chain.notarized@.len() ==> {
                let h = (#[trigger] self.chain.notarized@[i])@;
                h == self.chain.genesis@ || spec_quorum(
                    self.chain.voters_of(h).len() as int,
                    self.n as int,
                )
            }
    }

    /// Every queued outgoing message is addressed to a validator.
    pub open spec fn outgoing_bounded(self) -> bool {
        forall|k: int|
            0 <= k < self.outgoing_messages@.len() ==> (#[trigger] self.outgoing_messages@[k]).0
                < self.n
    }

    /// Every pooled transaction fits the single-transaction cap.
    pub open spec fn tx_pool_bounded(self) -> bool {
        forall|k: int|
            0 <= k < self.tx_pool@.len() ==> (#[trigger] self.tx_pool@[k])@.len()
                <= MAXLENGTH_SINGLE_TX
    }

    /// The validator's invariant: a well-formed tree, an id among the n
    /// validators, bounded voters, quorums behind notarized blocks, and
    /// bounded queues.
    pub open spec fn wf(self) -> bool {
        &&& self.chain.wf()
        &&& self.n >= 1
        &&& self.id < self.n
        &&& self.voters_bounded()
        &&& self.notarized_quorum()
        &&& self.outgoing_bounded()
        &&& self.tx_pool_bounded()
    }

    /// Bounded voters and notarized quorums survive a tree change that keeps
    /// the tallies, the notarized set and the validator count.
    pub proof fn lemma_wf_votes_unchanged(pre: Node, post: Node)
        requires
            pre.wf(),
            post.chain.wf(),
            post.chain.votes@ == pre.chain.votes@,
            post.chain.notarized@ == pre.chain.notarized@,
            post.chain.genesis == pre.chain.genesis,
            post.n == pre.n,
            post.id == pre.id,
            post.outgoing_messages@ == pre.outgoing_messages@,
            post.tx_pool@ == pre.tx_pool@,
        ensures
            post.wf(),
    {
        assert forall|x: Seq<u8>, v: usize|
            #[trigger] post.chain.voters_of(x).contains(v) implies v < post.n by {
            assert(pre.chain.voters_of(x) == post.chain.voters_of(x));
        }
        assert forall|i: int| 0 <= i < post.chain.notarized@.len() implies {
            let nh = (#[trigger] post.chain.notarized@[i])@;
            nh == post.chain.genesis@ || spec_quorum(
                post.chain.voters_of(nh).len() as int,
                post.n as int,
            )
        } by {
            assert(pre.chain.voters_of(post.chain.notarized@[i]@) == post.chain.voters_of(
                post.chain.notarized@[i]@,
            ));
        }
    }

    /// Bounded voters and notarized quorums survive adding one in-range vote.
    pub proof fn lemma_wf_vote_added(pre: Node, post: Node, h: Seq<u8>, voter: usize)
        requires
            pre.wf(),
            voter < pre.n,
            post.chain.votes_wf(),
            post.chain.blocks@ == pre.chain.blocks@,
            post.chain.notarized@ == pre.chain.notarized@,
            post.chain.finalized@ == pre.chain.finalized@,
            post.chain.block_by_epoch@ == pre.chain.block_by_epoch@,
            post.chain.genesis == pre.chain.genesis,
            post.n == pre.n,
            post.id == pre.id,
            post.outgoing_messages@ == pre.outgoing_messages@,
            post.tx_pool@ == pre.tx_pool@,
            post.chain.voters_of(h) == (if pre.chain.voters_of(h).contains(voter) {
                pre.chain.voters_of(h)
            } else {
                pre.chain.voters_of(h).push(voter)
            }),
            forall|x: Seq<u8>| x != h ==> post.chain.voters_of(x) == pre.chain.voters_of(x),
        ensures
            post.wf(),
    {
        Blockchain::lemma_blocks_wf_congruent(pre.chain, post.chain);
        Blockchain::lemma_notarized_wf_congruent(pre.chain, post.chain);
        Blockchain::lemma_finalized_wf_congruent(pre.chain, post.chain);
        Blockchain::lemma_epochs_wf_congruent(pre.chain, post.chain);
        assert forall|x: Seq<u8>, v: usize|
            #[trigger] post.chain.voters_of(x).contains(v) implies v < post.n by {
            if x == h {
                if !pre.chain.voters_of(x).contains(v) {
                    let w = pre.chain.voters_of(x).push(voter);
                    let j = choose|j: int| 0 <= j < w.len() && w[j] == v;
                    if j < w.len() - 1 {
                        assert(pre.chain.voters_of(x).contains(v));
                    }
                }
            } else {
                assert(pre.chain.voters_of(x).contains(v));
            }
        }
        assert forall|i: int| 0 <= i < post.chain.notarized@.len() implies {
            let nh = (#[trigger] post.chain.notarized@[i])@;
            nh == post.chain.genesis@ || spec_quorum(
                post.chain.voters_of(nh).len() as int,
                post.n as int,
            )
        } by {
            let nh = post.chain.notarized@[i]@;
            if nh != post.chain.genesis@ {
                assert(spec_quorum(pre.chain.voters_of(nh).len() as int, pre.n as int));
                if nh == h {
                    assert(post.chain.voters_of(nh).len() >= pre.chain.voters_of(nh).len());
                } else {
                    assert(post.chain.voters_of(nh) == pre.chain.voters_of(nh));
                }
            }
        }
    }

    /// The standing invariants of a well-formed validator, spelled out:
    /// every non-genesis block's parent is a block of the tree; every
    /// finalized block other than genesis has a finalized parent; behind
    /// every notarized block other than genesis stands a strict two-thirds
    /// quorum of recorded votes; and no vote tally records a validator twice.
    pub proof fn lemma_wf_invariants(node: Node)
        requires
            node.wf(),
        ensures
            forall|i: int|
                1 <= i < node.chain.blocks@.len() ==> node.chain.spec_contains(
                    (#[trigger] node.chain.blocks@[i]).parent_hash.unwrap()@,
                ),
            forall|i: int|
                0 <= i < node.chain.finalized@.len() ==> {
                    let h = (#[trigger] node.chain.finalized@[i])@;
                    h == node.chain.genesis@ || node.chain.spec_finalized(
                        node.chain.block_of(h).parent_hash.unwrap()@,
                    )
                },
            forall|i: int|
                0 <= i < node.chain.notarized@.len() ==> {
                    let h = (#[trigger] node.chain.notarized@[i])@;
                    h == node.chain.genesis@ || spec_quorum(
                        node.chain.voters_of(h).len() as int,
                        node.n as int,
                    )
                },
            forall|i: int|
                0 <= i < node.chain.votes@.len() ==> ids_nodup(
                    (#[trigger] node.chain.votes@[i]).voters@,
                ),
    {
        assert forall|i: int|
            1 <= i < node.chain.blocks@.len() implies node.chain.spec_contains(
            (#[trigger] node.chain.blocks@[i]).parent_hash.unwrap()@,
        ) by {
            assert(node.chain.block_entry_wf(i));
        }
    }

    /// Creates a validator with an empty tree (genesis only) and empty queues.
    pub fn new(id: usize, n: usize) -> (r: Node)
        requires
            n >= 1,
            id < n,
        ensures
            r.wf(),
            r.id == id,
            r.n == n,
            r.chain.blocks@.len() == 1,
            r.chain.votes@.len() == 0,
            r.chain.notarized@.len() == 1,
            r.chain.finalized@.len() == 1,
            r.outgoing_messages@.len() == 0,
            r.unprocessed_pool@.len() == 0,
            r.tx_pool@.len() == 0,
    {
        let r = Node {
            id,
            n,
            chain: Blockchain::new(id),
            outgoing_messages: VecDeque::new(),
            unprocessed_pool: VecDeque::new(),
            tx_pool: VecDeque::new(),
        };
        proof {
            assert forall|x: Seq<u8>, v: usize|
                #[trigger] r.chain.voters_of(x).contains(v) implies v < r.n by {
                assert(r.chain.voters_of(x) == Seq::<usize>::empty());
            }
            assert(r.chain.notarized@[0]@ == r.chain.genesis@);
        }
        r
    }

    /// Computes the leader id of epoch `e`: the short hash of the epoch hash,
    /// modulo n. Deterministic and agreed by all validators.
    pub fn leader(&self, e: usize) -> (r: usize)
        requires
            self.n >= 1,
        ensures
            r == spec_leader(e, self.n),
            r < self.n,
    {
        let h = Crypto::sha256_var(e);
        Crypto::short_hash(h.as_slice()) % self.n
    }

    /// Checks whether a transaction is over the single-transaction cap (a
    /// result of true means the transaction is rejected).
    fn validate_transaction(&self, tx: &[u8]) -> (r: bool)
        ensures
            r == (tx@.len() > MAXLENGTH_SINGLE_TX),
    {
        tx.len() > MAXLENGTH_SINGLE_TX
    }

    /// Accepts a transaction into the pool iff its length is at most
    /// MAXLENGTH_SINGLE_TX; an over-long transaction is dropped.
    pub fn send_transaction(&mut self, tx: Vec<u8>)
        requires
            old(self).wf(),
        ensures
            final(self).wf(),
            tx@.len() > MAXLENGTH_SINGLE_TX ==> *final(self) == *old(self),
            tx@.len() <= MAXLENGTH_SINGLE_TX ==> final(self).tx_pool@ == old(self).tx_pool@.push(
                tx,
            ),
            final(self).chain == old(self).chain,
            final(self).outgoing_messages@ == old(self).outgoing_messages@,
            final(self).unprocessed_pool@ == old(self).unprocessed_pool@,
            final(self).id == old(self).id,
            final(self).n == old(self).n,
    {
        if self.validate_transaction(tx.as_slice()) {
            return ;
        }
        self.tx_pool.push_back(tx);
    }

    /// Queues a copy of the message for every peer, in increasing id order.
    pub fn broadcast_message(&mut self, m: Message)
        requires
            old(self).wf(),
        ensures
            final(self).wf(),
            final(self).chain == old(self).chain,
            final(self).unprocessed_pool@ == old(self).unprocessed_pool@,
            final(self).tx_pool@ == old(self).tx_pool@,
            final(self).id == old(self).id,
            final(self).n == old(self).n,
            final(self).outgoing_messages@.len() == old(self).outgoing_messages@.len() + old(self).n
                - 1,
            forall|k: int|
                0 <= k < old(self).outgoing_messages@.len() ==> final(self).outgoing_messages@[k]
                    == old(self).outgoing_messages@[k],
            forall|k: int|
                old(self).outgoing_messages@.len() <= k < final(self).outgoing_messages@.len()
                    ==> {
                    let t = k - old(self).outgoing_messages@.len();
                    let recv: int = if t < old(self).id { t } else { t + 1 };
                    (#[trigger] final(self).outgoing_messages@[k]).0 == recv && final(self).outgoing_messages@[k].1@ == m@
                },
    {
        let ghost base = self.outgoing_messages@.len() as int;
        let mut i: usize = 0;
        while i < self.n
            invariant
                self.wf(),
                i <= self.n,
                self.chain == old(self).chain,
                self.unprocessed_pool@ == old(self).unprocessed_pool@,
                self.tx_pool@ == old(self).tx_pool@,
                self.id == old(self).id,
                self.n == old(self).n,
                base == old(self).outgoing_messages@.len(),
                self.outgoing_messages@.len() == base + (if i <= self.id {
                    i as int
                } else {
                    i - 1
                }),
                forall|k: int|
                    0 <= k < base ==> self.outgoing_messages@[k]
                        == old(self).outgoing_messages@[k],
                forall|k: int|
                    base <= k < self.outgoing_messages@.len() ==> {
                        let t = k - base;
                        let recv: int = if t < self.id { t } else { t + 1 };
                        (#[trigger] self.outgoing_messages@[k]).0 == recv
                            && self.outgoing_messages@[k].1@ == m@
                    },
            decreases self.n - i,
        {
            if i != self.id {
                self.outgoing_messages.push_back((i, m.dup()));
            }
            i += 1;
        }
    }

    /// Returns the queued outgoing messages and clears the queue.
    pub fn clear_outgoing_messages(&mut self) -> (r: Vec<(usize, Message)>)
        requires
            old(self).wf(),
        ensures
            final(self).wf(),
            final(self).chain == old(self).chain,
            final(self).unprocessed_pool@ == old(self).unprocessed_pool@,
            final(self).tx_pool@ == old(self).tx_pool@,
            final(self).id == old(self).id,
            final(self).n == old(self).n,
            final(self).outgoing_messages@.len() == 0,
            r@ == old(self).outgoing_messages@,
            forall|k: int| 0 <= k < r@.len() ==> (#[trigger] r@[k]).0 < old(self).n,
    {
        let mut out: Vec<(usize, Message)> = Vec::new();
        loop
            invariant
                self.wf(),
                self.chain == old(self).chain,
                self.unprocessed_pool@ == old(self).unprocessed_pool@,
                self.tx_pool@ == old(self).tx_pool@,
                self.id == old(self).id,
                self.n == old(self).n,
                out@ + self.outgoing_messages@ == old(self).outgoing_messages@,
            ensures
                self.outgoing_messages@.len() == 0,
                out@ == old(self).outgoing_messages@,
            decreases self.outgoing_messages@.len(),
        {
            match self.outgoing_messages.pop_front() {
                Some(m) => {
                    out.push(m);
                    proof {
                        assert(out@ + self.outgoing_messages@ =~= old(self).outgoing_messages@);
                    }
                },
                None => {
                    proof {
                        assert(out@ + self.outgoing_messages@ =~= out@);
                    }
                    break ;
                },
            }
        }
        out
    }

    /// Attempts to finalize a notarized block `block_hash`, called when a
    /// notarized child of epoch `e + 1` exists. When the block's epoch is `e`
    /// and its parent's epoch is `e - 1` — three consecutively numbered
    /// notarized epochs in a straight line — the block and all its not yet
    /// finalized ancestors become final. When the rule's conditions do not
    /// hold, the state is left unchanged.
    pub fn finalize(&mut self, block_hash: crate::utils::Hash, e: usize)
        requires
            old(self).wf(),
            old(self).chain.spec_contains(block_hash@),
        ensures
            final(self).wf(),
            final(self).id == old(self).id,
            final(self).n == old(self).n,
            final(self).chain.blocks@ == old(self).chain.blocks@,
            final(self).chain.votes@ == old(self).chain.votes@,
            final(self).chain.notarized@ == old(self).chain.notarized@,
            final(self).chain.block_by_epoch@ == old(self).chain.block_by_epoch@,
            final(self).chain.genesis == old(self).chain.genesis,
            final(self).chain.id == old(self).chain.id,
            final(self).outgoing_messages@ == old(self).outgoing_messages@,
            final(self).unprocessed_pool@ == old(self).unprocessed_pool@,
            final(self).tx_pool@ == old(self).tx_pool@,
            forall|x: Seq<u8>|
                old(self).chain.spec_finalized(x) ==> final(self).chain.spec_finalized(x),
            !spec_finalize_fires(*old(self), block_hash@, e) ==> *final(self) == *old(self),
            spec_finalize_fires(*old(self), block_hash@, e) ==> {
                &&& final(self).chain.spec_finalized(block_hash@)
                &&& view_seq(final(self).chain.finalized@) == view_seq(
                    old(self).chain.finalized@,
                ) + spec_fin_segment(old(self).chain, old(self).chain.finalized@, block_hash@)
            },
    {
        if hash_vec_contains(&self.chain.finalized, &block_hash) {
            return ;
        }
        let bidx = self.chain.find_block(&block_hash).unwrap();
        proof {
            self.chain.lemma_idx_of(bidx as int);
            assert(self.chain.block_entry_wf(bidx as int));
            if bidx == 0 {
                assert(self.chain.spec_finalized(self.chain.genesis@));
                assert(false);
            }
        }
        let parent_hash = self.chain.blocks[bidx].parent_hash.unwrap();
        if !hash_vec_contains(&self.chain.notarized, &parent_hash) {
            // an internal invariant would be breached; refuse and keep state
            return ;
        }
        if !hash_vec_contains(&self.chain.notarized, &block_hash) {
            return ;
        }
        let be = self.chain.blocks[bidx].e;
        let pidx = self.chain.find_block(&parent_hash).unwrap();
        proof {
            self.chain.lemma_idx_of(pidx as int);
        }
        let pe = self.chain.blocks[pidx].e;
        if be == e && e >= 1 && pe == e - 1 {
            let mut h = block_hash;
            let mut h_fin = false;
            proof {
                assert(!self.chain.spec_finalized(h@));
            }
            while !h_fin
                invariant
                    self.id == old(self).id,
                    self.n == old(self).n,
                    self.chain.blocks@ == old(self).chain.blocks@,
                    self.chain.votes@ == old(self).chain.votes@,
                    self.chain.notarized@ == old(self).chain.notarized@,
                    self.chain.block_by_epoch@ == old(self).chain.block_by_epoch@,
                    self.chain.genesis == old(self).chain.genesis,
                    self.chain.id == old(self).chain.id,
                    self.outgoing_messages@ == old(self).outgoing_messages@,
                    self.unprocessed_pool@ == old(self).unprocessed_pool@,
                    self.tx_pool@ == old(self).tx_pool@,
                    old(self).wf(),
                    old(self).chain.spec_contains(block_hash@),
                    self.chain.spec_contains(h@),
                    h_fin == self.chain.spec_finalized(h@),
                    hashes_nodup(self.chain.finalized@),
                    forall|i: int|
                        0 <= i < self.chain.finalized@.len() ==> self.chain.spec_contains(
                            (#[trigger] self.chain.finalized@[i])@,
                        ),
                    hash_in(self.chain.finalized@, self.chain.genesis@),
                    forall|i: int|
                        0 <= i < self.chain.finalized@.len() ==> {
                            let fh = (#[trigger] self.chain.finalized@[i])@;
                            ||| fh == self.chain.genesis@
                            ||| self.chain.spec_finalized(
                                self.chain.block_of(fh).parent_hash.unwrap()@,
                            )
                            ||| self.chain.block_of(fh).parent_hash.unwrap()@ == h@
                        },
                    forall|j: int|
                        0 <= j < old(self).chain.finalized@.len()
                            ==> self.chain.finalized@[j] == old(self).chain.finalized@[j],
                    self.chain.finalized@.len() >= old(self).chain.finalized@.len(),
                    hash_in(self.chain.finalized@, block_hash@) || (h == block_hash && !h_fin),
                    spec_fin_segment(old(self).chain, old(self).chain.finalized@, block_hash@)
                        == view_seq(self.chain.finalized@).skip(
                        old(self).chain.finalized@.len() as int,
                    ) + spec_fin_segment(old(self).chain, old(self).chain.finalized@, h@),
                    forall|j: int|
                        old(self).chain.finalized@.len() <= j < self.chain.finalized@.len()
                            ==> old(self).chain.block_of(
                            (#[trigger] self.chain.finalized@[j])@,
                        ).height > old(self).chain.block_of(h@).height,
                decreases self.chain.block_of(h@).height,
            {
                proof {
                    // h is not finalized, so it is not genesis and has a
                    // stored parent one height down, and it is not one of the
                    // hashes of the old finalized set either
                    Blockchain::lemma_blocks_wf_congruent(old(self).chain, self.chain);
                    let hidx = self.chain.idx_of(h@);
                    self.chain.lemma_idx_of(hidx);
                    if hidx == 0 {
                        assert(h@ == self.chain.genesis@);
                        assert(false);
                    }
                    assert(self.chain.block_entry_wf(hidx));
                    assert(!hash_in(old(self).chain.finalized@, h@)) by {
                        if hash_in(old(self).chain.finalized@, h@) {
                            let g = choose|j: int|
                                0 <= j < old(self).chain.finalized@.len() && (#[trigger] old(
                                    self,
                                ).chain.finalized@[j])@ == h@;
                            assert(self.chain.finalized@[g]@ == h@);
                            assert(self.chain.spec_finalized(h@));
                        }
                    }
                }
                let ghost prev = *self;
                self.chain.finalized.push(h);
                proof {
                    assert(forall|j: int|
                        0 <= j < prev.chain.finalized@.len() ==> self.chain.finalized@[j]
                            == prev.chain.finalized@[j]);
                    assert(self.chain.finalized@.last() == h);
                    assert(hash_in(self.chain.finalized@, h@));
                    assert(hashes_nodup(self.chain.finalized@)) by {
                        assert(forall|j: int|
                            0 <= j < prev.chain.finalized@.len()
                                ==> (#[trigger] prev.chain.finalized@[j])@ != h@);
                    }
                    assert(hash_in(self.chain.finalized@, self.chain.genesis@)) by {
                        let g = choose|j: int|
                            0 <= j < prev.chain.finalized@.len() && prev.chain.finalized@[j]@
                                == prev.chain.genesis@;
                        assert(self.chain.finalized@[g]@ == self.chain.genesis@);
                    }
                    assert(hash_in(self.chain.finalized@, block_hash@)) by {
                        if h != block_hash {
                            let g = choose|j: int|
                                0 <= j < prev.chain.finalized@.len() && prev.chain.finalized@[j]@
                                    == block_hash@;
                            assert(self.chain.finalized@[g]@ == block_hash@);
                        }
                    }
                }
                let hidx2 = self.chain.find_block(&h).unwrap();
                proof {
                    self.chain.lemma_idx_of(hidx2 as int);
                }
                let ghost h_old = h;
                h = self.chain.blocks[hidx2].parent_hash.unwrap();
                proof {
                    assert(self.chain.spec_contains(h@));
                    assert(self.chain.block_of(h@).height + 1 == self.chain.block_of(
                        h_old@,
                    ).height);
                    // the walk's added segment extends by exactly h_old
                    let c0 = old(self).chain;
                    let fin0 = old(self).chain.finalized@;
                    assert(c0.block_of(h_old@) == self.chain.block_of(h_old@));
                    assert(c0.block_of(h_old@).parent_hash.unwrap()@ == h@);
                    assert(spec_fin_segment(c0, fin0, h_old@) == seq![h_old@]
                        + spec_fin_segment(c0, fin0, h@));
                    assert(view_seq(self.chain.finalized@).skip(fin0.len() as int)
                        =~= view_seq(prev.chain.finalized@).skip(fin0.len() as int).push(
                        h_old@,
                    ));
                    assert(view_seq(prev.chain.finalized@).skip(fin0.len() as int).push(h_old@)
                        + spec_fin_segment(c0, fin0, h@) =~= view_seq(
                        prev.chain.finalized@,
                    ).skip(fin0.len() as int) + (seq![h_old@] + spec_fin_segment(c0, fin0, h@)));
                    assert(spec_fin_segment(c0, fin0, block_hash@) == view_seq(
                        self.chain.finalized@,
                    ).skip(fin0.len() as int) + spec_fin_segment(c0, fin0, h@));
                    assert forall|j: int|
                        fin0.len() <= j < self.chain.finalized@.len() implies old(
                        self,
                    ).chain.block_of((#[trigger] self.chain.finalized@[j])@).height > old(
                        self,
                    ).chain.block_of(h@).height by {
                        if j < self.chain.finalized@.len() - 1 {
                            assert(self.chain.finalized@[j] == prev.chain.finalized@[j]);
                            assert(c0.block_of(prev.chain.finalized@[j]@).height > c0.block_of(
                                h_old@,
                            ).height);
                        } else {
                            assert(self.chain.finalized@[j]@ == h_old@);
                        }
                    }
                    // the closure with pending parent h is preserved
                    assert forall|i: int| 0 <= i < self.chain.finalized@.len() implies {
                        let fh = (#[trigger] self.chain.finalized@[i])@;
                        ||| fh == self.chain.genesis@
                        ||| self.chain.spec_finalized(
                            self.chain.block_of(fh).parent_hash.unwrap()@,
                        )
                        ||| self.chain.block_of(fh).parent_hash.unwrap()@ == h@
                    } by {
                        let fh = self.chain.finalized@[i]@;
                        if i < self.chain.finalized@.len() - 1 {
                            if fh != self.chain.genesis@ {
                                if self.chain.block_of(fh).parent_hash.unwrap()@ == h_old@ {
                                    assert(self.chain.spec_finalized(h_old@));
                                } else if prev.chain.spec_finalized(
                                    self.chain.block_of(fh).parent_hash.unwrap()@,
                                ) {
                                    let p = self.chain.block_of(fh).parent_hash.unwrap()@;
                                    let g = choose|j: int|
                                        0 <= j < prev.chain.finalized@.len()
                                            && prev.chain.finalized@[j]@ == p;
                                    assert(self.chain.finalized@[g]@ == p);
                                }
                            }
                        } else {
                            assert(fh == h_old@);
                        }
                    }
                }
                h_fin = hash_vec_contains(&self.chain.finalized, &h);
            }
            proof {
                // the walk stopped at a block of the old finalized set: its
                // height is below everything added, so it is not an addition
                let c0 = old(self).chain;
                let fin0 = old(self).chain.finalized@;
                assert(hash_in(fin0, h@)) by {
                    let g = choose|j: int|
                        0 <= j < self.chain.finalized@.len() && (
                        #[trigger] self.chain.finalized@[j])@ == h@;
                    if g >= fin0.len() {
                        assert(c0.block_of(self.chain.finalized@[g]@).height > c0.block_of(
                            h@,
                        ).height);
                    } else {
                        assert(fin0[g]@ == h@);
                    }
                }
                assert(spec_fin_segment(c0, fin0, h@) == Seq::<Seq<u8>>::empty());
                assert(spec_fin_segment(c0, fin0, block_hash@) == view_seq(
                    self.chain.finalized@,
                ).skip(fin0.len() as int) + Seq::<Seq<u8>>::empty());
                assert(view_seq(self.chain.finalized@).skip(fin0.len() as int)
                    + Seq::<Seq<u8>>::empty() =~= view_seq(self.chain.finalized@).skip(
                    fin0.len() as int,
                ));
                assert(view_seq(self.chain.finalized@) =~= view_seq(fin0) + view_seq(
                    self.chain.finalized@,
                ).skip(fin0.len() as int));
                assert(view_seq(self.chain.finalized@) == view_seq(fin0) + spec_fin_segment(
                    c0,
                    fin0,
                    block_hash@,
                ));
                // the walk stopped at a finalized block, closing the chain
                assert forall|i: int| 0 <= i < self.chain.finalized@.len() implies {
                    let fh = (#[trigger] self.chain.finalized@[i])@;
                    fh == self.chain.genesis@ || self.chain.spec_finalized(
                        self.chain.block_of(fh).parent_hash.unwrap()@,
                    )
                } by {
                    let fh = self.chain.finalized@[i]@;
                    if fh != self.chain.genesis@ && self.chain.block_of(
                        fh,
                    ).parent_hash.unwrap()@ == h@ {
                        assert(self.chain.spec_finalized(h@));
                    }
                }
                assert(self.chain.finalized_wf());
                Blockchain::lemma_blocks_wf_congruent(old(self).chain, self.chain);
                Blockchain::lemma_votes_wf_congruent(old(self).chain, self.chain);
                Blockchain::lemma_notarized_wf_congruent(old(self).chain, self.chain);
                Blockchain::lemma_epochs_wf_congruent(old(self).chain, self.chain);
                assert(self.chain.wf());
                assert(self.wf()) by {
                    assert forall|x: Seq<u8>, v: usize|
                        #[trigger] self.chain.voters_of(x).contains(v) implies v < self.n by {
                        assert(old(self).chain.voters_of(x).contains(v));
                    }
                    assert forall|i: int| 0 <= i < self.chain.notarized@.len() implies {
                        let nh = (#[trigger] self.chain.notarized@[i])@;
                        nh == self.chain.genesis@ || spec_quorum(
                            self.chain.voters_of(nh).len() as int,
                            self.n as int,
                        )
                    } by {
                        assert(old(self).chain.notarized@[i] == self.chain.notarized@[i]);
                        assert(old(self).chain.voters_of(self.chain.notarized@[i]@)
                            == self.chain.voters_of(self.chain.notarized@[i]@));
                    }
                }
                assert forall|x: Seq<u8>|
                    old(self).chain.spec_finalized(x) implies self.chain.spec_finalized(x) by {
                    let g = choose|j: int|
                        0 <= j < old(self).chain.finalized@.len() && old(self).chain.finalized@[j]@ == x;
                    assert(self.chain.finalized@[g]@ == x);
                }
            }
        }
    }

    /// Attempts to notarize a block given the recorded votes: strictly more
    /// than two thirds of the validators must have voted for it. On success
    /// the block joins the notarized set and its parent is handed to the
    /// finalization rule with the preceding epoch number.
    pub fn notarize(&mut self, block_hash: crate::utils::Hash)
        requires
            old(self).wf(),
            old(self).chain.spec_contains(block_hash@),
        ensures
            final(self).wf(),
            final(self).id == old(self).id,
            final(self).n == old(self).n,
            final(self).chain.blocks@ == old(self).chain.blocks@,
            final(self).chain.votes@ == old(self).chain.votes@,
            final(self).chain.block_by_epoch@ == old(self).chain.block_by_epoch@,
            final(self).chain.genesis == old(self).chain.genesis,
            final(self).chain.id == old(self).chain.id,
            final(self).outgoing_messages@ == old(self).outgoing_messages@,
            final(self).unprocessed_pool@ == old(self).unprocessed_pool@,
            final(self).tx_pool@ == old(self).tx_pool@,
            forall|x: Seq<u8>|
                old(self).chain.spec_notarized(x) ==> final(self).chain.spec_notarized(x),
            forall|x: Seq<u8>|
                old(self).chain.spec_finalized(x) ==> final(self).chain.spec_finalized(x),
            !spec_quorum(old(self).chain.voters_of(block_hash@).len() as int, old(self).n as int)
                ==> *final(self) == *old(self),
            spec_quorum(old(self).chain.voters_of(block_hash@).len() as int, old(self).n as int)
                ==> final(self).chain.spec_notarized(block_hash@),
            ({
                let b = old(self).chain.block_of(block_hash@);
                let p = b.parent_hash.unwrap()@;
                spec_quorum(
                    old(self).chain.voters_of(block_hash@).len() as int,
                    old(self).n as int,
                ) && b.parent_hash is Some && !old(self).chain.spec_finalized(p) && old(
                    self,
                ).chain.spec_notarized(p) && old(self).chain.spec_contains(p) && old(
                    self,
                ).chain.block_of(p).parent_hash is Some && old(self).chain.spec_notarized(
                    old(self).chain.block_of(p).parent_hash.unwrap()@,
                ) && old(self).chain.block_of(
                    old(self).chain.block_of(p).parent_hash.unwrap()@,
                ).e + 2 == b.e && old(self).chain.block_of(p).e + 1 == b.e
            }) ==> final(self).chain.spec_finalized(
                old(self).chain.block_of(block_hash@).parent_hash.unwrap()@,
            ),
    {
        let count = self.chain.voters_count(&block_hash);
        if !(3 * (count as u128) > 2 * (self.n as u128)) {
            return ;
        }
        let ghost pre = *self;
        if !hash_vec_contains(&self.chain.notarized, &block_hash) {
            self.chain.notarized.push(block_hash);
            proof {
                assert(forall|j: int|
                    0 <= j < pre.chain.notarized@.len() ==> self.chain.notarized@[j]
                        == pre.chain.notarized@[j]);
                assert(self.chain.notarized@.last() == block_hash);
                assert(hashes_nodup(self.chain.notarized@)) by {
                    assert(forall|j: int|
                        0 <= j < pre.chain.notarized@.len()
                            ==> (#[trigger] pre.chain.notarized@[j])@ != block_hash@);
                }
                assert(hash_in(self.chain.notarized@, self.chain.genesis@)) by {
                    let g = choose|j: int|
                        0 <= j < pre.chain.notarized@.len() && pre.chain.notarized@[j]@
                            == pre.chain.genesis@;
                    assert(self.chain.notarized@[g]@ == self.chain.genesis@);
                }
                assert(self.chain.notarized_wf()) by {
                    assert forall|i: int| 0 <= i < self.chain.notarized@.len() implies self
                        .chain.spec_contains((#[trigger] self.chain.notarized@[i])@) by {
                        if i < pre.chain.notarized@.len() {
                            assert(pre.chain.spec_contains(pre.chain.notarized@[i]@));
                        }
                    }
                }
                Blockchain::lemma_blocks_wf_congruent(pre.chain, self.chain);
                Blockchain::lemma_votes_wf_congruent(pre.chain, self.chain);
                Blockchain::lemma_finalized_wf_congruent(pre.chain, self.chain);
                Blockchain::lemma_epochs_wf_congruent(pre.chain, self.chain);
                assert(self.chain.wf());
                assert(self.wf()) by {
                    assert forall|x: Seq<u8>, v: usize|
                        #[trigger] self.chain.voters_of(x).contains(v) implies v < self.n by {
                        assert(pre.chain.voters_of(x).contains(v));
                    }
                    assert forall|i: int| 0 <= i < self.chain.notarized@.len() implies {
                        let nh = (#[trigger] self.chain.notarized@[i])@;
                        nh == self.chain.genesis@ || spec_quorum(
                            self.chain.voters_of(nh).len() as int,
                            self.n as int,
                        )
                    } by {
                        if i < pre.chain.notarized@.len() {
                            assert(pre.chain.notarized@[i] == self.chain.notarized@[i]);
                        } else {
                            assert(self.chain.notarized@[i]@ == block_hash@);
                            assert(spec_quorum(
                                self.chain.voters_of(block_hash@).len() as int,
                                self.n as int,
                            ));
                        }
                    }
                }
                assert(self.chain.spec_notarized(block_hash@));
            }
        } else {
            proof {
                assert(self.chain.spec_notarized(block_hash@));
            }
        }
        let ghost mid = *self;
        let bidx = self.chain.find_block(&block_hash).unwrap();
        proof {
            self.chain.lemma_idx_of(bidx as int);
            assert(self.chain.block_entry_wf(bidx as int));
        }
        match self.chain.blocks[bidx].parent_hash {
            None => {
                // only the genesis block has no parent; nothing to finalize
            },
            Some(parent_hash) => {
                let e = self.chain.blocks[bidx].e;
                proof {
                    if bidx == 0 {
                        assert(false);
                    }
                    assert(e >= 1);
                }
                self.finalize(parent_hash, e - 1);
                proof {
                    assert forall|x: Seq<u8>|
                        pre.chain.spec_notarized(x) implies self.chain.spec_notarized(x) by {
                        let g = choose|j: int|
                            0 <= j < pre.chain.notarized@.len() && pre.chain.notarized@[j]@ == x;
                        assert(mid.chain.notarized@[g]@ == x);
                    }
                    assert(self.chain.spec_notarized(block_hash@)) by {
                        assert(mid.chain.spec_notarized(block_hash@));
                    }
                }
            },
        }
        proof {
            assert forall|x: Seq<u8>|
                pre.chain.spec_notarized(x) implies self.chain.spec_notarized(x) by {
                let g = choose|j: int|
                    0 <= j < pre.chain.notarized@.len() && pre.chain.notarized@[j]@ == x;
                assert(mid.chain.notarized@[g]@ == x);
            }
            assert forall|x: Seq<u8>|
                pre.chain.spec_finalized(x) implies self.chain.spec_finalized(x) by {
                let g = choose|j: int|
                    0 <= j < pre.chain.finalized@.len() && pre.chain.finalized@[j]@ == x;
                assert(mid.chain.finalized@[g]@ == x);
            }
        }
    }

    /// Builds a block payload: the proposer id's decimal form first, then
    /// pooled transactions in FIFO order while the running length stays under
    /// MAXLENGTH_TXS; the consumed transactions leave the pool. The payload
    /// always stays strictly under MAXLENGTH_TXS.
    fn build_block_txs(&mut self, id: usize) -> (r: Vec<u8>)
        requires
            old(self).wf(),
        ensures
            final(self).wf(),
            final(self).chain == old(self).chain,
            final(self).outgoing_messages@ == old(self).outgoing_messages@,
            final(self).unprocessed_pool@ == old(self).unprocessed_pool@,
            final(self).id == old(self).id,
            final(self).n == old(self).n,
            r@.len() < MAXLENGTH_TXS,
            ({
                let pool0 = pool_views(old(self).tx_pool@);
                let start = spec_decimal(id as int);
                let k = spec_pack_count(pool0, start.len() as int);
                &&& r@ == start + spec_concat(pool0.take(k))
                &&& final(self).tx_pool@ == old(self).tx_pool@.skip(k)
            }),
    {
        let mut txs = usize_to_decimal(id);
        let ghost pool0 = pool_views(old(self).tx_pool@);
        let ghost start = spec_decimal(id as int);
        let ghost mut consumed: int = 0;
        proof {
            assert(txs@ =~= start + spec_concat(pool0.take(0))) by {
                assert(pool0.take(0) =~= Seq::<Seq<u8>>::empty());
                assert(spec_concat(Seq::<Seq<u8>>::empty()) == Seq::<u8>::empty());
                assert(start + Seq::<u8>::empty() =~= start);
            }
        }
        loop
            invariant
                self.wf(),
                self.chain == old(self).chain,
                self.outgoing_messages@ == old(self).outgoing_messages@,
                self.unprocessed_pool@ == old(self).unprocessed_pool@,
                self.id == old(self).id,
                self.n == old(self).n,
                0 <= consumed <= pool0.len(),
                pool0 == pool_views(old(self).tx_pool@),
                start == spec_decimal(id as int),
                self.tx_pool@ == old(self).tx_pool@.skip(consumed),
                txs@ == start + spec_concat(pool0.take(consumed)),
                txs@.len() < MAXLENGTH_TXS,
                spec_pack_count(pool0, start.len() as int) == consumed + spec_pack_count(
                    pool_views(self.tx_pool@),
                    txs@.len() as int,
                ),
            ensures
                txs@ == start + spec_concat(pool0.take(spec_pack_count(
                    pool0,
                    start.len() as int,
                ))),
                self.tx_pool@ == old(self).tx_pool@.skip(spec_pack_count(
                    pool0,
                    start.len() as int,
                )),
                txs@.len() < MAXLENGTH_TXS,
                self.wf(),
                self.chain == old(self).chain,
                self.outgoing_messages@ == old(self).outgoing_messages@,
                self.unprocessed_pool@ == old(self).unprocessed_pool@,
                self.id == old(self).id,
                self.n == old(self).n,
            decreases self.tx_pool@.len(),
        {
            let ghost cur = self.tx_pool@;
            if self.tx_pool.len() == 0 {
                proof {
                    assert(spec_pack_count(pool_views(cur), txs@.len() as int) == 0);
                }
                break ;
            }
            let tx = self.tx_pool.pop_front().unwrap();
            if tx.len() + txs.len() < MAXLENGTH_TXS {
                proof {
                    assert(pool_views(cur)[0] == tx@);
                    assert(pool_views(cur).drop_first() =~= pool_views(self.tx_pool@));
                    assert(spec_pack_count(pool_views(cur), txs@.len() as int) == 1
                        + spec_pack_count(
                        pool_views(self.tx_pool@),
                        txs@.len() + tx@.len() as int,
                    ));
                    assert(pool0.take(consumed + 1) =~= pool0.take(consumed).push(
                        pool0[consumed],
                    ));
                    assert(pool0[consumed] == tx@) by {
                        assert(old(self).tx_pool@.skip(consumed)[0] == old(self).tx_pool@[consumed]);
                    }
                    lemma_concat_push(pool0.take(consumed), tx@);
                    assert(self.tx_pool@ =~= old(self).tx_pool@.skip(consumed + 1));
                }
                push_bytes(&mut txs, tx.as_slice());
                proof {
                    consumed = consumed + 1;
                    assert(txs@ =~= start + spec_concat(pool0.take(consumed)));
                }
            } else {
                self.tx_pool.push_front(tx);
                proof {
                    assert(self.tx_pool@ =~= cur);
                    assert(pool_views(cur)[0] == tx@);
                    assert(spec_pack_count(pool_views(cur), txs@.len() as int) == 0);
                }
                break ;
            }
        }
        txs
    }

    /// Builds a block for epoch `e` on the given parent: the payload is
    /// packed from the pool, the name is a debugging tag, and the height is
    /// one above the parent's.
    fn build_block(&mut self, parent_hash: crate::utils::Hash, e: usize) -> (r: Block)
        requires
            old(self).wf(),
            old(self).chain.spec_contains(parent_hash@),
        ensures
            final(self).wf(),
            final(self).chain == old(self).chain,
            final(self).outgoing_messages@ == old(self).outgoing_messages@,
            final(self).unprocessed_pool@ == old(self).unprocessed_pool@,
            final(self).id == old(self).id,
            final(self).n == old(self).n,
            r.parent_hash == Some(parent_hash),
            r.e == e,
            r.hash_ok(),
            r.height == old(self).chain.block_of(parent_hash@).height + 1,
            r.txs@.len() < MAXLENGTH_TXS,
            r.children@.len() == 0,
            ({
                let pool0 = pool_views(old(self).tx_pool@);
                let start = spec_decimal(old(self).id as int);
                let k = spec_pack_count(pool0, start.len() as int);
                &&& r.txs@ == start + spec_concat(pool0.take(k))
                &&& final(self).tx_pool@ == old(self).tx_pool@.skip(k)
            }),
    {
        let txs = self.build_block_txs(self.id);
        let mut name = usize_to_decimal(e);
        name.push(47u8);
        let id_dec = usize_to_decimal(self.id);
        push_bytes(&mut name, id_dec.as_slice());
        let pidx = self.chain.find_block(&parent_hash).unwrap();
        proof {
            self.chain.lemma_idx_of(pidx as int);
            assert(self.chain.block_entry_wf(pidx as int));
        }
        let parent_height = self.chain.blocks[pidx].height;
        let total = self.chain.blocks.len();
        proof {
            assert(parent_height < total);
        }
        Block::new(Some(parent_hash), e, txs, name, parent_height + 1)
    }

    /// Proposes a new block for epoch `e`: parented on a highest notarized
    /// block, filled with pooled transactions, recorded with a self-vote,
    /// signed over the proposal tag and the block hash, and broadcast to all
    /// peers.
    pub fn propose_block(&mut self, e: usize) -> (r: Block)
        requires
            old(self).wf(),
        ensures
            final(self).wf(),
            final(self).id == old(self).id,
            final(self).n == old(self).n,
            final(self).unprocessed_pool@ == old(self).unprocessed_pool@,
            forall|x: Seq<u8>|
                old(self).chain.spec_contains(x) ==> final(self).chain.spec_contains(x),
            forall|x: Seq<u8>|
                old(self).chain.spec_notarized(x) ==> final(self).chain.spec_notarized(x),
            forall|x: Seq<u8>|
                old(self).chain.spec_finalized(x) ==> final(self).chain.spec_finalized(x),
            spec_propose_effect(*old(self), *final(self), e, r),
    {
        let parent_hash = self.chain.get_highest_notarized_block();
        let new_block = self.build_block(parent_hash, e);
        let ghost pre = *self;
        self.chain.validate_and_extend(new_block.dup(), parent_hash);
        proof {
            assert(self.wf()) by {
                assert forall|x: Seq<u8>, v: usize|
                    #[trigger] self.chain.voters_of(x).contains(v) implies v < self.n by {
                    assert(pre.chain.voters_of(x) == self.chain.voters_of(x));
                }
                assert forall|i: int| 0 <= i < self.chain.notarized@.len() implies {
                    let nh = (#[trigger] self.chain.notarized@[i])@;
                    nh == self.chain.genesis@ || spec_quorum(
                        self.chain.voters_of(nh).len() as int,
                        self.n as int,
                    )
                } by {
                    assert(pre.chain.voters_of(self.chain.notarized@[i]@) == self.chain.voters_of(
                        self.chain.notarized@[i]@,
                    ));
                }
            }
        }
        let ghost mid = *self;
        self.chain.add_vote(&new_block.hash, self.id);
        proof {
            Node::lemma_wf_vote_added(mid, *self, new_block.hash@, mid.id);
            assert(e >= 1 ==> self.chain.spec_contains(new_block.hash@));
        }
        let payload = signed_payload(&MessageType::BlockProposal, &new_block.hash);
        let signature = Crypto::sign(self.id as u64, payload.as_slice());
        let broadcast = new_block.to_block_message(self.id, signature);
        self.broadcast_message(Message::BlockProposal(broadcast));
        proof {
            assert forall|x: Seq<u8>|
                pre.chain.spec_contains(x) implies self.chain.spec_contains(x) by {
                assert(mid.chain.spec_contains(x));
            }
            assert forall|x: Seq<u8>|
                pre.chain.spec_notarized(x) implies self.chain.spec_notarized(x) by {
                assert(mid.chain.spec_notarized(x));
            }
            assert(e >= 1 ==> self.chain.voters_of(new_block.hash@).contains(pre.id));
        }
        new_block
    }

    /// Votes for a block, unless another block of the same epoch is already
    /// known (a validator never votes for two blocks of one epoch). Voting
    /// records the own id with set semantics, attempts notarization, and
    /// broadcasts a vote message signed over the vote tag and the block hash.
    pub fn vote(&mut self, b: Block)
        requires
            old(self).wf(),
            old(self).chain.spec_contains(b.hash@),
            old(self).chain.block_of(b.hash@).e == b.e,
        ensures
            final(self).wf(),
            final(self).id == old(self).id,
            final(self).n == old(self).n,
            final(self).unprocessed_pool@ == old(self).unprocessed_pool@,
            final(self).tx_pool@ == old(self).tx_pool@,
            final(self).chain.blocks@ == old(self).chain.blocks@,
            forall|x: Seq<u8>|
                old(self).chain.spec_notarized(x) ==> final(self).chain.spec_notarized(x),
            forall|x: Seq<u8>|
                old(self).chain.spec_finalized(x) ==> final(self).chain.spec_finalized(x),
            forall|x: Seq<u8>, v: usize|
                old(self).chain.voters_of(x).contains(v) ==> final(self).chain.voters_of(
                    x,
                ).contains(v),
            old(self).chain.block_by_epoch@[b.e as int]@.len() > 1 ==> *final(self) == *old(self),
            old(self).chain.block_by_epoch@[b.e as int]@.len() <= 1 ==> {
                &&& final(self).chain.voters_of(b.hash@) == (if old(self).chain.voters_of(
                    b.hash@,
                ).contains(old(self).id) {
                    old(self).chain.voters_of(b.hash@)
                } else {
                    old(self).chain.voters_of(b.hash@).push(old(self).id)
                })
                &&& forall|x: Seq<u8>|
                    x != b.hash@ ==> final(self).chain.voters_of(x) == old(self).chain.voters_of(
                        x,
                    )
                &&& final(self).chain.voters_of(b.hash@).contains(old(self).id)
                &&& final(self).outgoing_messages@.len() == old(self).outgoing_messages@.len()
                    + old(self).n - 1
                &&& forall|k: int|
                    0 <= k < old(self).outgoing_messages@.len() ==> final(self).outgoing_messages@[k] == old(self).outgoing_messages@[k]
                &&& forall|k: int|
                    old(self).outgoing_messages@.len() <= k < final(self).outgoing_messages@.len() ==> (#[trigger] final(self).outgoing_messages@[k]).1@ == MessageModel::Vote(
                        MsgModel {
                            creator: old(self).id,
                            parent_hash: opt_view(b.parent_hash),
                            e: b.e,
                            txs: b.txs@,
                            name: b.name@,
                            signer: old(self).id,
                            signature: (
                                old(self).id as u64,
                                spec_signed_payload(MessageType::Vote.spec_tag(), b.hash@),
                            ),
                        },
                    )
                &&& spec_quorum(
                    final(self).chain.voters_of(b.hash@).len() as int,
                    old(self).n as int,
                ) ==> final(self).chain.spec_notarized(b.hash@)
            },
    {
        proof {
            let bi = old(self).chain.idx_of(b.hash@);
            old(self).chain.lemma_idx_of(bi);
            assert(old(self).chain.blocks@[bi].e < old(self).chain.block_by_epoch@.len());
        }
        if self.chain.block_by_epoch[b.e].len() > 1 {
            return ;
        }
        let ghost pre = *self;
        self.chain.add_vote(&b.hash, self.id);
        proof {
            Node::lemma_wf_vote_added(pre, *self, b.hash@, pre.id);
        }
        let ghost mid = *self;
        self.notarize(b.hash);
        let payload = signed_payload(&MessageType::Vote, &b.hash);
        let signature = Crypto::sign(self.id as u64, payload.as_slice());
        let vote_message = b.to_vote_message(self.id, signature);
        self.broadcast_message(Message::Vote(vote_message));
        proof {
            assert forall|x: Seq<u8>|
                pre.chain.spec_notarized(x) implies self.chain.spec_notarized(x) by {
                assert(mid.chain.spec_notarized(x));
            }
            assert forall|x: Seq<u8>, v: usize|
                pre.chain.voters_of(x).contains(v) implies self.chain.voters_of(x).contains(
                v,
            ) by {
                assert(mid.chain.voters_of(x).contains(v)) by {
                    if x == b.hash@ && mid.chain.voters_of(x) != pre.chain.voters_of(x) {
                        let w = pre.chain.voters_of(x);
                        let j = choose|j: int| 0 <= j < w.len() && w[j] == v;
                        assert(w.push(pre.id)[j] == v);
                    }
                }
            }
            assert(self.chain.voters_of(b.hash@).contains(pre.id));
        }
    }

    /// Handles a received vote: the block identity is reconstructed from the
    /// message, votes with an absent parent hash, an out-of-range signer, a
    /// duplicate signer or a bad signature are dropped; otherwise the vote is
    /// recorded, relayed to the peers, and notarization is attempted when the
    /// block itself is already known.
    pub fn receive_vote(&mut self, b: VoteMessage)
        requires
            old(self).wf(),
        ensures
            final(self).wf(),
            final(self).id == old(self).id,
            final(self).n == old(self).n,
            final(self).tx_pool@ == old(self).tx_pool@,
            final(self).unprocessed_pool@ == old(self).unprocessed_pool@,
            final(self).chain.blocks@ == old(self).chain.blocks@,
            forall|x: Seq<u8>|
                old(self).chain.spec_notarized(x) ==> final(self).chain.spec_notarized(x),
            forall|x: Seq<u8>|
                old(self).chain.spec_finalized(x) ==> final(self).chain.spec_finalized(x),
            forall|x: Seq<u8>, v: usize|
                old(self).chain.voters_of(x).contains(v) ==> final(self).chain.voters_of(
                    x,
                ).contains(v),
            spec_receive_vote_effect(*old(self), *final(self), b@),
    {
        let p = match &b.parent_hash {
            None => {
                return ;
            },
            Some(p) => *p,
        };
        if b.signer >= self.n {
            return ;
        }
        let dummy = Block::new(
            Some(p),
            b.e,
            bytes_to_vec(b.txs.as_slice()),
            bytes_to_vec(b.name.as_slice()),
            0,
        );
        if self.chain.has_voted(&dummy.hash, b.signer) {
            return ;
        }
        let payload = signed_payload(&MessageType::Vote, &dummy.hash);
        if !Crypto::check_signature(b.signer as u64, payload.as_slice(), &b.signature) {
            return ;
        }
        let ghost pre = *self;
        let signer = b.signer;
        self.chain.add_vote(&dummy.hash, signer);
        proof {
            Node::lemma_wf_vote_added(pre, *self, dummy.hash@, signer);
        }
        let ghost mid = *self;
        let dummy_hash = dummy.hash;
        self.broadcast_message(Message::Vote(b));
        if self.chain.contains_block(dummy_hash) {
            self.notarize(dummy_hash);
        }
        proof {
            assert forall|x: Seq<u8>|
                pre.chain.spec_notarized(x) implies self.chain.spec_notarized(x) by {
                assert(mid.chain.spec_notarized(x));
            }
            assert forall|x: Seq<u8>, v: usize|
                pre.chain.voters_of(x).contains(v) implies self.chain.voters_of(x).contains(
                v,
            ) by {
                assert(mid.chain.voters_of(x).contains(v)) by {
                    if x == dummy.hash@ && mid.chain.voters_of(x) != pre.chain.voters_of(x) {
                        let w = pre.chain.voters_of(x);
                        let j = choose|j: int| 0 <= j < w.len() && w[j] == v;
                        assert(w.push(signer)[j] == v);
                    }
                }
            }
            assert(self.chain.voters_of(dummy.hash@).contains(signer)) by {
                assert(mid.chain.voters_of(dummy.hash@).contains(signer));
            }
        }
    }

    /// Handles a received block proposal: proposals with an absent parent
    /// hash, a signer other than the epoch's leader, a bad signature or a
    /// block that fails validation are dropped; a proposal whose parent is
    /// still unknown is queued for a later retry; a known block is ignored.
    /// Otherwise the block joins the tree with the signer's implied vote, the
    /// validator votes for it iff it extends a highest notarized block and no
    /// other block of its epoch is known, and the proposal is relayed.
    #[verifier::rlimit(60)]
    pub fn receive_block(&mut self, b: BlockMessage)
        requires
            old(self).wf(),
        ensures
            final(self).wf(),
            final(self).id == old(self).id,
            final(self).n == old(self).n,
            final(self).tx_pool@ == old(self).tx_pool@,
            forall|x: Seq<u8>|
                old(self).chain.spec_contains(x) ==> final(self).chain.spec_contains(x),
            forall|x: Seq<u8>|
                old(self).chain.spec_notarized(x) ==> final(self).chain.spec_notarized(x),
            forall|x: Seq<u8>|
                old(self).chain.spec_finalized(x) ==> final(self).chain.spec_finalized(x),
            spec_receive_block_effect(*old(self), *final(self), b@),
    {
        let ghost m = b@;
        let p = match &b.parent_hash {
            None => {
                return ;
            },
            Some(p) => *p,
        };
        let pidx = match self.chain.find_block(&p) {
            None => {
                self.unprocessed_pool.push_back(Message::BlockProposal(b));
                return ;
            },
            Some(i) => i,
        };
        proof {
            self.chain.lemma_idx_of(pidx as int);
            assert(self.chain.block_entry_wf(pidx as int));
        }
        if b.signer != self.leader(b.e) {
            return ;
        }
        let parent_height = self.chain.blocks[pidx].height;
        let total = self.chain.blocks.len();
        proof {
            assert(parent_height < total);
        }
        let new_block = Block::new(
            Some(p),
            b.e,
            bytes_to_vec(b.txs.as_slice()),
            bytes_to_vec(b.name.as_slice()),
            parent_height + 1,
        );
        if self.chain.contains_block(new_block.hash) {
            return ;
        }
        let payload = signed_payload(&MessageType::BlockProposal, &new_block.hash);
        if !Crypto::check_signature(b.signer as u64, payload.as_slice(), &b.signature) {
            return ;
        }
        let ghost pre = *self;
        if !self.chain.validate_and_extend(new_block.dup(), p) {
            return ;
        }
        proof {
            assert(self.wf()) by {
                assert forall|x: Seq<u8>, v: usize|
                    #[trigger] self.chain.voters_of(x).contains(v) implies v < self.n by {
                    assert(pre.chain.voters_of(x) == self.chain.voters_of(x));
                }
                assert forall|i: int| 0 <= i < self.chain.notarized@.len() implies {
                    let nh = (#[trigger] self.chain.notarized@[i])@;
                    nh == self.chain.genesis@ || spec_quorum(
                        self.chain.voters_of(nh).len() as int,
                        self.n as int,
                    )
                } by {
                    assert(pre.chain.voters_of(self.chain.notarized@[i]@) == self.chain.voters_of(
                        self.chain.notarized@[i]@,
                    ));
                }
            }
        }
        let ghost st1 = *self;
        let signer = b.signer;
        self.chain.add_vote(&new_block.hash, signer);
        proof {
            Node::lemma_wf_vote_added(st1, *self, new_block.hash@, signer);
        }
        let ghost st2 = *self;
        let ghost bh = new_block.hash@;
        let hn = self.chain.get_highest_notarized_block();
        let hn_idx = self.chain.find_block(&hn).unwrap();
        proof {
            self.chain.lemma_idx_of(hn_idx as int);
            assert(self.chain.block_entry_wf(hn_idx as int));
        }
        let notarization_height = self.chain.blocks[hn_idx].height;
        let total2 = self.chain.blocks.len();
        let ghost new_height = new_block.height;
        proof {
            assert(notarization_height < total2);
        }
        if new_block.height == notarization_height + 1 {
            proof {
                assert(self.chain.spec_contains(bh));
                assert(self.chain.block_of(bh).e == new_block.e);
            }
            self.vote(new_block);
        }
        let ghost st3 = *self;
        self.broadcast_message(Message::BlockProposal(b));
        proof {
            assert forall|x: Seq<u8>|
                pre.chain.spec_contains(x) implies self.chain.spec_contains(x) by {
                assert(st1.chain.spec_contains(x));
                assert(st2.chain.spec_contains(x));
                assert(st3.chain.spec_contains(x)) by {
                    let j = st2.chain.idx_of(x);
                    assert(st3.chain.blocks@[j].hash@ == x);
                }
            }
            assert forall|x: Seq<u8>|
                pre.chain.spec_notarized(x) implies self.chain.spec_notarized(x) by {
                assert(st1.chain.spec_notarized(x));
                assert(st2.chain.spec_notarized(x));
                assert(st3.chain.spec_notarized(x));
            }
            assert forall|x: Seq<u8>|
                pre.chain.spec_finalized(x) implies self.chain.spec_finalized(x) by {
                assert(st1.chain.spec_finalized(x));
                assert(st2.chain.spec_finalized(x));
                assert(st3.chain.spec_finalized(x));
            }
            assert(self.chain.spec_contains(bh)) by {
                assert(st2.chain.spec_contains(bh));
                let j = st2.chain.idx_of(bh);
                assert(st3.chain.blocks@[j].hash@ == bh);
            }
            assert(self.chain.voters_of(bh).contains(signer)) by {
                assert(st2.chain.voters_of(bh).contains(signer));
                assert(st3.chain.voters_of(bh).contains(signer));
            }
            // the accepted-case clauses of the reception relation
            assert(spec_block_hash(m.parent_hash, m.e, m.txs) == bh);
            assert(st2.outgoing_messages@ == pre.outgoing_messages@);
            // content of pre-existing blocks carries to the decision state
            assert forall|x: Seq<u8>|
                #[trigger] pre.chain.spec_contains(x) implies st2.chain.block_of(x).e
                == pre.chain.block_of(x).e && st2.chain.block_of(x).height == pre.chain.block_of(
                x,
            ).height by {
                assert(st1.chain.block_of(x).e == pre.chain.block_of(x).e);
                assert(st1.chain.block_of(x).height == pre.chain.block_of(x).height);
            }
            assert forall|y: Seq<u8>|
                #[trigger] pre.chain.spec_notarized(y) implies pre.chain.spec_contains(y) by {
                let w = choose|w: int|
                    0 <= w < pre.chain.notarized@.len() && (#[trigger] pre.chain.notarized@[w])@
                        == y;
            }
            // the scanned highest notarized block is one of the old tree's
            // top notarized blocks, with its old height
            assert(st2.chain.notarized@ == pre.chain.notarized@);
            assert(spec_top_notarized(pre.chain, hn@)) by {
                assert forall|y: Seq<u8>|
                    pre.chain.spec_notarized(y) implies pre.chain.block_of(y).e
                    <= pre.chain.block_of(hn@).e by {
                    assert(st2.chain.spec_notarized(y));
                    assert(st2.chain.block_of(y).e <= st2.chain.block_of(hn@).e);
                }
            }
            assert(pre.chain.spec_contains(hn@));
            assert(st2.chain.block_of(hn@).height == pre.chain.block_of(hn@).height);
            assert(new_height == pre.chain.block_of(m.parent_hash.unwrap()).height + 1);
            // no vote when no top notarized block sits one height below
            assert((forall|x: Seq<u8>|
                spec_top_notarized(pre.chain, x) ==> pre.chain.block_of(x).height
                    != pre.chain.block_of(m.parent_hash.unwrap()).height) ==> st3
                == st2);
            // no vote when the epoch already held another block
            let ghost epoch_occupied = pre.chain.block_by_epoch@.len() > m.e
                && pre.chain.block_by_epoch@[m.e as int]@.len() >= 1;
            assert(epoch_occupied ==> st2.chain.block_by_epoch@[m.e as int]@.len() > 1);
            assert(epoch_occupied ==> st3 == st2);
            assert(st3 == st2 ==> self.outgoing_messages@.len() == pre.outgoing_messages@.len()
                + pre.n - 1);
            // the vote fires when the epoch was free and every top notarized
            // block sits one height below
            assert(!epoch_occupied && (forall|x: Seq<u8>|
                spec_top_notarized(pre.chain, x) ==> pre.chain.block_of(x).height
                    == pre.chain.block_of(m.parent_hash.unwrap()).height) ==> {
                &&& st2.chain.block_by_epoch@[m.e as int]@.len() == 1
                &&& st3.outgoing_messages@.len() == st2.outgoing_messages@.len() + pre.n - 1
                &&& st3.chain.voters_of(bh).contains(pre.id)
                &&& self.chain.voters_of(bh).contains(pre.id)
                &&& self.outgoing_messages@.len() == pre.outgoing_messages@.len() + 2 * (pre.n
                    - 1)
            });
            assert(spec_receive_block_effect(*old(self), *self, m));
        }
    }

    /// Dispatches a received message by its kind; the sender `j` may differ
    /// from the creator when the message was relayed, and is not used.
    pub fn incoming_message(&mut self, m: &Message, j: usize)
        requires
            old(self).wf(),
        ensures
            final(self).wf(),
            final(self).id == old(self).id,
            final(self).n == old(self).n,
            final(self).tx_pool@ == old(self).tx_pool@,
            spec_message_effect(*old(self), *final(self), m@),
            forall|x: Seq<u8>|
                old(self).chain.spec_contains(x) ==> final(self).chain.spec_contains(x),
            forall|x: Seq<u8>|
                old(self).chain.spec_notarized(x) ==> final(self).chain.spec_notarized(x),
            forall|x: Seq<u8>|
                old(self).chain.spec_finalized(x) ==> final(self).chain.spec_finalized(x),
    {
        let _ = j;
        match m {
            Message::BlockProposal(bm) => {
                self.receive_block(bm.dup());
            },
            Message::Vote(vm) => {
                self.receive_vote(vm.dup());
                proof {
                    assert forall|x: Seq<u8>|
                        old(self).chain.spec_contains(x) implies self.chain.spec_contains(x) by {
                        let j2 = old(self).chain.idx_of(x);
                        assert(self.chain.blocks@[j2].hash@ == x);
                    }
                }
            },
        }
    }

    /// Re-feeds the messages that could not be processed earlier: the pool is
    /// snapshot-drained, then each drained message is fed exactly once through
    /// the message handler, in insertion order. Messages whose parents are
    /// still missing land in the pool again for the next cycle, and are not
    /// reprocessed within the same call.
    pub fn process_unprocessed_pool(&mut self)
        requires
            old(self).wf(),
        ensures
            final(self).wf(),
            final(self).id == old(self).id,
            final(self).n == old(self).n,
            spec_pool_drain_effect(*old(self), *final(self)),
            forall|x: Seq<u8>|
                old(self).chain.spec_contains(x) ==> final(self).chain.spec_contains(x),
            forall|x: Seq<u8>|
                old(self).chain.spec_notarized(x) ==> final(self).chain.spec_notarized(x),
            forall|x: Seq<u8>|
                old(self).chain.spec_finalized(x) ==> final(self).chain.spec_finalized(x),
    {
        let mut msgs: Vec<Message> = Vec::new();
        loop
            invariant
                self.wf(),
                self.id == old(self).id,
                self.n == old(self).n,
                self.chain == old(self).chain,
                self.outgoing_messages@ == old(self).outgoing_messages@,
                self.tx_pool@ == old(self).tx_pool@,
                msgs@ + self.unprocessed_pool@ == old(self).unprocessed_pool@,
            ensures
                self.wf(),
                self.id == old(self).id,
                self.n == old(self).n,
                self.chain == old(self).chain,
                self.outgoing_messages@ == old(self).outgoing_messages@,
                self.tx_pool@ == old(self).tx_pool@,
                self.unprocessed_pool@.len() == 0,
                msgs@ == old(self).unprocessed_pool@,
            decreases self.unprocessed_pool@.len(),
        {
            match self.unprocessed_pool.pop_front() {
                Some(m) => {
                    msgs.push(m);
                    proof {
                        assert(msgs@ + self.unprocessed_pool@ =~= old(self).unprocessed_pool@);
                    }
                },
                None => {
                    proof {
                        assert(msgs@ + self.unprocessed_pool@ =~= msgs@);
                    }
                    break ;
                },
            }
        }
        let ghost start = *self;
        let mut i: usize = 0;
        while i < msgs.len()
            invariant
                self.wf(),
                self.id == old(self).id,
                self.n == old(self).n,
                i <= msgs@.len(),
                start.id == old(self).id,
                start.n == old(self).n,
                start.chain == old(self).chain,
                start.outgoing_messages@ == old(self).outgoing_messages@,
                start.tx_pool@ == old(self).tx_pool@,
                start.unprocessed_pool@.len() == 0,
                msgs@ == old(self).unprocessed_pool@,
                spec_message_steps(start, *self, message_models(msgs@.take(i as int))),
                forall|x: Seq<u8>|
                    old(self).chain.spec_contains(x) ==> self.chain.spec_contains(x),
                forall|x: Seq<u8>|
                    old(self).chain.spec_notarized(x) ==> self.chain.spec_notarized(x),
                forall|x: Seq<u8>|
                    old(self).chain.spec_finalized(x) ==> self.chain.spec_finalized(x),
            decreases msgs@.len() - i,
        {
            let ghost st = *self;
            let creator = msgs[i].creator();
            self.incoming_message(&msgs[i], creator);
            proof {
                lemma_message_steps_push(
                    start,
                    st,
                    *self,
                    message_models(msgs@.take(i as int)),
                    msgs@[i as int]@,
                );
                assert(message_models(msgs@.take(i + 1)) =~= message_models(
                    msgs@.take(i as int),
                ).push(msgs@[i as int]@));
                assert forall|x: Seq<u8>|
                    old(self).chain.spec_contains(x) implies self.chain.spec_contains(x) by {
                    assert(st.chain.spec_contains(x));
                }
                assert forall|x: Seq<u8>|
                    old(self).chain.spec_notarized(x) implies self.chain.spec_notarized(x) by {
                    assert(st.chain.spec_notarized(x));
                }
                assert forall|x: Seq<u8>|
                    old(self).chain.spec_finalized(x) implies self.chain.spec_finalized(x) by {
                    assert(st.chain.spec_finalized(x));
                }
            }
            i += 1;
        }
        proof {
            assert(msgs@.take(msgs@.len() as int) =~= msgs@);
            assert(spec_message_steps(start, *self, message_models(old(self).unprocessed_pool@)));
            assert(spec_pool_drain_effect(*old(self), *self));
        }
    }

    /// Invoked when epoch `e` begins: the epoch's leader proposes a block,
    /// every other validator leaves its state unchanged.
    pub fn new_epoch(&mut self, e: usize)
        requires
            old(self).wf(),
        ensures
            final(self).wf(),
            final(self).id == old(self).id,
            final(self).n == old(self).n,
            spec_new_epoch_effect(*old(self), *final(self), e),
            forall|x: Seq<u8>|
                old(self).chain.spec_contains(x) ==> final(self).chain.spec_contains(x),
            forall|x: Seq<u8>|
                old(self).chain.spec_notarized(x) ==> final(self).chain.spec_notarized(x),
            forall|x: Seq<u8>|
                old(self).chain.spec_finalized(x) ==> final(self).chain.spec_finalized(x),
    {
        if self.leader(e) == self.id {
            let proposed = self.propose_block(e);
            proof {
                assert(spec_propose_effect(*old(self), *self, e, proposed));
            }
        }
    }
}


/// The interface through which the network drives a validator. It is
/// implemented by the honest `Node` and by `AttackerNode`; every entry point
/// preserves the implementor's invariant.
pub trait NodeTrait {
    /// The invariant that every entry point preserves.
    spec fn wf(&self) -> bool;

    /// The validator id.
    fn id(&self) -> usize;

    /// Whether the validator is adversarial.
    fn is_attacker(&self) -> bool;

    /// Invoked whenever the validator receives message `m` from validator
    /// `j` (the sender may differ from the creator for relayed messages).
    fn incoming_message(&mut self, m: &Message, j: usize)
        requires
            old(self).wf(),
        ensures
            final(self).wf(),
    ;

    /// Returns the messages queued for sending and clears the queue.
    fn clear_outgoing_messages(&mut self) -> (r: Vec<(usize, Message)>)
        requires
            old(self).wf(),
        ensures
            final(self).wf(),
    ;

    /// Retries the messages that could not be processed earlier.
    fn process_unprocessed_pool(&mut self)
        requires
            old(self).wf(),
        ensures
            final(self).wf(),
    ;

    /// Accepts a user transaction for inclusion in a block.
    fn send_transaction(&mut self, transaction: Vec<u8>)
        requires
            old(self).wf(),
        ensures
            final(self).wf(),
    ;

    /// Invoked whenever a new epoch `e` begins; the leader proposes a block.
    fn new_epoch(&mut self, e: usize)
        requires
            old(self).wf(),
        ensures
            final(self).wf(),
    ;
}

impl NodeTrait for Node {
    open spec fn wf(&self) -> bool {
        Node::wf(*self)
    }

    fn id(&self) -> usize {
        self.id
    }

    fn is_attacker(&self) -> bool {
        false
    }

    fn incoming_message(&mut self, m: &Message, j: usize) {
        Node::incoming_message(self, m, j)
    }

    fn clear_outgoing_messages(&mut self) -> Vec<(usize, Message)> {
        Node::clear_outgoing_messages(self)
    }

    fn process_unprocessed_pool(&mut self) {
        Node::process_unprocessed_pool(self)
    }

    fn send_transaction(&mut self, transaction: Vec<u8>) {
        Node::send_transaction(self, transaction)
    }

    fn new_epoch(&mut self, e: usize) {
        Node::new_epoch(self, e)
    }
}

} // verus!