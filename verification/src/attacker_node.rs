//! The adversary validator: it reuses the honest state machine and overrides
//! the proposal and reception paths according to a configuration of
//! misbehavior modes.

use vstd::prelude::*;
use crate::utils::Crypto;
use crate::blockchain::{Block, BlockMessage, Message, MessageType, MsgModel, VoteMessage,
    opt_view, signed_payload, spec_block_hash};
use crate::utils::bytes_to_vec;
use crate::node::{Node, spec_leader};

verus! {

/// The misbehavior modes an adversary can adopt; combinations are permitted.
/// `fail_stop` dominates all other modes; `always_leader` widens the leader
/// test; `vote_everything` votes for every received block; `equivocate`
/// proposes two sibling blocks per epoch; `fake_block_signature` attaches an
/// invalid signature to own proposals.
#[derive(Clone, Copy)]
pub struct AttackerConfig {
    /// Ignore all inputs, never propose, never send.
    pub fail_stop: bool,
    /// Propose in every epoch regardless of the leader schedule.
    pub always_leader: bool,
    /// On receiving any block, emit a vote for it even when the honest rule
    /// would refuse.
    pub vote_everything: bool,
    /// Propose two sibling blocks with different payloads at the same epoch
    /// and parent, sending one to even-indexed peers and the other to
    /// odd-indexed peers.
    pub equivocate: bool,
    /// Attach an invalid signature (signer 0, empty bytes) to own proposals.
    pub fake_block_signature: bool,
}

/// What the adversary's proposal round does. Without `equivocate` and
/// `fake_block_signature` it is exactly the honest proposal round; otherwise
/// the adversary builds the sibling payloads, records self-votes, and queues
/// proposals whose signatures are invalid under `fake_block_signature`, split
/// by peer parity under `equivocate`.
pub open spec fn spec_attacker_propose_effect(
    pre: AttackerNode,
    post: AttackerNode,
    e: usize,
    blk: Block,
) -> bool {
    let cfg = pre.attacker_config;
    let id = pre.node.id;
    if !cfg.equivocate && !cfg.fake_block_signature {
        crate::node::spec_propose_effect(pre.node, post.node, e, blk)
    } else {
        let h1 = blk.hash@;
        let h2 = spec_block_hash(opt_view(blk.parent_hash), e, seq![50u8]);
        let sig1: (u64, Seq<u8>) = if cfg.fake_block_signature {
            (0u64, Seq::empty())
        } else {
            (
                id as u64,
                crate::blockchain::spec_signed_payload(
                    MessageType::BlockProposal.spec_tag(),
                    h1,
                ),
            )
        };
        let sig2: (u64, Seq<u8>) = if cfg.fake_block_signature {
            (0u64, Seq::empty())
        } else {
            (
                id as u64,
                crate::blockchain::spec_signed_payload(
                    MessageType::BlockProposal.spec_tag(),
                    h2,
                ),
            )
        };
        let msg1 = crate::blockchain::MessageModel::BlockProposal(
            MsgModel {
                creator: id,
                parent_hash: opt_view(blk.parent_hash),
                e: e,
                txs: seq![49u8],
                name: seq![35u8, 49u8],
                signer: id,
                signature: sig1,
            },
        );
        let msg2 = crate::blockchain::MessageModel::BlockProposal(
            MsgModel {
                creator: id,
                parent_hash: opt_view(blk.parent_hash),
                e: e,
                txs: seq![50u8],
                name: seq![35u8, 50u8],
                signer: id,
                signature: sig2,
            },
        );
        &&& blk.e == e
        &&& blk.hash_ok()
        &&& blk.parent_hash is Some
        &&& blk.txs@ == seq![49u8]
        &&& blk.name@ == seq![35u8, 49u8]
        &&& pre.node.chain.spec_notarized(blk.parent_hash.unwrap()@)
        &&& forall|x: Seq<u8>|
            pre.node.chain.spec_notarized(x) ==> pre.node.chain.block_of(x).e
                <= pre.node.chain.block_of(blk.parent_hash.unwrap()@).e
        &&& post.node.chain.voters_of(h1).contains(id)
        &&& cfg.equivocate ==> post.node.chain.voters_of(h2).contains(id)
        &&& e >= 1 ==> post.node.chain.spec_contains(h1)
        &&& cfg.equivocate && e >= 1 ==> post.node.chain.spec_contains(h2)
        &&& post.node.unprocessed_pool@ == pre.node.unprocessed_pool@
        &&& post.node.tx_pool@ == pre.node.tx_pool@
        &&& cfg.equivocate ==> {
            &&& post.node.outgoing_messages@.len() == pre.node.outgoing_messages@.len()
                + pre.node.n - 1
            &&& forall|k: int|
                0 <= k < pre.node.outgoing_messages@.len() ==> post.node.outgoing_messages@[k]
                    == pre.node.outgoing_messages@[k]
            &&& forall|k: int|
                pre.node.outgoing_messages@.len() <= k < post.node.outgoing_messages@.len()
                    ==> {
                    let t = k - pre.node.outgoing_messages@.len();
                    let recv: int = if t < id { t } else { t + 1 };
                    (#[trigger] post.node.outgoing_messages@[k]).0 == recv
                        && post.node.outgoing_messages@[k].1@ == (if recv % 2 == 0 {
                        msg1
                    } else {
                        msg2
                    })
                }
        }
        &&& !cfg.equivocate && !cfg.fail_stop ==> {
            &&& post.node.outgoing_messages@.len() == pre.node.outgoing_messages@.len()
                + pre.node.n - 1
            &&& forall|k: int|
                0 <= k < pre.node.outgoing_messages@.len() ==> post.node.outgoing_messages@[k]
                    == pre.node.outgoing_messages@[k]
            &&& forall|k: int|
                pre.node.outgoing_messages@.len() <= k < post.node.outgoing_messages@.len()
                    ==> (#[trigger] post.node.outgoing_messages@[k]).1@ == msg1
        }
        &&& !cfg.equivocate && cfg.fail_stop ==> post.node.outgoing_messages@
            == pre.node.outgoing_messages@
    }
}

/// What the adversary's block reception does: the honest reception, plus,
/// under `vote_everything`, a broadcast vote in the adversary's own name.
pub open spec fn spec_attacker_receive_block_effect(
    pre: AttackerNode,
    post: AttackerNode,
    m: MsgModel,
) -> bool {
    if !pre.attacker_config.vote_everything {
        crate::node::spec_receive_block_effect(pre.node, post.node, m)
    } else {
        exists|mid: Node|
            {
                &&& #[trigger] crate::node::spec_receive_block_effect(pre.node, mid, m)
                &&& post.node.chain == mid.chain
                &&& post.node.unprocessed_pool@ == mid.unprocessed_pool@
                &&& post.node.tx_pool@ == mid.tx_pool@
                &&& post.node.outgoing_messages@.len() == mid.outgoing_messages@.len()
                    + pre.node.n - 1
                &&& forall|k: int|
                    0 <= k < mid.outgoing_messages@.len() ==> post.node.outgoing_messages@[k]
                        == mid.outgoing_messages@[k]
                &&& forall|k: int|
                    mid.outgoing_messages@.len() <= k < post.node.outgoing_messages@.len()
                        ==> (#[trigger] post.node.outgoing_messages@[k]).1@
                        == crate::blockchain::MessageModel::Vote(
                        MsgModel {
                            creator: m.creator,
                            parent_hash: m.parent_hash,
                            e: m.e,
                            txs: m.txs,
                            name: m.name,
                            signer: pre.node.id,
                            signature: (pre.node.id as u64, m.signature.1),
                        },
                    )
            }
    }
}

/// What handling one message does to the adversary: nothing under
/// `fail_stop`; otherwise proposals go through the adversary's reception path
/// and votes through the honest one.
pub open spec fn spec_attacker_message_effect(
    pre: AttackerNode,
    post: AttackerNode,
    m: crate::blockchain::MessageModel,
) -> bool {
    &&& post.attacker_config == pre.attacker_config
    &&& pre.attacker_config.fail_stop ==> post == pre
    &&& !pre.attacker_config.fail_stop ==> match m {
        crate::blockchain::MessageModel::BlockProposal(mm) => spec_attacker_receive_block_effect(
            pre,
            post,
            mm,
        ),
        crate::blockchain::MessageModel::Vote(mm) => crate::node::spec_receive_vote_effect(
            pre.node,
            post.node,
            mm,
        ),
    }
}

/// What a new-epoch notification does to the adversary: nothing under
/// `fail_stop`; otherwise it proposes whenever it leads the epoch, or always
/// under `always_leader`.
pub open spec fn spec_attacker_new_epoch_effect(
    pre: AttackerNode,
    post: AttackerNode,
    e: usize,
) -> bool {
    &&& post.attacker_config == pre.attacker_config
    &&& pre.attacker_config.fail_stop ==> post == pre
    &&& !pre.attacker_config.fail_stop && spec_leader(e, pre.node.n) != pre.node.id
        && !pre.attacker_config.always_leader ==> post == pre
    &&& !pre.attacker_config.fail_stop && (spec_leader(e, pre.node.n) == pre.node.id
        || pre.attacker_config.always_leader) ==> exists|blk: Block|
        spec_attacker_propose_effect(pre, post, e, blk)
}

/// An adversary validator: the honest state machine plus a misbehavior
/// configuration that overrides the proposal and reception entry points.
pub struct AttackerNode {
    /// The wrapped honest state machine.
    pub node: Node,
    /// The misbehavior modes in effect.
    pub attacker_config: AttackerConfig,
}

impl AttackerNode {
    /// The adversary is well formed iff the wrapped validator is.
    pub open spec fn wf(self) -> bool {
        self.node.wf()
    }

    /// Creates an adversary validator with the given misbehavior modes.
    pub fn new(id: usize, n: usize, attacker_config: AttackerConfig) -> (r: AttackerNode)
        requires
            n >= 1,
            id < n,
        ensures
            r.wf(),
            r.node.id == id,
            r.node.n == n,
            r.attacker_config == attacker_config,
            r.node.chain.blocks@.len() == 1,
            r.node.chain.votes@.len() == 0,
            r.node.chain.notarized@.len() == 1,
            r.node.chain.finalized@.len() == 1,
            r.node.outgoing_messages@.len() == 0,
            r.node.unprocessed_pool@.len() == 0,
            r.node.tx_pool@.len() == 0,
    {
        AttackerNode { node: Node::new(id, n), attacker_config }
    }

    /// On a new epoch: a fail-stopped adversary does nothing; otherwise it
    /// proposes whenever it leads the epoch, or always under `always_leader`.
    pub fn new_epoch(&mut self, e: usize)
        requires
            old(self).wf(),
        ensures
            final(self).wf(),
            final(self).node.id == old(self).node.id,
            final(self).node.n == old(self).node.n,
            final(self).attacker_config == old(self).attacker_config,
            old(self).attacker_config.fail_stop ==> *final(self) == *old(self),
            spec_attacker_new_epoch_effect(*old(self), *final(self), e),
            forall|x: Seq<u8>|
                old(self).node.chain.spec_notarized(x) ==> final(self).node.chain.spec_notarized(
                    x,
                ),
            forall|x: Seq<u8>|
                old(self).node.chain.spec_finalized(x) ==> final(self).node.chain.spec_finalized(
                    x,
                ),
    {
        if self.attacker_config.fail_stop {
            return ;
        }
        if self.node.leader(e) == self.node.id || self.attacker_config.always_leader {
            let proposed = self.propose_block(e);
            proof {
                assert(spec_attacker_propose_effect(*old(self), *self, e, proposed));
            }
        }
    }

    /// The adversary's proposal path. Without `equivocate` and
    /// `fake_block_signature` it behaves exactly like the honest proposer.
    /// With `equivocate` it builds two sibling blocks with different payloads
    /// on the same parent and epoch, records both locally with self-votes,
    /// and sends one to even-indexed peers and the other to odd-indexed
    /// peers. With `fake_block_signature` its proposals carry the invalid
    /// signature (signer 0, empty bytes).
    pub fn propose_block(&mut self, e: usize) -> (r: Block)
        requires
            old(self).wf(),
        ensures
            final(self).wf(),
            final(self).node.id == old(self).node.id,
            final(self).node.n == old(self).node.n,
            final(self).attacker_config == old(self).attacker_config,
            forall|x: Seq<u8>|
                old(self).node.chain.spec_contains(x) ==> final(self).node.chain.spec_contains(x),
            forall|x: Seq<u8>|
                old(self).node.chain.spec_notarized(x) ==> final(self).node.chain.spec_notarized(x),
            forall|x: Seq<u8>|
                old(self).node.chain.spec_finalized(x) ==> final(self).node.chain.spec_finalized(x),
            spec_attacker_propose_effect(*old(self), *final(self), e, r),
    {
        if !self.attacker_config.fake_block_signature && !self.attacker_config.equivocate {
            return self.node.propose_block(e);
        }
        let parent_hash = self.node.chain.get_highest_notarized_block();
        let pidx = self.node.chain.find_block(&parent_hash).unwrap();
        proof {
            self.node.chain.lemma_idx_of(pidx as int);
            assert(self.node.chain.block_entry_wf(pidx as int));
        }
        let parent_height = self.node.chain.blocks[pidx].height;
        let total = self.node.chain.blocks.len();
        proof {
            assert(parent_height < total);
        }
        let mut payload1: Vec<u8> = Vec::new();
        payload1.push(49u8);
        let mut name1: Vec<u8> = Vec::new();
        name1.push(35u8);
        name1.push(49u8);
        let block1 = Block::new(Some(parent_hash), e, payload1, name1, parent_height + 1);
        let ghost pre = *self;
        self.node.chain.validate_and_extend(block1.dup(), parent_hash);
        proof {
            Node::lemma_wf_votes_unchanged(pre.node, self.node);
        }
        let signature1 = if !self.attacker_config.fake_block_signature {
            let payload = signed_payload(&MessageType::BlockProposal, &block1.hash);
            Crypto::sign(self.node.id as u64, payload.as_slice())
        } else {
            (0u64, Vec::new())
        };
        let block1_message = block1.to_block_message(self.node.id, signature1);
        let ghost bm1 = block1_message@;
        proof {
            assert(block1.txs@ =~= seq![49u8]);
            assert(block1.name@ =~= seq![35u8, 49u8]);
            assert(self.attacker_config.fake_block_signature ==> (signature1.1@
                =~= Seq::<u8>::empty()));
            assert(bm1 == MsgModel {
                creator: self.node.id,
                parent_hash: opt_view(block1.parent_hash),
                e: e,
                txs: seq![49u8],
                name: seq![35u8, 49u8],
                signer: self.node.id,
                signature: if self.attacker_config.fake_block_signature {
                    (0u64, Seq::<u8>::empty())
                } else {
                    (
                        self.node.id as u64,
                        crate::blockchain::spec_signed_payload(
                            MessageType::BlockProposal.spec_tag(),
                            block1.hash@,
                        ),
                    )
                },
            });
        }
        let ghost st1 = *self;
        if !self.attacker_config.equivocate {
            self.broadcast_message(Message::BlockProposal(block1_message));
        } else {
            let mut payload2: Vec<u8> = Vec::new();
            payload2.push(50u8);
            let mut name2: Vec<u8> = Vec::new();
            name2.push(35u8);
            name2.push(50u8);
            let block2 = Block::new(Some(parent_hash), e, payload2, name2, parent_height + 1);
            self.node.chain.validate_and_extend(block2.dup(), parent_hash);
            proof {
                Node::lemma_wf_votes_unchanged(st1.node, self.node);
            }
            let signature2 = if !self.attacker_config.fake_block_signature {
                let payload = signed_payload(&MessageType::BlockProposal, &block2.hash);
                Crypto::sign(self.node.id as u64, payload.as_slice())
            } else {
                (0u64, Vec::new())
            };
            let block2_message = block2.to_block_message(self.node.id, signature2);
            let ghost bm2 = block2_message@;
            proof {
                assert(block2.txs@ =~= seq![50u8]);
                assert(block2.name@ =~= seq![35u8, 50u8]);
                assert(self.attacker_config.fake_block_signature ==> (signature2.1@
                    =~= Seq::<u8>::empty()));
                assert(bm2 == MsgModel {
                    creator: self.node.id,
                    parent_hash: opt_view(block2.parent_hash),
                    e: e,
                    txs: seq![50u8],
                    name: seq![35u8, 50u8],
                    signer: self.node.id,
                    signature: if self.attacker_config.fake_block_signature {
                        (0u64, Seq::<u8>::empty())
                    } else {
                        (
                            self.node.id as u64,
                            crate::blockchain::spec_signed_payload(
                                MessageType::BlockProposal.spec_tag(),
                                block2.hash@,
                            ),
                        )
                    },
                });
            }
            let ghost st2 = *self;
            let voter = self.node.id;
            self.node.chain.add_vote(&block2.hash, voter);
            proof {
                Node::lemma_wf_vote_added(st2.node, self.node, block2.hash@, voter);
            }
            self.equivocate_message(
                Message::BlockProposal(block1_message),
                Message::BlockProposal(block2_message),
            );
            proof {
                assert(block2.hash@ == spec_block_hash(opt_view(block1.parent_hash), e, seq![
                    50u8,
                ]));
            }
        }
        let ghost st3 = *self;
        let voter = self.node.id;
        self.node.chain.add_vote(&block1.hash, voter);
        proof {
            Node::lemma_wf_vote_added(st3.node, self.node, block1.hash@, voter);
            assert(self.node.chain.blocks@ == st3.node.chain.blocks@);
            assert forall|x: Seq<u8>|
                pre.node.chain.spec_contains(x) implies self.node.chain.spec_contains(x) by {
                assert(st1.node.chain.spec_contains(x));
                assert(st3.node.chain.spec_contains(x));
            }
            assert(e >= 1 ==> st1.node.chain.spec_contains(block1.hash@));
            assert(e >= 1 ==> st3.node.chain.spec_contains(block1.hash@));
            assert(e >= 1 ==> self.node.chain.spec_contains(block1.hash@));
            assert(pre.attacker_config.equivocate && e >= 1 ==> self.node.chain.spec_contains(
                spec_block_hash(opt_view(block1.parent_hash), e, seq![50u8]),
            ));
            // the produced sibling payloads, names and signatures, as the
            // proposal relation spells them out
            assert(block1.txs@ =~= seq![49u8]);
            assert(block1.name@ =~= seq![35u8, 49u8]);
            assert(self.node.chain.voters_of(block1.hash@).contains(voter));
            let h2 = spec_block_hash(opt_view(block1.parent_hash), e, seq![50u8]);
            assert(pre.attacker_config.equivocate ==> self.node.chain.voters_of(h2).contains(
                voter,
            )) by {
                if pre.attacker_config.equivocate && h2 != block1.hash@ {
                    assert(st3.node.chain.voters_of(h2).contains(voter));
                }
            }
            assert(pre.attacker_config.fake_block_signature
                ==> signature1.1@ =~= Seq::<u8>::empty());
            assert(spec_attacker_propose_effect(*old(self), *self, e, block1));
        }
        block1
    }



    /// Sends two different messages to different peers: `m1` to even-indexed
    /// peers and `m2` to odd-indexed peers, in increasing id order.
    pub fn equivocate_message(&mut self, m1: Message, m2: Message)
        requires
            old(self).wf(),
        ensures
            final(self).wf(),
            final(self).node.chain == old(self).node.chain,
            final(self).node.id == old(self).node.id,
            final(self).node.n == old(self).node.n,
            final(self).attacker_config == old(self).attacker_config,
            final(self).node.unprocessed_pool@ == old(self).node.unprocessed_pool@,
            final(self).node.tx_pool@ == old(self).node.tx_pool@,
            final(self).node.outgoing_messages@.len() == old(self).node.outgoing_messages@.len() + old(self).node.n - 1,
            forall|k: int|
                0 <= k < old(self).node.outgoing_messages@.len() ==> final(self).node.outgoing_messages@[k] == old(self).node.outgoing_messages@[k],
            forall|k: int|
                old(self).node.outgoing_messages@.len() <= k < final(self).node.outgoing_messages@.len() ==> {
                    let t = k - old(self).node.outgoing_messages@.len();
                    let recv: int = if t < old(self).node.id {
                        t
                    } else {
                        t + 1
                    };
                    (#[trigger] final(self).node.outgoing_messages@[k]).0 == recv && final(self).node.outgoing_messages@[k].1@ == (if recv % 2 == 0 {
                        m1@
                    } else {
                        m2@
                    })
                },
    {
        let ghost base = self.node.outgoing_messages@.len() as int;
        let mut i: usize = 0;
        while i < self.node.n
            invariant
                self.wf(),
                i <= self.node.n,
                self.node.chain == old(self).node.chain,
                self.node.id == old(self).node.id,
                self.node.n == old(self).node.n,
                self.node.unprocessed_pool@ == old(self).node.unprocessed_pool@,
                self.node.tx_pool@ == old(self).node.tx_pool@,
                self.attacker_config == old(self).attacker_config,
                base == old(self).node.outgoing_messages@.len(),
                self.node.outgoing_messages@.len() == base + (if i <= self.node.id {
                    i as int
                } else {
                    i - 1
                }),
                forall|k: int|
                    0 <= k < base ==> self.node.outgoing_messages@[k] == old(self).node.outgoing_messages@[k],
                forall|k: int|
                    base <= k < self.node.outgoing_messages@.len() ==> {
                        let t = k - base;
                        let recv: int = if t < self.node.id {
                            t
                        } else {
                            t + 1
                        };
                        (#[trigger] self.node.outgoing_messages@[k]).0 == recv
                            && self.node.outgoing_messages@[k].1@ == (if recv % 2 == 0 {
                            m1@
                        } else {
                            m2@
                        })
                    },
            decreases self.node.n - i,
        {
            if i != self.node.id {
                if i % 2 == 0 {
                    self.node.outgoing_messages.push_back((i, m1.dup()));
                } else {
                    self.node.outgoing_messages.push_back((i, m2.dup()));
                }
            }
            i += 1;
        }
    }

    /// Broadcasts like an honest validator, unless fail-stopped.
    pub fn broadcast_message(&mut self, m: Message)
        requires
            old(self).wf(),
        ensures
            final(self).wf(),
            final(self).node.chain == old(self).node.chain,
            final(self).node.id == old(self).node.id,
            final(self).node.n == old(self).node.n,
            final(self).attacker_config == old(self).attacker_config,
            final(self).node.unprocessed_pool@ == old(self).node.unprocessed_pool@,
            final(self).node.tx_pool@ == old(self).node.tx_pool@,
            old(self).attacker_config.fail_stop ==> *final(self) == *old(self),
            !old(self).attacker_config.fail_stop ==> {
                &&& final(self).node.outgoing_messages@.len() == old(self).node.outgoing_messages@.len() + old(self).node.n - 1
                &&& forall|k: int|
                    0 <= k < old(self).node.outgoing_messages@.len() ==> final(self).node.outgoing_messages@[k] == old(self).node.outgoing_messages@[k]
                &&& forall|k: int|
                    old(self).node.outgoing_messages@.len() <= k < final(self).node.outgoing_messages@.len() ==> (#[trigger] final(self).node.outgoing_messages@[k]).1@ == m@
            },
    {
        if self.attacker_config.fail_stop {
            return ;
        }
        self.node.broadcast_message(m);
    }

    /// Handles an incoming message, unless fail-stopped: block proposals go
    /// through the adversary's reception path, votes through the honest one.
    pub fn incoming_message(&mut self, m: &Message, j: usize)
        requires
            old(self).wf(),
        ensures
            final(self).wf(),
            final(self).node.id == old(self).node.id,
            final(self).node.n == old(self).node.n,
            final(self).attacker_config == old(self).attacker_config,
            old(self).attacker_config.fail_stop ==> *final(self) == *old(self),
            spec_attacker_message_effect(*old(self), *final(self), m@),
            forall|x: Seq<u8>|
                old(self).node.chain.spec_notarized(x) ==> final(self).node.chain.spec_notarized(
                    x,
                ),
            forall|x: Seq<u8>|
                old(self).node.chain.spec_finalized(x) ==> final(self).node.chain.spec_finalized(
                    x,
                ),
    {
        if self.attacker_config.fail_stop {
            return ;
        }
        match m {
            Message::BlockProposal(bm) => {
                self.receive_block(bm.dup());
            },
            _ => {
                self.node.incoming_message(m, j);
            },
        }
    }

    /// Turns a received block message into a vote message in the adversary's
    /// own name, keeping the received signature bytes.
    fn block_message_to_vote(&self, b: &BlockMessage) -> (r: VoteMessage)
        ensures
            r@ == (MsgModel {
                creator: b.creator,
                parent_hash: opt_view(b.parent_hash),
                e: b.e,
                txs: b.txs@,
                name: b.name@,
                signer: self.node.id,
                signature: (self.node.id as u64, b.signature.1@),
            }),
    {
        let signature = (self.node.id as u64, bytes_to_vec(b.signature.1.as_slice()));
        VoteMessage::new(
            b.creator,
            b.parent_hash,
            b.e,
            bytes_to_vec(b.txs.as_slice()),
            bytes_to_vec(b.name.as_slice()),
            self.node.id,
            signature,
        )
    }

    /// Receives a block like an honest validator; with `vote_everything` it
    /// additionally emits a vote for the block in its own name, whatever the
    /// honest voting rule would say.
    pub fn receive_block(&mut self, b: BlockMessage)
        requires
            old(self).wf(),
        ensures
            final(self).wf(),
            final(self).node.id == old(self).node.id,
            final(self).node.n == old(self).node.n,
            final(self).attacker_config == old(self).attacker_config,
            spec_attacker_receive_block_effect(*old(self), *final(self), b@),
            forall|x: Seq<u8>|
                old(self).node.chain.spec_contains(x) ==> final(self).node.chain.spec_contains(x),
            forall|x: Seq<u8>|
                old(self).node.chain.spec_notarized(x) ==> final(self).node.chain.spec_notarized(x),
            forall|x: Seq<u8>|
                old(self).node.chain.spec_finalized(x) ==> final(self).node.chain.spec_finalized(x),
    {
        let vote = if self.attacker_config.vote_everything {
            Some(self.block_message_to_vote(&b))
        } else {
            None
        };
        let ghost m = b@;
        self.node.receive_block(b);
        let ghost mid = self.node;
        match vote {
            Some(vote_message) => {
                self.node.broadcast_message(Message::Vote(vote_message));
                proof {
                    assert(crate::node::spec_receive_block_effect(old(self).node, mid, m));
                }
            },
            None => {},
        }
    }

    /// Returns the queued outgoing messages and clears the queue.
    pub fn clear_outgoing_messages(&mut self) -> (r: Vec<(usize, Message)>)
        requires
            old(self).wf(),
        ensures
            final(self).wf(),
            final(self).node.id == old(self).node.id,
            final(self).node.n == old(self).node.n,
            final(self).attacker_config == old(self).attacker_config,
            final(self).node.outgoing_messages@.len() == 0,
            final(self).node.chain == old(self).node.chain,
            r@ == old(self).node.outgoing_messages@,
            forall|k: int| 0 <= k < r@.len() ==> (#[trigger] r@[k]).0 < old(self).node.n,
    {
        self.node.clear_outgoing_messages()
    }

    /// Re-feeds the messages that could not be processed earlier.
    pub fn process_unprocessed_pool(&mut self)
        requires
            old(self).wf(),
        ensures
            final(self).wf(),
            final(self).node.id == old(self).node.id,
            final(self).node.n == old(self).node.n,
            final(self).attacker_config == old(self).attacker_config,
            forall|x: Seq<u8>|
                old(self).node.chain.spec_notarized(x) ==> final(self).node.chain.spec_notarized(
                    x,
                ),
            forall|x: Seq<u8>|
                old(self).node.chain.spec_finalized(x) ==> final(self).node.chain.spec_finalized(
                    x,
                ),
            crate::node::spec_pool_drain_effect(old(self).node, final(self).node),
    {
        self.node.process_unprocessed_pool();
    }

    /// Accepts a transaction into the pool under the honest rule.
    pub fn send_transaction(&mut self, tx: Vec<u8>)
        requires
            old(self).wf(),
        ensures
            final(self).wf(),
            final(self).node.id == old(self).node.id,
            final(self).node.n == old(self).node.n,
            final(self).attacker_config == old(self).attacker_config,
            final(self).node.chain == old(self).node.chain,
    {
        self.node.send_transaction(tx);
    }
}

impl crate::node::NodeTrait for AttackerNode {
    open spec fn wf(&self) -> bool {
        AttackerNode::wf(*self)
    }

    fn id(&self) -> usize {
        self.node.id
    }

    fn is_attacker(&self) -> bool {
        true
    }

    fn incoming_message(&mut self, m: &Message, j: usize) {
        AttackerNode::incoming_message(self, m, j)
    }

    fn clear_outgoing_messages(&mut self) -> Vec<(usize, Message)> {
        AttackerNode::clear_outgoing_messages(self)
    }

    fn process_unprocessed_pool(&mut self) {
        AttackerNode::process_unprocessed_pool(self)
    }

    fn send_transaction(&mut self, transaction: Vec<u8>) {
        AttackerNode::send_transaction(self, transaction)
    }

    fn new_epoch(&mut self, e: usize) {
        AttackerNode::new_epoch(self, e)
    }
}

} // verus!