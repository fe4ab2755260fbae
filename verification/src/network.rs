//! The network simulator: it owns the validator population and per-receiver
//! delivery queues, and runs epochs of three message-exchange rounds under
//! one of three transport regimes (in-order, reordered, and delay-then-
//! synchrony), seeded deterministically.

use vstd::prelude::*;
use vstd::seq_lib::group_to_multiset_ensures;
use crate::blockchain::Message;
use crate::node::{Node, spec_message_effect, spec_new_epoch_effect,
    spec_pool_drain_effect};
use crate::blockchain::MessageModel;
use crate::attacker_node::{spec_attacker_message_effect, spec_attacker_new_epoch_effect};
use crate::attacker_node::{AttackerConfig, AttackerNode};
use std::collections::VecDeque;

verus! {

/// The random number generator driving the transport regimes; a fixed seed
/// makes every run reproducible.
#[verifier::external_type_specification]
#[verifier::external_body]
pub struct ExStdRng(rand::rngs::StdRng);

/// Relies on rand: `StdRng as SeedableRng::from_seed` builds the generator
/// deterministically from a 32-byte seed.
#[verifier::external_body]
fn rng_from_seed(seed: [u8; 32]) -> rand::rngs::StdRng {
    <rand::rngs::StdRng as rand::SeedableRng>::from_seed(seed)
}

/// Relies on rand: `Rng::gen_range(0..100)` returns a value uniformly drawn
/// from [0, 100); which value comes back depends on the generator's state.
#[verifier::external_body]
fn rng_draw_percent(rng: &mut rand::rngs::StdRng) -> (r: u64)
    ensures
        r < 100,
{
    rand::Rng::gen_range(rng, 0u64..100u64)
}

/// Decides one Bernoulli trial: the drawn percentile falls under `percent`,
/// so the outcome is never true at 0 and always true from 100 upward.
fn rng_percent(rng: &mut rand::rngs::StdRng, percent: u64) -> (r: bool)
    ensures
        percent == 0 ==> !r,
        percent >= 100 ==> r,
{
    rng_draw_percent(rng) < percent
}

/// One pending message delivery: the message, who receives it, and who sent
/// it.
pub struct Delivery {
    /// The message to deliver.
    pub msg: Message,
    /// The id of the validator that receives the message.
    pub receiver: usize,
    /// The id of the validator that sent the message.
    pub sender: usize,
}

/// The deliveries were handed to their receivers in order: each step hands
/// one delivery's message to the validator at its receiver index and leaves
/// every other validator alone.
pub open spec fn spec_deliver_steps(
    pre: Seq<NetNode>,
    post: Seq<NetNode>,
    ds: Seq<Delivery>,
) -> bool
    decreases ds.len(),
{
    if ds.len() == 0 {
        post == pre
    } else {
        exists|nn: NetNode|
            {
                &&& 0 <= ds.first().receiver < pre.len()
                &&& netnode_message_effect(pre[ds.first().receiver as int], nn, ds.first().msg@)
                &&& spec_deliver_steps(pre.update(ds.first().receiver as int, nn), post, ds.drop_first())
            }
    }
}

/// Handing over one more delivery extends a run of delivery steps.
pub proof fn lemma_deliver_steps_push(
    a: Seq<NetNode>,
    b: Seq<NetNode>,
    nn: NetNode,
    ds: Seq<Delivery>,
    d: Delivery,
)
    requires
        spec_deliver_steps(a, b, ds),
        b.len() == a.len(),
        0 <= d.receiver < b.len(),
        netnode_message_effect(b[d.receiver as int], nn, d.msg@),
    ensures
        spec_deliver_steps(a, b.update(d.receiver as int, nn), ds.push(d)),
    decreases ds.len(),
{
    if ds.len() == 0 {
        assert(b == a);
        assert(ds.push(d).first() == d);
        assert(ds.push(d).drop_first() =~= Seq::<Delivery>::empty());
        assert(spec_deliver_steps(
            a.update(d.receiver as int, nn),
            b.update(d.receiver as int, nn),
            ds.push(d).drop_first(),
        ));
    } else {
        let nn0 = choose|nn0: NetNode|
            {
                &&& 0 <= ds.first().receiver < a.len()
                &&& netnode_message_effect(a[ds.first().receiver as int], nn0, ds.first().msg@)
                &&& spec_deliver_steps(a.update(ds.first().receiver as int, nn0), b, ds.drop_first())
            };
        lemma_deliver_steps_push(
            a.update(ds.first().receiver as int, nn0),
            b,
            nn,
            ds.drop_first(),
            d,
        );
        assert(ds.push(d).first() == ds.first());
        assert(ds.push(d).drop_first() =~= ds.drop_first().push(d));
    }
}

/// Relies on rand: `SliceRandom::shuffle` permutes the slice in place, so the
/// deliveries afterwards are exactly the same multiset as before, in an order
/// drawn from the generator.
#[verifier::external_body]
fn shuffle_deliveries(rng: &mut rand::rngs::StdRng, v: &mut Vec<Delivery>)
    ensures
        final(v)@.to_multiset() == old(v)@.to_multiset(),
{
    rand::seq::SliceRandom::shuffle(v.as_mut_slice(), rng)
}

/// What handling one message does to a validator of either kind.
pub open spec fn netnode_message_effect(pre: NetNode, post: NetNode, m: MessageModel) -> bool {
    match (pre, post) {
        (NetNode::Honest(a), NetNode::Honest(b)) => spec_message_effect(a, b, m),
        (NetNode::Attacker(a), NetNode::Attacker(b)) => spec_attacker_message_effect(a, b, m),
        _ => false,
    }
}

/// What a new-epoch notification does to a validator of either kind: an
/// honest validator proposes exactly when it leads the epoch; an adversary
/// follows its configuration.
pub open spec fn netnode_new_epoch_effect(pre: NetNode, post: NetNode, e: usize) -> bool {
    match (pre, post) {
        (NetNode::Honest(a), NetNode::Honest(b)) => spec_new_epoch_effect(a, b, e),
        (NetNode::Attacker(a), NetNode::Attacker(b)) => spec_attacker_new_epoch_effect(a, b, e),
        _ => false,
    }
}

/// What draining the deferred pool does to a validator of either kind.
pub open spec fn netnode_pool_effect(pre: NetNode, post: NetNode) -> bool {
    match (pre, post) {
        (NetNode::Honest(a), NetNode::Honest(b)) => spec_pool_drain_effect(a, b),
        (NetNode::Attacker(a), NetNode::Attacker(b)) => b.attacker_config == a.attacker_config
            && spec_pool_drain_effect(a.node, b.node),
        _ => false,
    }
}

/// The validator consumed the given messages in order, each through its
/// message handler.
pub open spec fn netnode_message_steps(pre: NetNode, post: NetNode, msgs: Seq<MessageModel>) -> bool
    decreases msgs.len(),
{
    if msgs.len() == 0 {
        post == pre
    } else {
        exists|mid: NetNode|
            netnode_message_effect(pre, mid, msgs.first()) && netnode_message_steps(
                mid,
                post,
                msgs.drop_first(),
            )
    }
}

/// Consuming one more message extends a run of message steps.
pub proof fn lemma_netnode_steps_push(
    pre: NetNode,
    mid: NetNode,
    post: NetNode,
    msgs: Seq<MessageModel>,
    m: MessageModel,
)
    requires
        netnode_message_steps(pre, mid, msgs),
        netnode_message_effect(mid, post, m),
    ensures
        netnode_message_steps(pre, post, msgs.push(m)),
    decreases msgs.len(),
{
    if msgs.len() == 0 {
        assert(mid == pre);
        assert(msgs.push(m).first() == m);
        assert(msgs.push(m).drop_first() =~= Seq::<MessageModel>::empty());
        assert(netnode_message_steps(post, post, msgs.push(m).drop_first()));
        assert(netnode_message_effect(pre, post, msgs.push(m).first()));
    } else {
        let mid0 = choose|mid0: NetNode|
            netnode_message_effect(pre, mid0, msgs.first()) && netnode_message_steps(
                mid0,
                mid,
                msgs.drop_first(),
            );
        lemma_netnode_steps_push(mid0, mid, post, msgs.drop_first(), m);
        assert(msgs.push(m).first() == msgs.first());
        assert(msgs.push(m).drop_first() =~= msgs.drop_first().push(m));
        assert(netnode_message_effect(pre, mid0, msgs.push(m).first())
            && netnode_message_steps(mid0, post, msgs.push(m).drop_first()));
    }
}

/// The message contents of one receiver's queue.
pub open spec fn queue_models(q: Seq<(Message, usize)>) -> Seq<MessageModel> {
    q.map(|k: int, p: (Message, usize)| p.0@)
}

/// A validator of the population: honest, or adversarial with a misbehavior
/// configuration. The honest and adversarial machines share their state shape
/// and differ in the proposal and reception entry points.
pub enum NetNode {
    Honest(Node),
    Attacker(AttackerNode),
}

impl NetNode {
    /// The wrapped validator's invariant.
    pub open spec fn wf(self) -> bool {
        match self {
            NetNode::Honest(node) => node.wf(),
            NetNode::Attacker(a) => a.wf(),
        }
    }

    /// The wrapped validator's id.
    pub open spec fn spec_id(self) -> usize {
        match self {
            NetNode::Honest(node) => node.id,
            NetNode::Attacker(a) => a.node.id,
        }
    }

    /// The wrapped validator's population size.
    pub open spec fn spec_n(self) -> usize {
        match self {
            NetNode::Honest(node) => node.n,
            NetNode::Attacker(a) => a.node.n,
        }
    }

    /// The wrapped validator's queued outgoing messages.
    pub open spec fn spec_outgoing(self) -> Seq<(usize, Message)> {
        match self {
            NetNode::Honest(node) => node.outgoing_messages@,
            NetNode::Attacker(a) => a.node.outgoing_messages@,
        }
    }

    /// The wrapped validator's block tree.
    pub open spec fn spec_chain(self) -> crate::blockchain::Blockchain {
        match self {
            NetNode::Honest(node) => node.chain,
            NetNode::Attacker(a) => a.node.chain,
        }
    }

    /// A freshly constructed validator: a genesis-only tree and empty queues
    /// and pools.
    pub open spec fn spec_fresh(self) -> bool {
        let node = match self {
            NetNode::Honest(node) => node,
            NetNode::Attacker(a) => a.node,
        };
        &&& node.chain.blocks@.len() == 1
        &&& node.chain.votes@.len() == 0
        &&& node.chain.notarized@.len() == 1
        &&& node.chain.finalized@.len() == 1
        &&& node.outgoing_messages@.len() == 0
        &&& node.unprocessed_pool@.len() == 0
        &&& node.tx_pool@.len() == 0
    }

    /// Whether this validator is adversarial.
    pub fn is_attacker(&self) -> (r: bool)
        ensures
            r == (self is Attacker),
    {
        match self {
            NetNode::Honest(_) => false,
            NetNode::Attacker(_) => true,
        }
    }

    /// The validator id.
    pub fn id(&self) -> (r: usize)
        ensures
            r == self.spec_id(),
    {
        match self {
            NetNode::Honest(node) => node.id,
            NetNode::Attacker(a) => a.node.id,
        }
    }

    /// Notifies the validator of a new epoch.
    #[verifier::rlimit(60)]
    pub fn new_epoch(&mut self, e: usize)
        requires
            old(self).wf(),
        ensures
            final(self).wf(),
            final(self).spec_id() == old(self).spec_id(),
            final(self).spec_n() == old(self).spec_n(),
            ((*final(self)) is Attacker) == ((*old(self)) is Attacker),
            netnode_new_epoch_effect(*old(self), *final(self), e),
            forall|x: Seq<u8>|
                old(self).spec_chain().spec_notarized(x) ==> final(self).spec_chain().spec_notarized(x),
            forall|x: Seq<u8>|
                old(self).spec_chain().spec_finalized(x) ==> final(self).spec_chain().spec_finalized(x),
    {
        match self {
            NetNode::Honest(node) => node.new_epoch(e),
            NetNode::Attacker(a) => a.new_epoch(e),
        }
    }

    /// Hands the validator a message from sender `j`.
    pub fn incoming_message(&mut self, m: &Message, j: usize)
        requires
            old(self).wf(),
        ensures
            final(self).wf(),
            final(self).spec_id() == old(self).spec_id(),
            final(self).spec_n() == old(self).spec_n(),
            ((*final(self)) is Attacker) == ((*old(self)) is Attacker),
            netnode_message_effect(*old(self), *final(self), m@),
            forall|x: Seq<u8>|
                old(self).spec_chain().spec_notarized(x) ==> final(self).spec_chain().spec_notarized(x),
            forall|x: Seq<u8>|
                old(self).spec_chain().spec_finalized(x) ==> final(self).spec_chain().spec_finalized(x),
    {
        match self {
            NetNode::Honest(node) => node.incoming_message(m, j),
            NetNode::Attacker(a) => a.incoming_message(m, j),
        }
    }

    /// Returns the validator's queued outgoing messages and clears the queue.
    pub fn clear_outgoing_messages(&mut self) -> (r: Vec<(usize, Message)>)
        requires
            old(self).wf(),
        ensures
            final(self).wf(),
            final(self).spec_id() == old(self).spec_id(),
            final(self).spec_n() == old(self).spec_n(),
            ((*final(self)) is Attacker) == ((*old(self)) is Attacker),
            forall|k: int| 0 <= k < r@.len() ==> (#[trigger] r@[k]).0 < old(self).spec_n(),
            final(self).spec_chain() == old(self).spec_chain(),
            final(self).spec_outgoing().len() == 0,
    {
        match self {
            NetNode::Honest(node) => node.clear_outgoing_messages(),
            NetNode::Attacker(a) => a.clear_outgoing_messages(),
        }
    }

    /// Lets the validator retry its deferred messages.
    pub fn process_unprocessed_pool(&mut self)
        requires
            old(self).wf(),
        ensures
            final(self).wf(),
            final(self).spec_id() == old(self).spec_id(),
            final(self).spec_n() == old(self).spec_n(),
            ((*final(self)) is Attacker) == ((*old(self)) is Attacker),
            netnode_pool_effect(*old(self), *final(self)),
            forall|x: Seq<u8>|
                old(self).spec_chain().spec_notarized(x) ==> final(self).spec_chain().spec_notarized(x),
            forall|x: Seq<u8>|
                old(self).spec_chain().spec_finalized(x) ==> final(self).spec_chain().spec_finalized(x),
    {
        match self {
            NetNode::Honest(node) => node.process_unprocessed_pool(),
            NetNode::Attacker(a) => a.process_unprocessed_pool(),
        }
    }

    /// Hands the validator a user transaction.
    pub fn send_transaction(&mut self, tx: Vec<u8>)
        requires
            old(self).wf(),
        ensures
            final(self).wf(),
            final(self).spec_id() == old(self).spec_id(),
            final(self).spec_n() == old(self).spec_n(),
            ((*final(self)) is Attacker) == ((*old(self)) is Attacker),
            final(self).spec_chain() == old(self).spec_chain(),
    {
        match self {
            NetNode::Honest(node) => node.send_transaction(tx),
            NetNode::Attacker(a) => a.send_transaction(tx),
        }
    }
}

/// The deliveries pending in one receiver's queue, in order.
pub open spec fn row_deliveries(q: Seq<(Message, usize)>, receiver: usize) -> Seq<Delivery> {
    q.map(|k: int, p: (Message, usize)| Delivery { msg: p.0, receiver: receiver, sender: p.1 })
}

/// All deliveries pending for the first `n` receivers, receiver by receiver.
pub open spec fn gathered_upto(rows: Seq<VecDeque<(Message, usize)>>, n: int) -> Seq<Delivery>
    decreases n,
{
    if n <= 0 {
        Seq::empty()
    } else {
        gathered_upto(rows, n - 1) + row_deliveries(rows[n - 1]@, (n - 1) as usize)
    }
}

/// One notification round: every validator sees the new epoch, queues are
/// untouched.
pub open spec fn spec_notify_round(pre: Network, post: Network) -> bool {
    &&& post.n == pre.n
    &&& post.e == pre.e
    &&& post.nodes@.len() == pre.nodes@.len()
    &&& post.recv_queue@ == pre.recv_queue@
    &&& forall|i: int|
        0 <= i < pre.nodes@.len() ==> netnode_new_epoch_effect(
            pre.nodes@[i],
            (#[trigger] post.nodes@[i]),
            pre.e,
        )
}

/// One in-order delivery round: every message queued at the round's start is
/// handed to its receiver, first-in-first-out per receiver, and the queues end
/// empty.
pub open spec fn spec_recv_round(pre: Network, post: Network) -> bool {
    &&& post.n == pre.n
    &&& post.e == pre.e
    &&& post.nodes@.len() == pre.nodes@.len()
    &&& post.recv_queue@.len() == pre.recv_queue@.len()
    &&& forall|q: int|
        0 <= q < post.recv_queue@.len() ==> (#[trigger] post.recv_queue@[q])@.len() == 0
    &&& forall|i: int|
        0 <= i < pre.nodes@.len() ==> netnode_message_steps(
            pre.nodes@[i],
            (#[trigger] post.nodes@[i]),
            queue_models(pre.recv_queue@[i]@),
        )
}

/// One shuffled delivery round: the queues are drained, and exactly the
/// pending messages — as a multiset, in some shuffled order — are handed to
/// their receivers one by one.
pub open spec fn spec_shuffled_delivery_round(pre: Network, post: Network) -> bool {
    &&& post.n == pre.n
    &&& post.e == pre.e
    &&& post.nodes@.len() == pre.nodes@.len()
    &&& post.recv_queue@.len() == pre.recv_queue@.len()
    &&& forall|q: int|
        0 <= q < post.recv_queue@.len() ==> (#[trigger] post.recv_queue@[q])@.len() == 0
    &&& exists|ds: Seq<Delivery>|
        {
            &&& ds.to_multiset() == gathered_upto(
                pre.recv_queue@,
                pre.recv_queue@.len() as int,
            ).to_multiset()
            &&& (forall|k: int| 0 <= k < ds.len() ==> (#[trigger] ds[k]).receiver < pre.n)
            &&& #[trigger] spec_deliver_steps(pre.nodes@, post.nodes@, ds)
        }
}

/// One lossy delivery round: some sequence of pending messages, each
/// addressed to a validator, is handed to its receivers in order; undelivered
/// messages stay queued.
pub open spec fn spec_lossy_delivery_round(pre: Network, post: Network) -> bool {
    &&& post.n == pre.n
    &&& post.e == pre.e
    &&& post.nodes@.len() == pre.nodes@.len()
    &&& post.recv_queue@.len() == pre.recv_queue@.len()
    &&& exists|ds: Seq<Delivery>|
        {
            &&& (forall|k: int| 0 <= k < ds.len() ==> (#[trigger] ds[k]).receiver < pre.n)
            &&& #[trigger] spec_deliver_steps(pre.nodes@, post.nodes@, ds)
        }
}

/// One send phase: every validator's outgoing queue is drained into the
/// receivers' queues; the validators' trees are untouched.
pub open spec fn spec_send_round(pre: Network, post: Network) -> bool {
    &&& post.n == pre.n
    &&& post.e == pre.e
    &&& post.nodes@.len() == pre.nodes@.len()
    &&& post.recv_queue@.len() == pre.recv_queue@.len()
    &&& forall|i: int|
        0 <= i < pre.nodes@.len() ==> (#[trigger] post.nodes@[i]).spec_chain() == pre.nodes@[
            i].spec_chain()
    &&& forall|i: int|
        0 <= i < pre.nodes@.len() ==> (#[trigger] post.nodes@[i]).spec_outgoing().len() == 0
}

/// One pool phase: every validator drains its deferred messages.
pub open spec fn spec_pools_round(pre: Network, post: Network) -> bool {
    &&& post.n == pre.n
    &&& post.e == pre.e
    &&& post.nodes@.len() == pre.nodes@.len()
    &&& post.recv_queue@ == pre.recv_queue@
    &&& forall|i: int|
        0 <= i < pre.nodes@.len() ==> netnode_pool_effect(
            pre.nodes@[i],
            (#[trigger] post.nodes@[i]),
        )
}

/// The epoch counter was raised by one and nothing else moved.
pub open spec fn spec_epoch_bump(pre: Network, post: Network) -> bool {
    &&& post.e == pre.e + 1
    &&& post.n == pre.n
    &&& post.nodes@ == pre.nodes@
    &&& post.recv_queue@ == pre.recv_queue@
}

/// One epoch under in-order delivery: the epoch counter is raised, every
/// validator is notified, three deliver-then-send rounds run, and the
/// deferred pools are drained.
pub open spec fn spec_epoch_simple(pre: Network, post: Network) -> bool {
    exists|
        s1: Network,
        s2: Network,
        s3: Network,
        s4: Network,
        s5: Network,
        s6: Network,
        s7: Network,
        s8: Network,
    |
        #![trigger spec_epoch_bump(pre, s1), spec_notify_round(s1, s2), spec_recv_round(s2, s3),
            spec_send_round(s3, s4), spec_recv_round(s4, s5), spec_send_round(s5, s6),
            spec_recv_round(s6, s7), spec_send_round(s7, s8), spec_pools_round(s8, post)]
        {
            &&& spec_epoch_bump(pre, s1)
            &&& spec_notify_round(s1, s2)
            &&& spec_recv_round(s2, s3)
            &&& spec_send_round(s3, s4)
            &&& spec_recv_round(s4, s5)
            &&& spec_send_round(s5, s6)
            &&& spec_recv_round(s6, s7)
            &&& spec_send_round(s7, s8)
            &&& spec_pools_round(s8, post)
        }
}

/// One epoch under synchrony with reordering.
pub open spec fn spec_epoch_reorder(pre: Network, post: Network) -> bool {
    exists|
        s1: Network,
        s2: Network,
        s3: Network,
        s4: Network,
        s5: Network,
        s6: Network,
        s7: Network,
        s8: Network,
    |
        #![trigger spec_epoch_bump(pre, s1), spec_notify_round(s1, s2),
            spec_shuffled_delivery_round(s2, s3), spec_send_round(s3, s4),
            spec_shuffled_delivery_round(s4, s5), spec_send_round(s5, s6),
            spec_shuffled_delivery_round(s6, s7), spec_send_round(s7, s8),
            spec_pools_round(s8, post)]
        {
            &&& spec_epoch_bump(pre, s1)
            &&& spec_notify_round(s1, s2)
            &&& spec_shuffled_delivery_round(s2, s3)
            &&& spec_send_round(s3, s4)
            &&& spec_shuffled_delivery_round(s4, s5)
            &&& spec_send_round(s5, s6)
            &&& spec_shuffled_delivery_round(s6, s7)
            &&& spec_send_round(s7, s8)
            &&& spec_pools_round(s8, post)
        }
}

/// One epoch under random delays.
pub open spec fn spec_epoch_delay(pre: Network, post: Network) -> bool {
    exists|
        s1: Network,
        s2: Network,
        s3: Network,
        s4: Network,
        s5: Network,
        s6: Network,
        s7: Network,
        s8: Network,
    |
        #![trigger spec_epoch_bump(pre, s1), spec_notify_round(s1, s2),
            spec_lossy_delivery_round(s2, s3), spec_send_round(s3, s4),
            spec_lossy_delivery_round(s4, s5), spec_send_round(s5, s6),
            spec_lossy_delivery_round(s6, s7), spec_send_round(s7, s8),
            spec_pools_round(s8, post)]
        {
            &&& spec_epoch_bump(pre, s1)
            &&& spec_notify_round(s1, s2)
            &&& spec_lossy_delivery_round(s2, s3)
            &&& spec_send_round(s3, s4)
            &&& spec_lossy_delivery_round(s4, s5)
            &&& spec_send_round(s5, s6)
            &&& spec_lossy_delivery_round(s6, s7)
            &&& spec_send_round(s7, s8)
            &&& spec_pools_round(s8, post)
        }
}

/// The network ran `k` epochs under in-order delivery.
pub open spec fn spec_run_simple(pre: Network, post: Network, k: nat) -> bool
    decreases k,
{
    if k == 0 {
        post == pre
    } else {
        exists|mid: Network|
            spec_run_simple(pre, mid, (k - 1) as nat) && #[trigger] spec_epoch_simple(mid, post)
    }
}

/// The network ran `k` epochs under synchrony with reordering.
pub open spec fn spec_run_reorder(pre: Network, post: Network, k: nat) -> bool
    decreases k,
{
    if k == 0 {
        post == pre
    } else {
        exists|mid: Network|
            spec_run_reorder(pre, mid, (k - 1) as nat) && #[trigger] spec_epoch_reorder(mid, post)
    }
}

/// The network ran `k` epochs under random delays.
pub open spec fn spec_run_delays(pre: Network, post: Network, k: nat) -> bool
    decreases k,
{
    if k == 0 {
        post == pre
    } else {
        exists|mid: Network|
            spec_run_delays(pre, mid, (k - 1) as nat) && #[trigger] spec_epoch_delay(mid, post)
    }
}

/// The simulated network: the validator population, one FIFO delivery queue
/// per receiver, the epoch counter, and the seeded generator.
pub struct Network {
    /// The validators, indexed by id.
    pub nodes: Vec<NetNode>,
    /// The number of validators.
    pub n: usize,
    /// For each receiver, the queued (message, sender) pairs.
    pub recv_queue: Vec<VecDeque<(Message, usize)>>,
    /// The current epoch.
    pub e: usize,
    /// The seeded random number generator behind the transport regimes.
    pub rng: rand::rngs::StdRng,
}

impl Network {
    /// The network's invariant: as many validators as queues, each validator
    /// well formed, at the index of its own id, and sized to the population.
    pub open spec fn wf(self) -> bool {
        &&& self.n >= 1
        &&& self.nodes@.len() == self.n
        &&& self.recv_queue@.len() == self.n
        &&& forall|i: int|
            0 <= i < self.nodes@.len() ==> {
                &&& (#[trigger] self.nodes@[i]).wf()
                &&& self.nodes@[i].spec_id() == i
                &&& self.nodes@[i].spec_n() == self.n
            }
    }

    /// Between a network state and a later one, every validator's notarized
    /// and finalized sets have only grown: blocks are never removed, and
    /// notarization and finalization are never undone.
    pub open spec fn chains_grow(pre: Network, post: Network) -> bool {
        &&& forall|i: int, x: Seq<u8>|
            0 <= i < pre.nodes@.len() && #[trigger] pre.nodes@[i].spec_chain().spec_notarized(x)
                ==> post.nodes@[i].spec_chain().spec_notarized(x)
        &&& forall|i: int, x: Seq<u8>|
            0 <= i < pre.nodes@.len() && #[trigger] pre.nodes@[i].spec_chain().spec_finalized(x)
                ==> post.nodes@[i].spec_chain().spec_finalized(x)
    }

    /// Growth of the validators' sets composes.
    pub proof fn lemma_chains_grow_trans(a: Network, b: Network, c: Network)
        requires
            Network::chains_grow(a, b),
            Network::chains_grow(b, c),
            a.nodes@.len() == b.nodes@.len(),
        ensures
            Network::chains_grow(a, c),
    {
    }

    /// A step that leaves every validator's tree unchanged grows the sets.
    pub proof fn lemma_chains_grow_of_equal(a: Network, b: Network)
        requires
            a.nodes@.len() == b.nodes@.len(),
            forall|i: int|
                0 <= i < a.nodes@.len() ==> (#[trigger] b.nodes@[i]).spec_chain() == a.nodes@[
                    i].spec_chain(),
        ensures
            Network::chains_grow(a, b),
    {
    }

    /// A step that touches one validator monotonically and leaves the others
    /// alone grows the sets.
    pub proof fn lemma_chains_grow_update(pre: Network, post: Network, i: int)
        requires
            post.nodes@.len() == pre.nodes@.len(),
            0 <= i < pre.nodes@.len(),
            forall|k: int|
                0 <= k < pre.nodes@.len() && k != i ==> post.nodes@[k] == pre.nodes@[k],
            forall|x: Seq<u8>|
                pre.nodes@[i].spec_chain().spec_notarized(x) ==> post.nodes@[
                    i].spec_chain().spec_notarized(x),
            forall|x: Seq<u8>|
                pre.nodes@[i].spec_chain().spec_finalized(x) ==> post.nodes@[
                    i].spec_chain().spec_finalized(x),
        ensures
            Network::chains_grow(pre, post),
    {
    }

    /// Creates a network of `number` honest validators with empty delivery
    /// queues, at epoch 0, seeded with the fixed zero seed.
    pub fn new(number: usize) -> (r: Network)
        requires
            number >= 1,
        ensures
            r.wf(),
            r.n == number,
            r.e == 0,
            forall|i: int| 0 <= i < r.nodes@.len() ==> (#[trigger] r.nodes@[i]) is Honest,
            forall|i: int| 0 <= i < r.nodes@.len() ==> (#[trigger] r.nodes@[i]).spec_fresh(),
            forall|q: int| 0 <= q < r.recv_queue@.len() ==> (#[trigger] r.recv_queue@[q])@.len()
                == 0,
    {
        let mut nodes: Vec<NetNode> = Vec::new();
        let mut i: usize = 0;
        while i < number
            invariant
                i <= number,
                nodes@.len() == i,
                forall|k: int|
                    0 <= k < i ==> {
                        &&& (#[trigger] nodes@[k]).wf()
                        &&& nodes@[k].spec_id() == k
                        &&& nodes@[k].spec_n() == number
                        &&& nodes@[k] is Honest
                        &&& nodes@[k].spec_fresh()
                    },
            decreases number - i,
        {
            nodes.push(NetNode::Honest(Node::new(i, number)));
            i += 1;
        }
        let mut recv_queue: Vec<VecDeque<(Message, usize)>> = Vec::new();
        let mut j: usize = 0;
        while j < number
            invariant
                j <= number,
                recv_queue@.len() == j,
                forall|q: int| 0 <= q < j ==> (#[trigger] recv_queue@[q])@.len() == 0,
            decreases number - j,
        {
            recv_queue.push(VecDeque::new());
            j += 1;
        }
        let seed = [0u8; 32];
        let rng = rng_from_seed(seed);
        Network { nodes, n: number, recv_queue, e: 0, rng }
    }

    /// Creates a network in which the validators at indices below
    /// floor(2n/3) are honest and the rest are adversaries with the given
    /// misbehavior configuration. The honest-majority threshold 3f < n is the
    /// caller's responsibility.
    pub fn new_byzantine(n: usize, attacker_config: AttackerConfig) -> (r: Network)
        requires
            n >= 1,
            n <= usize::MAX / 2,
        ensures
            r.wf(),
            r.n == n,
            r.e == 0,
            forall|i: int|
                0 <= i < r.nodes@.len() ==> ((#[trigger] r.nodes@[i]) is Honest <==> i < (2 * n
                    as int) / 3),
            forall|i: int| 0 <= i < r.nodes@.len() ==> (#[trigger] r.nodes@[i]).spec_fresh(),
            forall|i: int|
                0 <= i < r.nodes@.len() && r.nodes@[i] is Attacker ==> (#[trigger] r.nodes@[
                    i])->Attacker_0.attacker_config == attacker_config,
            forall|q: int| 0 <= q < r.recv_queue@.len() ==> (#[trigger] r.recv_queue@[q])@.len()
                == 0,
    {
        let honest_below = (2 * n) / 3;
        let mut nodes: Vec<NetNode> = Vec::new();
        let mut i: usize = 0;
        while i < n
            invariant
                i <= n,
                nodes@.len() == i,
                honest_below == (2 * n as int) / 3,
                forall|k: int|
                    0 <= k < i ==> {
                        &&& (#[trigger] nodes@[k]).wf()
                        &&& nodes@[k].spec_id() == k
                        &&& nodes@[k].spec_n() == n
                        &&& (nodes@[k] is Honest <==> k < honest_below as int)
                        &&& nodes@[k].spec_fresh()
                        &&& (nodes@[k] is Attacker ==> nodes@[k]->Attacker_0.attacker_config
                            == attacker_config)
                    },
            decreases n - i,
        {
            if i < honest_below {
                nodes.push(NetNode::Honest(Node::new(i, n)));
            } else {
                nodes.push(NetNode::Attacker(AttackerNode::new(i, n, attacker_config)));
            }
            i += 1;
        }
        let mut recv_queue: Vec<VecDeque<(Message, usize)>> = Vec::new();
        let mut j: usize = 0;
        while j < n
            invariant
                j <= n,
                recv_queue@.len() == j,
                forall|q: int| 0 <= q < j ==> (#[trigger] recv_queue@[q])@.len() == 0,
            decreases n - j,
        {
            recv_queue.push(VecDeque::new());
            j += 1;
        }
        let seed = [0u8; 32];
        let rng = rng_from_seed(seed);
        Network { nodes, n, recv_queue, e: 0, rng }
    }

    /// Queues message `m` from sender `i` for receiver `j`.
    pub fn send(&mut self, i: usize, m: Message, j: usize)
        requires
            old(self).wf(),
            j < old(self).n,
        ensures
            final(self).wf(),
            final(self).n == old(self).n,
            final(self).e == old(self).e,
            final(self).nodes@ == old(self).nodes@,
            final(self).recv_queue@.len() == old(self).recv_queue@.len(),
            final(self).recv_queue@[j as int]@ == old(self).recv_queue@[j as int]@.push((m, i)),
            forall|q: int|
                0 <= q < old(self).recv_queue@.len() && q != j ==> final(self).recv_queue@[q]
                    == old(self).recv_queue@[q],
    {
        self.recv_queue[j].push_back((m, i));
    }

    /// Moves every validator's outgoing messages into the receivers' queues,
    /// in sender order.
    fn send_all(&mut self)
        requires
            old(self).wf(),
        ensures
            final(self).wf(),
            final(self).n == old(self).n,
            final(self).e == old(self).e,
            final(self).recv_queue@.len() == old(self).recv_queue@.len(),
            forall|i: int|
                0 <= i < old(self).nodes@.len() ==> (#[trigger] final(self).nodes@[i]).spec_chain()
                    == old(self).nodes@[i].spec_chain(),
            forall|i: int|
                0 <= i < old(self).nodes@.len() ==> (#[trigger] final(self).nodes@[i]).spec_outgoing().len() == 0,
    {
        let mut sender: usize = 0;
        while sender < self.n
            invariant
                old(self).wf(),
                self.wf(),
                sender <= self.n,
                self.n == old(self).n,
                self.e == old(self).e,
                self.recv_queue@.len() == old(self).recv_queue@.len(),
                forall|i: int|
                    0 <= i < old(self).nodes@.len() ==> (#[trigger] self.nodes@[i]).spec_chain()
                        == old(self).nodes@[i].spec_chain(),
                forall|i: int|
                    0 <= i < sender ==> (#[trigger] self.nodes@[i]).spec_outgoing().len() == 0,
                forall|i: int|
                    sender <= i < self.n ==> (#[trigger] self.nodes@[i]) == old(self).nodes@[i],
            decreases self.n - sender,
        {
            let ghost prev = *self;
            let mut messages = self.nodes[sender].clear_outgoing_messages();
            proof {
                assert(self.nodes@.len() == prev.nodes@.len());
                assert(prev.nodes@.len() == old(self).nodes@.len());
                assert forall|i: int|
                    0 <= i < old(self).nodes@.len() implies (#[trigger] self.nodes@[
                    i]).spec_chain() == old(self).nodes@[i].spec_chain() by {
                    if i != sender {
                        assert(self.nodes@[i] == prev.nodes@[i]);
                    }
                }
            }
            let mut k: usize = 0;
            while k < messages.len()
                invariant
                    self.wf(),
                    sender < self.n,
                    self.n == old(self).n,
                    self.e == old(self).e,
                    self.recv_queue@.len() == old(self).recv_queue@.len(),
                    k <= messages@.len(),
                    forall|t: int|
                        0 <= t < messages@.len() ==> (#[trigger] messages@[t]).0 < self.n,
                    forall|i: int|
                        0 <= i < old(self).nodes@.len() ==> (#[trigger] self.nodes@[
                        i]).spec_chain() == old(self).nodes@[i].spec_chain(),
                    forall|i: int|
                        0 <= i <= sender ==> (#[trigger] self.nodes@[i]).spec_outgoing().len()
                            == 0,
                    forall|i: int|
                        sender < i < self.n ==> (#[trigger] self.nodes@[i]) == old(self).nodes@[i],
                decreases messages@.len() - k,
            {
                let receiver = messages[k].0;
                let m = messages[k].1.dup();
                self.send(sender, m, receiver);
                k += 1;
            }
            sender += 1;
        }
    }

    /// Delivers every queued message to its receiver, in receiver order and
    /// first-in-first-out within each queue.
    fn recv_all(&mut self)
        requires
            old(self).wf(),
        ensures
            final(self).wf(),
            final(self).n == old(self).n,
            final(self).e == old(self).e,
            Network::chains_grow(*old(self), *final(self)),
            forall|q: int|
                0 <= q < final(self).recv_queue@.len() ==> (#[trigger] final(self).recv_queue@[q])@.len() == 0,
            forall|i: int|
                0 <= i < old(self).nodes@.len() ==> netnode_message_steps(
                    old(self).nodes@[i],
                    final(self).nodes@[i],
                    queue_models((#[trigger] old(self).recv_queue@[i])@),
                ),
    {
        let mut i: usize = 0;
        while i < self.n
            invariant
                old(self).wf(),
                self.wf(),
                i <= self.n,
                self.n == old(self).n,
                self.e == old(self).e,
                Network::chains_grow(*old(self), *self),
                forall|j: int|
                    0 <= j < i ==> (#[trigger] self.recv_queue@[j])@.len() == 0,
                forall|j: int|
                    0 <= j < i ==> netnode_message_steps(
                        old(self).nodes@[j],
                        (#[trigger] self.nodes@[j]),
                        queue_models(old(self).recv_queue@[j]@),
                    ),
                forall|j: int|
                    i <= j < self.n ==> (#[trigger] self.nodes@[j]) == old(self).nodes@[j]
                        && self.recv_queue@[j] == old(self).recv_queue@[j],
            decreases self.n - i,
        {
            let ghost consumed: int = 0;
            proof {
                assert(self.nodes@[i as int] == old(self).nodes@[i as int]);
                assert(self.recv_queue@[i as int] == old(self).recv_queue@[i as int]);
                assert(old(self).recv_queue@[i as int]@.skip(0) =~= old(self).recv_queue@[
                    i as int]@);
                assert(queue_models(old(self).recv_queue@[i as int]@.take(0))
                    =~= Seq::<MessageModel>::empty());
            }
            loop
                invariant
                    old(self).wf(),
                    self.wf(),
                    i < self.n,
                    self.n == old(self).n,
                    self.e == old(self).e,
                    Network::chains_grow(*old(self), *self),
                    0 <= consumed <= old(self).recv_queue@[i as int]@.len(),
                    self.recv_queue@[i as int]@ == old(self).recv_queue@[i as int]@.skip(
                        consumed,
                    ),
                    netnode_message_steps(
                        old(self).nodes@[i as int],
                        self.nodes@[i as int],
                        queue_models(old(self).recv_queue@[i as int]@.take(consumed)),
                    ),
                    forall|j: int|
                        0 <= j < i ==> (#[trigger] self.recv_queue@[j])@.len() == 0,
                    forall|j: int|
                        0 <= j < i ==> netnode_message_steps(
                            old(self).nodes@[j],
                            (#[trigger] self.nodes@[j]),
                            queue_models(old(self).recv_queue@[j]@),
                        ),
                    forall|j: int|
                        i < j < self.n ==> (#[trigger] self.nodes@[j]) == old(self).nodes@[j]
                            && self.recv_queue@[j] == old(self).recv_queue@[j],
                ensures
                    self.wf(),
                    self.n == old(self).n,
                    self.e == old(self).e,
                    i < self.n,
                    Network::chains_grow(*old(self), *self),
                    self.recv_queue@[i as int]@.len() == 0,
                    netnode_message_steps(
                        old(self).nodes@[i as int],
                        self.nodes@[i as int],
                        queue_models(old(self).recv_queue@[i as int]@),
                    ),
                    forall|j: int|
                        0 <= j < i ==> (#[trigger] self.recv_queue@[j])@.len() == 0,
                    forall|j: int|
                        0 <= j < i ==> netnode_message_steps(
                            old(self).nodes@[j],
                            (#[trigger] self.nodes@[j]),
                            queue_models(old(self).recv_queue@[j]@),
                        ),
                    forall|j: int|
                        i < j < self.n ==> (#[trigger] self.nodes@[j]) == old(self).nodes@[j]
                            && self.recv_queue@[j] == old(self).recv_queue@[j],
                decreases self.recv_queue@[i as int]@.len(),
            {
                let next = self.recv_queue[i].pop_front();
                match next {
                    Some(pair) => {
                        proof {
                            assert(pair == old(self).recv_queue@[i as int]@[consumed]);
                        }
                        let ghost prev = *self;
                        self.nodes[i].incoming_message(&pair.0, pair.1);
                        proof {
                            assert(self.nodes@.len() == prev.nodes@.len());
                            assert(prev.nodes@.len() == old(self).nodes@.len());
                            Network::lemma_chains_grow_update(prev, *self, i as int);
                            Network::lemma_chains_grow_trans(*old(self), prev, *self);
                            lemma_netnode_steps_push(
                                old(self).nodes@[i as int],
                                prev.nodes@[i as int],
                                self.nodes@[i as int],
                                queue_models(old(self).recv_queue@[i as int]@.take(consumed)),
                                pair.0@,
                            );
                            assert(queue_models(
                                old(self).recv_queue@[i as int]@.take(consumed + 1),
                            ) =~= queue_models(
                                old(self).recv_queue@[i as int]@.take(consumed),
                            ).push(pair.0@));
                            consumed = consumed + 1;
                            assert(self.recv_queue@[i as int]@ =~= old(self).recv_queue@[
                                i as int]@.skip(consumed));
                        }
                    },
                    None => {
                        proof {
                            assert(old(self).recv_queue@[i as int]@.take(consumed) =~= old(self).recv_queue@[i as int]@);
                        }
                        break ;
                    },
                }
            }
            i += 1;
        }
    }

    /// Lets every validator retry its deferred messages.
    fn process_all_pools(&mut self)
        requires
            old(self).wf(),
        ensures
            final(self).wf(),
            final(self).n == old(self).n,
            final(self).e == old(self).e,
            final(self).recv_queue@ == old(self).recv_queue@,
            Network::chains_grow(*old(self), *final(self)),
            forall|i: int|
                0 <= i < old(self).nodes@.len() ==> netnode_pool_effect(
                    old(self).nodes@[i],
                    (#[trigger] final(self).nodes@[i]),
                ),
    {
        let mut i: usize = 0;
        while i < self.n
            invariant
                old(self).wf(),
                self.wf(),
                i <= self.n,
                self.n == old(self).n,
                self.e == old(self).e,
                self.recv_queue@ == old(self).recv_queue@,
                Network::chains_grow(*old(self), *self),
                forall|j: int|
                    0 <= j < i ==> netnode_pool_effect(
                        old(self).nodes@[j],
                        (#[trigger] self.nodes@[j]),
                    ),
                forall|j: int|
                    i <= j < self.n ==> (#[trigger] self.nodes@[j]) == old(self).nodes@[j],
            decreases self.n - i,
        {
            let ghost prev = *self;
            self.nodes[i].process_unprocessed_pool();
            proof {
                assert(self.nodes@.len() == prev.nodes@.len());
                assert(prev.nodes@.len() == old(self).nodes@.len());
                Network::lemma_chains_grow_update(prev, *self, i as int);
                Network::lemma_chains_grow_trans(*old(self), prev, *self);
            }
            i += 1;
        }
    }

    /// Notifies every validator of the new epoch, in id order.
    fn notify_new_epoch(&mut self)
        requires
            old(self).wf(),
        ensures
            final(self).wf(),
            final(self).n == old(self).n,
            final(self).e == old(self).e,
            final(self).recv_queue@ == old(self).recv_queue@,
            Network::chains_grow(*old(self), *final(self)),
            forall|i: int|
                0 <= i < old(self).nodes@.len() ==> netnode_new_epoch_effect(
                    old(self).nodes@[i],
                    (#[trigger] final(self).nodes@[i]),
                    old(self).e,
                ),
    {
        let e = self.e;
        let mut i: usize = 0;
        while i < self.n
            invariant
                old(self).wf(),
                self.wf(),
                i <= self.n,
                self.n == old(self).n,
                self.e == old(self).e,
                e == old(self).e,
                self.recv_queue@ == old(self).recv_queue@,
                Network::chains_grow(*old(self), *self),
                forall|j: int|
                    0 <= j < i ==> netnode_new_epoch_effect(
                        old(self).nodes@[j],
                        (#[trigger] self.nodes@[j]),
                        old(self).e,
                    ),
                forall|j: int|
                    i <= j < self.n ==> (#[trigger] self.nodes@[j]) == old(self).nodes@[j],
            decreases self.n - i,
        {
            let ghost prev = *self;
            self.nodes[i].new_epoch(e);
            proof {
                assert(self.nodes@.len() == prev.nodes@.len());
                assert(prev.nodes@.len() == old(self).nodes@.len());
                Network::lemma_chains_grow_update(prev, *self, i as int);
                Network::lemma_chains_grow_trans(*old(self), prev, *self);
            }
            i += 1;
        }
    }

    /// Runs `epoch_limit` epochs with perfectly in-order delivery: each epoch
    /// notifies every validator, then runs three rounds of deliver-then-send,
    /// then drains the deferred pools.
    pub fn run_simple(&mut self, epoch_limit: usize)
        requires
            old(self).wf(),
            old(self).e + epoch_limit <= usize::MAX,
        ensures
            final(self).wf(),
            final(self).n == old(self).n,
            final(self).e == old(self).e + epoch_limit,
            Network::chains_grow(*old(self), *final(self)),
            spec_run_simple(*old(self), *final(self), epoch_limit as nat),
    {
        let mut epoch: usize = 0;
        proof {
            assert(spec_run_simple(*old(self), *self, 0));
        }
        while epoch < epoch_limit
            invariant
                old(self).wf(),
                self.wf(),
                epoch <= epoch_limit,
                self.n == old(self).n,
                self.e == old(self).e + epoch,
                old(self).e + epoch_limit <= usize::MAX,
                Network::chains_grow(*old(self), *self),
                spec_run_simple(*old(self), *self, epoch as nat),
            decreases epoch_limit - epoch,
        {
            let ghost pre_epoch = *self;
            self.e = self.e + 1;
            let ghost s1 = *self;
            self.notify_new_epoch();
            let ghost s2 = *self;
            proof {
                Network::lemma_chains_grow_trans(*old(self), s1, *self);
            }
            self.recv_all();
            let ghost s3 = *self;
            proof {
                Network::lemma_chains_grow_trans(*old(self), s2, *self);
            }
            self.send_all();
            let ghost s4 = *self;
            proof {
                Network::lemma_chains_grow_of_equal(s3, *self);
                Network::lemma_chains_grow_trans(*old(self), s3, *self);
            }
            self.recv_all();
            let ghost s5 = *self;
            proof {
                Network::lemma_chains_grow_trans(*old(self), s4, *self);
            }
            self.send_all();
            let ghost s6 = *self;
            proof {
                Network::lemma_chains_grow_of_equal(s5, *self);
                Network::lemma_chains_grow_trans(*old(self), s5, *self);
            }
            self.recv_all();
            let ghost s7 = *self;
            proof {
                Network::lemma_chains_grow_trans(*old(self), s6, *self);
            }
            self.send_all();
            let ghost s8 = *self;
            proof {
                Network::lemma_chains_grow_of_equal(s7, *self);
                Network::lemma_chains_grow_trans(*old(self), s7, *self);
            }
            self.process_all_pools();
            proof {
                Network::lemma_chains_grow_trans(*old(self), s8, *self);
                assert(spec_epoch_simple(pre_epoch, *self)) by {
                    assert(spec_epoch_bump(pre_epoch, s1));
                    assert(spec_notify_round(s1, s2));
                    assert(spec_recv_round(s2, s3));
                    assert(spec_send_round(s3, s4));
                    assert(spec_recv_round(s4, s5));
                    assert(spec_send_round(s5, s6));
                    assert(spec_recv_round(s6, s7));
                    assert(spec_send_round(s7, s8));
                    assert(spec_pools_round(s8, *self));
                }
                assert(spec_run_simple(*old(self), *self, (epoch + 1) as nat));
            }
            epoch += 1;
        }
    }

    /// Gathers every queued message of every receiver into one vector and
    /// shuffles it with the seeded generator; the queues are left empty.
    fn randomize_messages(&mut self) -> (r: Vec<Delivery>)
        requires
            old(self).wf(),
        ensures
            final(self).wf(),
            final(self).n == old(self).n,
            final(self).e == old(self).e,
            final(self).nodes@ == old(self).nodes@,
            forall|k: int| 0 <= k < r@.len() ==> (#[trigger] r@[k]).receiver < final(self).n,
            forall|q: int|
                0 <= q < final(self).recv_queue@.len() ==> (#[trigger] final(self).recv_queue@[q])@.len() == 0,
            r@.to_multiset() == gathered_upto(
                old(self).recv_queue@,
                old(self).recv_queue@.len() as int,
            ).to_multiset(),
    {
        let mut gathered: Vec<Delivery> = Vec::new();
        let mut i: usize = 0;
        while i < self.n
            invariant
                old(self).wf(),
                self.wf(),
                i <= self.n,
                self.n == old(self).n,
                self.e == old(self).e,
                self.nodes@ == old(self).nodes@,
                gathered@ == gathered_upto(old(self).recv_queue@, i as int),
                forall|k: int|
                    0 <= k < gathered@.len() ==> (#[trigger] gathered@[k]).receiver < self.n,
                forall|q: int| 0 <= q < i ==> (#[trigger] self.recv_queue@[q])@.len() == 0,
                forall|q: int|
                    i <= q < self.n ==> (#[trigger] self.recv_queue@[q]) == old(
                        self,
                    ).recv_queue@[q],
            decreases self.n - i,
        {
            let ghost consumed: int = 0;
            proof {
                assert(self.recv_queue@[i as int] == old(self).recv_queue@[i as int]);
                assert(old(self).recv_queue@[i as int]@.skip(0) =~= old(self).recv_queue@[
                    i as int]@);
                assert(row_deliveries(old(self).recv_queue@[i as int]@.take(0), i)
                    =~= Seq::<Delivery>::empty());
                assert(gathered@ =~= gathered@ + row_deliveries(
                    old(self).recv_queue@[i as int]@.take(0),
                    i,
                ));
            }
            loop
                invariant
                    old(self).wf(),
                    self.wf(),
                    i < self.n,
                    self.n == old(self).n,
                    self.e == old(self).e,
                    self.nodes@ == old(self).nodes@,
                    0 <= consumed <= old(self).recv_queue@[i as int]@.len(),
                    self.recv_queue@[i as int]@ == old(self).recv_queue@[i as int]@.skip(
                        consumed,
                    ),
                    gathered@ == gathered_upto(old(self).recv_queue@, i as int)
                        + row_deliveries(
                        old(self).recv_queue@[i as int]@.take(consumed),
                        i,
                    ),
                    forall|k: int|
                        0 <= k < gathered@.len() ==> (#[trigger] gathered@[k]).receiver < self.n,
                    forall|q: int| 0 <= q < i ==> (#[trigger] self.recv_queue@[q])@.len() == 0,
                    forall|q: int|
                        i < q < self.n ==> (#[trigger] self.recv_queue@[q]) == old(
                            self,
                        ).recv_queue@[q],
                ensures
                    self.wf(),
                    i < self.n,
                    self.n == old(self).n,
                    self.e == old(self).e,
                    self.nodes@ == old(self).nodes@,
                    self.recv_queue@[i as int]@.len() == 0,
                    gathered@ == gathered_upto(old(self).recv_queue@, i + 1),
                    forall|k: int|
                        0 <= k < gathered@.len() ==> (#[trigger] gathered@[k]).receiver < self.n,
                    forall|q: int| 0 <= q < i ==> (#[trigger] self.recv_queue@[q])@.len() == 0,
                    forall|q: int|
                        i < q < self.n ==> (#[trigger] self.recv_queue@[q]) == old(
                            self,
                        ).recv_queue@[q],
                decreases self.recv_queue@[i as int]@.len(),
            {
                let next = self.recv_queue[i].pop_front();
                match next {
                    Some(pair) => {
                        proof {
                            assert(pair == old(self).recv_queue@[i as int]@[consumed]);
                        }
                        gathered.push(Delivery { msg: pair.0, receiver: i, sender: pair.1 });
                        proof {
                            assert(row_deliveries(
                                old(self).recv_queue@[i as int]@.take(consumed + 1),
                                i,
                            ) =~= row_deliveries(
                                old(self).recv_queue@[i as int]@.take(consumed),
                                i,
                            ).push(
                                Delivery {
                                    msg: old(self).recv_queue@[i as int]@[consumed].0,
                                    receiver: i,
                                    sender: old(self).recv_queue@[i as int]@[consumed].1,
                                },
                            ));
                            consumed = consumed + 1;
                            assert(self.recv_queue@[i as int]@ =~= old(self).recv_queue@[
                                i as int]@.skip(consumed));
                            assert(gathered@ =~= gathered_upto(old(self).recv_queue@, i as int)
                                + row_deliveries(
                                old(self).recv_queue@[i as int]@.take(consumed),
                                i,
                            ));
                        }
                    },
                    None => {
                        proof {
                            assert(old(self).recv_queue@[i as int]@.take(consumed) =~= old(
                                self,
                            ).recv_queue@[i as int]@);
                            assert(gathered_upto(old(self).recv_queue@, i + 1) == gathered_upto(
                                old(self).recv_queue@,
                                i as int,
                            ) + row_deliveries(old(self).recv_queue@[i as int]@, i));
                        }
                        break ;
                    },
                }
            }
            i += 1;
        }
        let ghost before = gathered@;
        shuffle_deliveries(&mut self.rng, &mut gathered);
        proof {
            broadcast use group_to_multiset_ensures;

            assert(before == gathered_upto(
                old(self).recv_queue@,
                old(self).recv_queue@.len() as int,
            ));
            assert forall|k: int|
                0 <= k < gathered@.len() implies (#[trigger] gathered@[k]).receiver
                < self.n by {
                assert(gathered@.contains(gathered@[k]));
                assert(gathered@.to_multiset().count(gathered@[k]) > 0);
                assert(before.to_multiset().count(gathered@[k]) > 0);
                assert(before.contains(gathered@[k]));
                let j = choose|j: int| 0 <= j < before.len() && before[j] == gathered@[k];
                assert(before[j].receiver < self.n);
            }
        }
        gathered
    }

    /// Delivers the given messages in their (shuffled) order.
    fn deliver(&mut self, deliveries: &Vec<Delivery>)
        requires
            old(self).wf(),
            forall|k: int|
                0 <= k < deliveries@.len() ==> (#[trigger] deliveries@[k]).receiver < old(self).n,
        ensures
            final(self).wf(),
            final(self).n == old(self).n,
            final(self).e == old(self).e,
            final(self).recv_queue@ == old(self).recv_queue@,
            Network::chains_grow(*old(self), *final(self)),
            spec_deliver_steps(old(self).nodes@, final(self).nodes@, deliveries@),
    {
        let mut k: usize = 0;
        while k < deliveries.len()
            invariant
                old(self).wf(),
                self.wf(),
                k <= deliveries@.len(),
                self.n == old(self).n,
                self.e == old(self).e,
                self.recv_queue@ == old(self).recv_queue@,
                forall|t: int|
                    0 <= t < deliveries@.len() ==> (#[trigger] deliveries@[t]).receiver
                        < self.n,
                Network::chains_grow(*old(self), *self),
                spec_deliver_steps(old(self).nodes@, self.nodes@, deliveries@.take(k as int)),
            decreases deliveries@.len() - k,
        {
            let receiver = deliveries[k].receiver;
            let sender = deliveries[k].sender;
            let ghost prev = *self;
            self.nodes[receiver].incoming_message(&deliveries[k].msg, sender);
            proof {
                assert(self.nodes@.len() == prev.nodes@.len());
                assert(prev.nodes@.len() == old(self).nodes@.len());
                Network::lemma_chains_grow_update(prev, *self, receiver as int);
                Network::lemma_chains_grow_trans(*old(self), prev, *self);
                lemma_deliver_steps_push(
                    old(self).nodes@,
                    prev.nodes@,
                    self.nodes@[receiver as int],
                    deliveries@.take(k as int),
                    deliveries@[k as int],
                );
                assert(self.nodes@ == prev.nodes@.update(
                    receiver as int,
                    self.nodes@[receiver as int],
                )) by {
                    assert(self.nodes@ =~= prev.nodes@.update(
                        receiver as int,
                        self.nodes@[receiver as int],
                    ));
                }
                assert(deliveries@.take(k + 1) =~= deliveries@.take(k as int).push(
                    deliveries@[k as int],
                ));
            }
            k += 1;
        }
        proof {
            assert(deliveries@.take(deliveries@.len() as int) =~= deliveries@);
        }
    }

    /// Runs `epoch_limit` epochs under synchrony with reordering: every round
    /// delivers all queued messages, but in an order shuffled by the seeded
    /// generator.
    pub fn run_reorder(&mut self, epoch_limit: usize)
        requires
            old(self).wf(),
            old(self).e + epoch_limit <= usize::MAX,
        ensures
            final(self).wf(),
            final(self).n == old(self).n,
            final(self).e == old(self).e + epoch_limit,
            Network::chains_grow(*old(self), *final(self)),
            spec_run_reorder(*old(self), *final(self), epoch_limit as nat),
    {
        let mut epoch: usize = 0;
        proof {
            assert(spec_run_reorder(*old(self), *self, 0));
        }
        while epoch < epoch_limit
            invariant
                old(self).wf(),
                self.wf(),
                epoch <= epoch_limit,
                self.n == old(self).n,
                self.e == old(self).e + epoch,
                old(self).e + epoch_limit <= usize::MAX,
                Network::chains_grow(*old(self), *self),
                spec_run_reorder(*old(self), *self, epoch as nat),
            decreases epoch_limit - epoch,
        {
            let ghost pre_epoch = *self;
            self.e = self.e + 1;
            let ghost s1 = *self;
            self.notify_new_epoch();
            let ghost s2 = *self;
            proof {
                Network::lemma_chains_grow_trans(*old(self), s1, *self);
            }
            let d1 = self.randomize_messages();
            let ghost s2b = *self;
            proof {
                Network::lemma_chains_grow_of_equal(s2, *self);
                Network::lemma_chains_grow_trans(*old(self), s2, *self);
            }
            self.deliver(&d1);
            let ghost s3 = *self;
            proof {
                Network::lemma_chains_grow_trans(*old(self), s2b, *self);
                assert(spec_shuffled_delivery_round(s2, s3)) by {
                    assert(spec_deliver_steps(s2b.nodes@, s3.nodes@, d1@));
                    assert(s2b.nodes@ == s2.nodes@);
                }
            }
            self.send_all();
            let ghost s4 = *self;
            proof {
                Network::lemma_chains_grow_of_equal(s3, *self);
                Network::lemma_chains_grow_trans(*old(self), s3, *self);
            }
            let d2 = self.randomize_messages();
            let ghost s4b = *self;
            proof {
                Network::lemma_chains_grow_of_equal(s4, *self);
                Network::lemma_chains_grow_trans(*old(self), s4, *self);
            }
            self.deliver(&d2);
            let ghost s5 = *self;
            proof {
                Network::lemma_chains_grow_trans(*old(self), s4b, *self);
                assert(spec_shuffled_delivery_round(s4, s5)) by {
                    assert(spec_deliver_steps(s4b.nodes@, s5.nodes@, d2@));
                    assert(s4b.nodes@ == s4.nodes@);
                }
            }
            self.send_all();
            let ghost s6 = *self;
            proof {
                Network::lemma_chains_grow_of_equal(s5, *self);
                Network::lemma_chains_grow_trans(*old(self), s5, *self);
            }
            let d3 = self.randomize_messages();
            let ghost s6b = *self;
            proof {
                Network::lemma_chains_grow_of_equal(s6, *self);
                Network::lemma_chains_grow_trans(*old(self), s6, *self);
            }
            self.deliver(&d3);
            let ghost s7 = *self;
            proof {
                Network::lemma_chains_grow_trans(*old(self), s6b, *self);
                assert(spec_shuffled_delivery_round(s6, s7)) by {
                    assert(spec_deliver_steps(s6b.nodes@, s7.nodes@, d3@));
                    assert(s6b.nodes@ == s6.nodes@);
                }
            }
            self.send_all();
            let ghost s8 = *self;
            proof {
                Network::lemma_chains_grow_of_equal(s7, *self);
                Network::lemma_chains_grow_trans(*old(self), s7, *self);
            }
            self.process_all_pools();
            proof {
                Network::lemma_chains_grow_trans(*old(self), s8, *self);
                assert(spec_epoch_reorder(pre_epoch, *self)) by {
                    assert(spec_epoch_bump(pre_epoch, s1));
                    assert(spec_notify_round(s1, s2));
                    assert(spec_send_round(s3, s4));
                    assert(spec_send_round(s5, s6));
                    assert(spec_send_round(s7, s8));
                    assert(spec_pools_round(s8, *self));
                }
                assert(spec_run_reorder(*old(self), *self, (epoch + 1) as nat));
            }
            epoch += 1;
        }
    }

    /// Picks each queued message independently with probability
    /// `percent`/100 (the rest stay queued in their original per-receiver
    /// order), and shuffles the picked ones.
    fn pick_random_messages(&mut self, percent: u64) -> (r: Vec<Delivery>)
        requires
            old(self).wf(),
        ensures
            final(self).wf(),
            final(self).n == old(self).n,
            final(self).e == old(self).e,
            final(self).nodes@ == old(self).nodes@,
            forall|k: int| 0 <= k < r@.len() ==> (#[trigger] r@[k]).receiver < final(self).n,
    {
        let mut picked: Vec<Delivery> = Vec::new();
        let mut i: usize = 0;
        while i < self.n
            invariant
                self.wf(),
                i <= self.n,
                self.n == old(self).n,
                self.e == old(self).e,
                self.nodes@ == old(self).nodes@,
                forall|k: int|
                    0 <= k < picked@.len() ==> (#[trigger] picked@[k]).receiver < self.n,
            decreases self.n - i,
        {
            let mut kept: VecDeque<(Message, usize)> = VecDeque::new();
            loop
                invariant
                    self.wf(),
                    i < self.n,
                    self.n == old(self).n,
                    self.e == old(self).e,
                    self.nodes@ == old(self).nodes@,
                    forall|k: int|
                        0 <= k < picked@.len() ==> (#[trigger] picked@[k]).receiver < self.n,
                ensures
                    self.wf(),
                    i < self.n,
                    self.n == old(self).n,
                    self.e == old(self).e,
                    self.nodes@ == old(self).nodes@,
                    self.recv_queue@[i as int]@.len() == 0,
                    forall|k: int|
                        0 <= k < picked@.len() ==> (#[trigger] picked@[k]).receiver < self.n,
                decreases self.recv_queue@[i as int]@.len(),
            {
                let next = self.recv_queue[i].pop_front();
                match next {
                    Some(pair) => {
                        if rng_percent(&mut self.rng, percent) {
                            picked.push(Delivery { msg: pair.0, receiver: i, sender: pair.1 });
                        } else {
                            kept.push_back(pair);
                        }
                    },
                    None => {
                        break ;
                    },
                }
            }
            loop
                invariant
                    self.wf(),
                    i < self.n,
                    self.n == old(self).n,
                    self.e == old(self).e,
                    self.nodes@ == old(self).nodes@,
                    forall|k: int|
                        0 <= k < picked@.len() ==> (#[trigger] picked@[k]).receiver < self.n,
                ensures
                    self.wf(),
                    i < self.n,
                    self.n == old(self).n,
                    self.e == old(self).e,
                    self.nodes@ == old(self).nodes@,
                    forall|k: int|
                        0 <= k < picked@.len() ==> (#[trigger] picked@[k]).receiver < self.n,
                decreases kept@.len(),
            {
                match kept.pop_front() {
                    Some(pair) => {
                        self.recv_queue[i].push_back(pair);
                    },
                    None => {
                        break ;
                    },
                }
            }
            i += 1;
        }
        let ghost before = picked@;
        shuffle_deliveries(&mut self.rng, &mut picked);
        proof {
            broadcast use group_to_multiset_ensures;

            assert forall|k: int|
                0 <= k < picked@.len() implies (#[trigger] picked@[k]).receiver < self.n by {
                assert(picked@.contains(picked@[k]));
                assert(picked@.to_multiset().count(picked@[k]) > 0);
                assert(before.to_multiset().count(picked@[k]) > 0);
                assert(before.contains(picked@[k]));
                let j = choose|j: int| 0 <= j < before.len() && before[j] == picked@[k];
                assert(before[j].receiver < self.n);
            }
        }
        picked
    }

    /// Runs `epoch_limit` epochs where the first half suffers random delays:
    /// in each round every queued message is delivered only with probability
    /// `percent`/100, the rest stay queued. From the halfway mark on the
    /// regime behaves exactly like the reordering one: network conditions are
    /// stable and every message is delivered within its round.
    pub fn run_delays_then_synchrony(&mut self, epoch_limit: usize, percent: u64)
        requires
            old(self).wf(),
            old(self).e + epoch_limit <= usize::MAX,
        ensures
            final(self).wf(),
            final(self).n == old(self).n,
            final(self).e == old(self).e + epoch_limit,
            Network::chains_grow(*old(self), *final(self)),
            exists|mid: Network|
                #[trigger] spec_run_delays(*old(self), mid, (epoch_limit / 2) as nat)
                    && spec_run_reorder(mid, *final(self), (epoch_limit - epoch_limit / 2) as nat),
    {
        let half = epoch_limit / 2;
        let mut epoch: usize = 0;
        proof {
            assert(spec_run_delays(*old(self), *self, 0));
        }
        while epoch < half
            invariant
                old(self).wf(),
                self.wf(),
                half == epoch_limit / 2,
                epoch <= half,
                self.n == old(self).n,
                self.e == old(self).e + epoch,
                old(self).e + epoch_limit <= usize::MAX,
                Network::chains_grow(*old(self), *self),
                spec_run_delays(*old(self), *self, epoch as nat),
            decreases half - epoch,
        {
            let ghost pre_epoch = *self;
            self.e = self.e + 1;
            let ghost s1 = *self;
            self.notify_new_epoch();
            let ghost s2 = *self;
            proof {
                Network::lemma_chains_grow_trans(*old(self), s1, *self);
            }
            let d1 = self.pick_random_messages(percent);
            let ghost s2b = *self;
            proof {
                Network::lemma_chains_grow_of_equal(s2, *self);
                Network::lemma_chains_grow_trans(*old(self), s2, *self);
            }
            self.deliver(&d1);
            let ghost s3 = *self;
            proof {
                Network::lemma_chains_grow_trans(*old(self), s2b, *self);
                assert(spec_lossy_delivery_round(s2, s3)) by {
                    assert(spec_deliver_steps(s2b.nodes@, s3.nodes@, d1@));
                    assert(s2b.nodes@ == s2.nodes@);
                }
            }
            self.send_all();
            let ghost s4 = *self;
            proof {
                Network::lemma_chains_grow_of_equal(s3, *self);
                Network::lemma_chains_grow_trans(*old(self), s3, *self);
            }
            let d2 = self.pick_random_messages(percent);
            let ghost s4b = *self;
            proof {
                Network::lemma_chains_grow_of_equal(s4, *self);
                Network::lemma_chains_grow_trans(*old(self), s4, *self);
            }
            self.deliver(&d2);
            let ghost s5 = *self;
            proof {
                Network::lemma_chains_grow_trans(*old(self), s4b, *self);
                assert(spec_lossy_delivery_round(s4, s5)) by {
                    assert(spec_deliver_steps(s4b.nodes@, s5.nodes@, d2@));
                    assert(s4b.nodes@ == s4.nodes@);
                }
            }
            self.send_all();
            let ghost s6 = *self;
            proof {
                Network::lemma_chains_grow_of_equal(s5, *self);
                Network::lemma_chains_grow_trans(*old(self), s5, *self);
            }
            let d3 = self.pick_random_messages(percent);
            let ghost s6b = *self;
            proof {
                Network::lemma_chains_grow_of_equal(s6, *self);
                Network::lemma_chains_grow_trans(*old(self), s6, *self);
            }
            self.deliver(&d3);
            let ghost s7 = *self;
            proof {
                Network::lemma_chains_grow_trans(*old(self), s6b, *self);
                assert(spec_lossy_delivery_round(s6, s7)) by {
                    assert(spec_deliver_steps(s6b.nodes@, s7.nodes@, d3@));
                    assert(s6b.nodes@ == s6.nodes@);
                }
            }
            self.send_all();
            let ghost s8 = *self;
            proof {
                Network::lemma_chains_grow_of_equal(s7, *self);
                Network::lemma_chains_grow_trans(*old(self), s7, *self);
            }
            self.process_all_pools();
            proof {
                Network::lemma_chains_grow_trans(*old(self), s8, *self);
                assert(spec_epoch_delay(pre_epoch, *self)) by {
                    assert(spec_epoch_bump(pre_epoch, s1));
                    assert(spec_notify_round(s1, s2));
                    assert(spec_send_round(s3, s4));
                    assert(spec_send_round(s5, s6));
                    assert(spec_send_round(s7, s8));
                    assert(spec_pools_round(s8, *self));
                }
                assert(spec_run_delays(*old(self), *self, (epoch + 1) as nat));
            }
            epoch += 1;
        }
        let rest = epoch_limit - half;
        let ghost s9 = *self;
        self.run_reorder(rest);
        proof {
            Network::lemma_chains_grow_trans(*old(self), s9, *self);
            assert(spec_run_delays(*old(self), s9, (epoch_limit / 2) as nat));
            assert(spec_run_reorder(s9, *self, (epoch_limit - epoch_limit / 2) as nat));
        }
    }
}

} // verus!
