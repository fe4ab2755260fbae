//! The consistency oracle: after a run it extracts each honest validator's
//! finalized chain and verifies the safety property — every finalized set is
//! exactly one chain, and any two honest validators' chains are related by
//! the prefix relation.

use vstd::prelude::*;
use crate::blockchain::{Blockchain, hash_in, hash_vec_contains, spec_genesis_hash, view_seq};
use crate::node::Node;
use crate::network::{NetNode, Network};

verus! {

/// The path of block hashes from genesis up to block `h`, genesis first.
pub open spec fn chain_to(c: Blockchain, h: Seq<u8>) -> Seq<Seq<u8>>
    recommends
        c.wf(),
        c.spec_contains(h),
    decreases c.block_of(h).height
        when c.wf() && c.spec_contains(h)
        via chain_to_decreases
{
    if !c.wf() || !c.spec_contains(h) {
        seq![h]
    } else if c.block_of(h).parent_hash is Some {
        chain_to(c, c.block_of(h).parent_hash.unwrap()@).push(h)
    } else {
        seq![h]
    }
}

#[via_fn]
proof fn chain_to_decreases(c: Blockchain, h: Seq<u8>) {
    if c.wf() && c.spec_contains(h) {
        let i = c.idx_of(h);
        c.lemma_idx_of(i);
        assert(c.block_entry_wf(i));
        if c.block_of(h).parent_hash is Some {
            assert(i >= 1) by {
                if i == 0 {
                    assert(c.blocks@[0].parent_hash is None);
                }
            }
            let p = c.block_of(h).parent_hash.unwrap()@;
            assert(c.spec_contains(p));
            assert(c.block_of(h).height == c.block_of(p).height + 1);
        }
    }
}

/// The finalized chain the oracle extracts from one validator's tree: the
/// parent path, genesis first, up to the block the backward scan picks among
/// the finalized ones.
pub open spec fn spec_finalized_chain(c: Blockchain) -> Seq<Seq<u8>> {
    chain_to(c, c.spec_highest_marked(c.finalized@)@)
}

/// Chain-equals-set for one validator: every hash on the extracted finalized
/// chain is finalized, and every finalized hash lies on that chain.
pub open spec fn spec_chain_set_ok(c: Blockchain) -> bool {
    &&& forall|k: int|
        0 <= k < spec_finalized_chain(c).len() ==> c.spec_finalized(
            #[trigger] spec_finalized_chain(c)[k],
        )
    &&& forall|i: int|
        0 <= i < c.finalized@.len() ==> spec_finalized_chain(c).contains(
            (#[trigger] c.finalized@[i])@,
        )
}

/// One hash sequence is a prefix of another.
pub open spec fn spec_prefix(a: Seq<Seq<u8>>, b: Seq<Seq<u8>>) -> bool {
    a.len() <= b.len() && forall|k: int| 0 <= k < a.len() ==> a[k] == b[k]
}

/// The block tree of a validator of either kind.
pub open spec fn node_chain(nn: NetNode) -> Blockchain {
    match nn {
        NetNode::Honest(node) => node.chain,
        NetNode::Attacker(a) => a.node.chain,
    }
}

/// The safety property over a finished run, exactly as the oracle decides it:
/// for every honest validator the extracted finalized chain is exactly the
/// finalized set, and for any two honest validators one extracted chain is a
/// prefix of the other.
pub open spec fn spec_consistent(net: Network) -> bool {
    &&& forall|i: int|
        0 <= i < net.nodes@.len() && (#[trigger] net.nodes@[i]) is Honest
            ==> spec_chain_set_ok(node_chain(net.nodes@[i]))
    &&& forall|i: int, j: int|
        0 <= i < net.nodes@.len() && 0 <= j < net.nodes@.len() && (#[trigger] net.nodes@[i])
            is Honest && (#[trigger] net.nodes@[j]) is Honest ==> spec_prefix(
            spec_finalized_chain(node_chain(net.nodes@[i])),
            spec_finalized_chain(node_chain(net.nodes@[j])),
        ) || spec_prefix(
            spec_finalized_chain(node_chain(net.nodes@[j])),
            spec_finalized_chain(node_chain(net.nodes@[i])),
        )
}

/// The consistency oracle over a finished run.
pub struct TestNetwork;

impl TestNetwork {
    /// Extracts a validator's finalized chain: starting from a highest
    /// finalized block, parents are collected down to genesis, and the
    /// result lists the hashes genesis first.
    pub fn finalized_chain(node: &Node) -> (r: Vec<crate::utils::Hash>)
        requires
            node.wf(),
        ensures
            r@.len() >= 1,
            node.chain.spec_finalized(r@[r@.len() - 1]@),
            forall|x: Seq<u8>|
                node.chain.spec_finalized(x) ==> node.chain.block_of(x).e <= node.chain.block_of(
                    r@[r@.len() - 1]@,
                ).e,
            view_seq(r@) == spec_finalized_chain(node.chain),
    {
        let tip = node.chain.highest_finalized_block();
        let mut rev: Vec<crate::utils::Hash> = Vec::new();
        rev.push(tip);
        loop
            invariant
                node.wf(),
                rev@.len() >= 1,
                rev@[0] == tip,
                node.chain.spec_contains(rev@[rev@.len() - 1]@),
                chain_to(node.chain, tip@) == chain_to(
                    node.chain,
                    rev@[rev@.len() - 1]@,
                ) + view_seq(rev@.subrange(0, rev@.len() - 1)).reverse(),
            ensures
                node.wf(),
                rev@.len() >= 1,
                rev@[0] == tip,
                chain_to(node.chain, tip@) == view_seq(rev@).reverse(),
            decreases node.chain.block_of(rev@[rev@.len() - 1]@).height,
        {
            let ghost pre = rev@;
            let last = rev.len() - 1;
            let hidx = node.chain.find_block(&rev[last]).unwrap();
            proof {
                node.chain.lemma_idx_of(hidx as int);
                assert(node.chain.block_entry_wf(hidx as int));
            }
            match node.chain.blocks[hidx].parent_hash {
                None => {
                    proof {
                        let h = pre[pre.len() - 1]@;
                        assert(chain_to(node.chain, h) =~= seq![h]);
                        assert(view_seq(pre).reverse() =~= seq![h] + view_seq(
                            pre.subrange(0, pre.len() - 1),
                        ).reverse());
                        assert(chain_to(node.chain, tip@) =~= view_seq(pre).reverse());
                    }
                    break ;
                },
                Some(p) => {
                    rev.push(p);
                    proof {
                        let h = pre[pre.len() - 1]@;
                        assert(node.chain.spec_contains(p@));
                        assert(chain_to(node.chain, h) == chain_to(node.chain, p@).push(h));
                        assert(rev@[rev@.len() - 1] == p);
                        assert(rev@.subrange(0, rev@.len() - 1) =~= pre);
                        assert(view_seq(pre).reverse() =~= seq![h] + view_seq(
                            pre.subrange(0, pre.len() - 1),
                        ).reverse());
                        assert(chain_to(node.chain, p@) + view_seq(pre).reverse() =~= (chain_to(
                            node.chain,
                            p@,
                        ).push(h)) + view_seq(pre.subrange(0, pre.len() - 1)).reverse());
                        assert(node.chain.block_of(p@).height < node.chain.block_of(h).height);
                    }
                },
            }
        }
        // reverse into genesis-first order
        let mut out: Vec<crate::utils::Hash> = Vec::new();
        let mut k: usize = rev.len();
        while k > 0
            invariant
                k <= rev@.len(),
                out@.len() == rev@.len() - k,
                forall|t: int|
                    0 <= t < out@.len() ==> out@[t] == rev@[rev@.len() - 1 - t],
            decreases k,
        {
            k -= 1;
            out.push(rev[k]);
        }
        proof {
            assert(view_seq(out@) =~= view_seq(rev@).reverse());
            assert(out@[out@.len() - 1] == rev@[0]);
            assert(view_seq(out@)[out@.len() - 1] == tip@);
            assert(chain_to(node.chain, tip@) == view_seq(out@));
        }
        out
    }

    /// Decides whether the hashes of a chain are exactly the finalized set:
    /// every chain element is finalized, and every finalized hash occurs in
    /// the chain.
    fn chain_matches_finalized(node: &Node, chain: &Vec<crate::utils::Hash>) -> (r: bool)
        requires
            node.wf(),
        ensures
            r == ((forall|k: int|
                0 <= k < chain@.len() ==> node.chain.spec_finalized((#[trigger] chain@[k])@))
                && (forall|i: int|
                0 <= i < node.chain.finalized@.len() ==> hash_in(
                    chain@,
                    (#[trigger] node.chain.finalized@[i])@,
                ))),
    {
        let mut k: usize = 0;
        while k < chain.len()
            invariant
                k <= chain@.len(),
                forall|t: int|
                    0 <= t < k ==> node.chain.spec_finalized((#[trigger] chain@[t])@),
            decreases chain@.len() - k,
        {
            if !hash_vec_contains(&node.chain.finalized, &chain[k]) {
                return false;
            }
            k += 1;
        }
        let mut i: usize = 0;
        while i < node.chain.finalized.len()
            invariant
                i <= node.chain.finalized@.len(),
                forall|t: int|
                    0 <= t < i ==> hash_in(chain@, (#[trigger] node.chain.finalized@[t])@),
                forall|t: int|
                    0 <= t < chain@.len() ==> node.chain.spec_finalized((#[trigger] chain@[t])@),
            decreases node.chain.finalized@.len() - i,
        {
            if !hash_vec_contains(chain, &node.chain.finalized[i]) {
                return false;
            }
            i += 1;
        }
        true
    }

    /// Decides the prefix relation between two hash lists.
    pub fn is_prefix(prefix: &[crate::utils::Hash], main_list: &[crate::utils::Hash]) -> (r: bool)
        ensures
            r == spec_prefix(view_seq(prefix@), view_seq(main_list@)),
    {
        if prefix.len() > main_list.len() {
            proof {
                assert(view_seq(prefix@).len() == prefix@.len());
                assert(view_seq(main_list@).len() == main_list@.len());
            }
            return false;
        }
        let mut k: usize = 0;
        while k < prefix.len()
            invariant
                prefix@.len() <= main_list@.len(),
                k <= prefix@.len(),
                forall|t: int| 0 <= t < k ==> prefix@[t]@ == main_list@[t]@,
            decreases prefix@.len() - k,
        {
            if !crate::utils::hash_eq(&prefix[k], &main_list[k]) {
                proof {
                    assert(view_seq(prefix@)[k as int] != view_seq(main_list@)[k as int]);
                }
                return false;
            }
            k += 1;
        }
        proof {
            assert forall|t: int|
                0 <= t < view_seq(prefix@).len() implies view_seq(prefix@)[t] == view_seq(
                main_list@,
            )[t] by {
                assert(prefix@[t]@ == main_list@[t]@);
            }
        }
        true
    }

    /// Checks the consistency of a finished run: for every honest validator
    /// the finalized set is exactly one chain, and for every pair of honest
    /// validators one finalized chain is a prefix of the other. A true
    /// verdict establishes the safety property.
    /// Checks the consistency of a finished run: for every honest validator
    /// the finalized set is exactly one chain, and for every pair of honest
    /// validators one finalized chain is a prefix of the other. The verdict
    /// equals the safety property: a true result establishes it, and a false
    /// result means some honest validator or pair violates it.
    pub fn consistency(network: &Network) -> (r: bool)
        requires
            network.wf(),
        ensures
            r == spec_consistent(*network),
    {
        let mut chains: Vec<Vec<crate::utils::Hash>> = Vec::new();
        let ghost mut hidx: Seq<int> = Seq::empty();
        let mut i: usize = 0;
        while i < network.nodes.len()
            invariant
                network.wf(),
                i <= network.nodes@.len(),
                chains@.len() == hidx.len(),
                forall|k: int|
                    0 <= k < hidx.len() ==> 0 <= #[trigger] hidx[k] < network.nodes@.len()
                        && network.nodes@[hidx[k]] is Honest,
                forall|k: int|
                    0 <= k < hidx.len() ==> view_seq((#[trigger] chains@[k])@)
                        == spec_finalized_chain(node_chain(network.nodes@[hidx[k]])),
                forall|k: int|
                    0 <= k < hidx.len() ==> spec_chain_set_ok(
                        node_chain(network.nodes@[#[trigger] hidx[k]]),
                    ),
                forall|t: int|
                    0 <= t < i && network.nodes@[t] is Honest ==> exists|k: int|
                        0 <= k < hidx.len() && #[trigger] hidx[k] == t,
            decreases network.nodes@.len() - i,
        {
            match &network.nodes[i] {
                NetNode::Honest(node) => {
                    let c = Self::finalized_chain(node);
                    if !Self::chain_matches_finalized(node, &c) {
                        proof {
                            // the failed inclusion is exactly the negation of
                            // chain-equals-set for this validator
                            let s2 = view_seq(c@);
                            assert(!spec_chain_set_ok(node.chain)) by {
                                if spec_chain_set_ok(node.chain) {
                                    assert forall|k: int|
                                        0 <= k < c@.len() implies node.chain.spec_finalized(
                                        (#[trigger] c@[k])@,
                                    ) by {
                                        assert(s2[k] == c@[k]@);
                                        assert(node.chain.spec_finalized(s2[k]));
                                    }
                                    assert forall|t: int|
                                        0 <= t < node.chain.finalized@.len() implies hash_in(
                                        c@,
                                        (#[trigger] node.chain.finalized@[t])@,
                                    ) by {
                                        let fh = node.chain.finalized@[t]@;
                                        assert(s2.contains(fh));
                                        let w = choose|w: int|
                                            0 <= w < s2.len() && s2[w] == fh;
                                        assert(c@[w]@ == fh);
                                    }
                                }
                            }
                            assert(!spec_consistent(*network)) by {
                                assert(network.nodes@[i as int] is Honest);
                                assert(node_chain(network.nodes@[i as int]) == node.chain);
                            }
                        }
                        return false;
                    }
                    chains.push(c);
                    proof {
                        let hidx0 = hidx;
                        hidx = hidx.push(i as int);
                        assert(network.nodes@[i as int] is Honest);
                        assert(spec_chain_set_ok(node.chain)) by {
                            let s2 = view_seq(chains@[chains@.len() - 1]@);
                            assert(s2 == spec_finalized_chain(node.chain));
                            assert forall|k: int|
                                0 <= k < s2.len() implies node.chain.spec_finalized(
                                #[trigger] s2[k],
                            ) by {
                                assert(node.chain.spec_finalized(
                                    chains@[chains@.len() - 1]@[k]@,
                                ));
                            }
                            assert forall|t: int|
                                0 <= t < node.chain.finalized@.len() implies s2.contains(
                                (#[trigger] node.chain.finalized@[t])@,
                            ) by {
                                let fh = node.chain.finalized@[t]@;
                                let row = chains@[chains@.len() - 1]@;
                                assert(hash_in(row, fh));
                                let w = choose|w: int| 0 <= w < row.len() && (#[trigger] row[w])@
                                    == fh;
                                assert(s2[w] == fh);
                            }
                        }
                        assert forall|t: int|
                            0 <= t < i + 1 && network.nodes@[t] is Honest implies exists|k: int|
                            0 <= k < hidx.len() && #[trigger] hidx[k] == t by {
                            if t < i {
                                let k0 = choose|k0: int|
                                    0 <= k0 < hidx0.len() && #[trigger] hidx0[k0] == t;
                                assert(hidx[k0] == t);
                            } else {
                                assert(hidx[hidx.len() - 1] == t);
                            }
                        }
                    }
                },
                NetNode::Attacker(_) => {},
            }
            i += 1;
        }
        let mut a: usize = 0;
        while a < chains.len()
            invariant
                network.wf(),
                chains@.len() == hidx.len(),
                a <= chains@.len(),
                forall|k: int|
                    0 <= k < hidx.len() ==> 0 <= #[trigger] hidx[k] < network.nodes@.len()
                        && network.nodes@[hidx[k]] is Honest,
                forall|k: int|
                    0 <= k < hidx.len() ==> view_seq((#[trigger] chains@[k])@)
                        == spec_finalized_chain(node_chain(network.nodes@[hidx[k]])),
                forall|k: int|
                    0 <= k < hidx.len() ==> spec_chain_set_ok(
                        node_chain(network.nodes@[#[trigger] hidx[k]]),
                    ),
                forall|t: int|
                    0 <= t < network.nodes@.len() && network.nodes@[t] is Honest ==> exists|
                        k: int,
                    |
                        0 <= k < hidx.len() && #[trigger] hidx[k] == t,
                forall|x: int, y: int|
                    #![trigger chains@[x], chains@[y]]
                    0 <= x < a && 0 <= y < chains@.len() ==> spec_prefix(
                        view_seq(chains@[x]@),
                        view_seq(chains@[y]@),
                    ) || spec_prefix(view_seq(chains@[y]@), view_seq(chains@[x]@)),
            decreases chains@.len() - a,
        {
            let mut b: usize = 0;
            while b < chains.len()
                invariant
                    network.wf(),
                    chains@.len() == hidx.len(),
                    a < chains@.len(),
                    b <= chains@.len(),
                    forall|k: int|
                        0 <= k < hidx.len() ==> 0 <= #[trigger] hidx[k] < network.nodes@.len()
                            && network.nodes@[hidx[k]] is Honest,
                    forall|k: int|
                        0 <= k < hidx.len() ==> view_seq((#[trigger] chains@[k])@)
                            == spec_finalized_chain(node_chain(network.nodes@[hidx[k]])),
                    forall|x: int, y: int|
                        #![trigger chains@[x], chains@[y]]
                        0 <= x < a && 0 <= y < chains@.len() ==> spec_prefix(
                            view_seq(chains@[x]@),
                            view_seq(chains@[y]@),
                        ) || spec_prefix(view_seq(chains@[y]@), view_seq(chains@[x]@)),
                    forall|y: int|
                        0 <= y < b ==> spec_prefix(
                            view_seq(chains@[a as int]@),
                            view_seq((#[trigger] chains@[y])@),
                        ) || spec_prefix(view_seq(chains@[y]@), view_seq(chains@[a as int]@)),
                decreases chains@.len() - b,
            {
                let pab = Self::is_prefix(chains[a].as_slice(), chains[b].as_slice());
                let pba = Self::is_prefix(chains[b].as_slice(), chains[a].as_slice());
                if !pab && !pba {
                    proof {
                        let na = hidx[a as int];
                        let nb = hidx[b as int];
                        assert(!spec_consistent(*network)) by {
                            assert(view_seq(chains@[a as int]@) == spec_finalized_chain(
                                node_chain(network.nodes@[na]),
                            ));
                            assert(view_seq(chains@[b as int]@) == spec_finalized_chain(
                                node_chain(network.nodes@[nb]),
                            ));
                        }
                    }
                    return false;
                }
                b += 1;
            }
            a += 1;
        }
        proof {
            assert(spec_consistent(*network)) by {
                assert forall|i2: int|
                    0 <= i2 < network.nodes@.len() && (#[trigger] network.nodes@[i2])
                        is Honest implies spec_chain_set_ok(node_chain(network.nodes@[i2])) by {
                    let ki = choose|k: int| 0 <= k < hidx.len() && #[trigger] hidx[k] == i2;
                }
                assert forall|i2: int, j2: int|
                    0 <= i2 < network.nodes@.len() && 0 <= j2 < network.nodes@.len() && (
                #[trigger] network.nodes@[i2]) is Honest && (#[trigger] network.nodes@[j2])
                    is Honest implies spec_prefix(
                    spec_finalized_chain(node_chain(network.nodes@[i2])),
                    spec_finalized_chain(node_chain(network.nodes@[j2])),
                ) || spec_prefix(
                    spec_finalized_chain(node_chain(network.nodes@[j2])),
                    spec_finalized_chain(node_chain(network.nodes@[i2])),
                ) by {
                    let ki = choose|k: int| 0 <= k < hidx.len() && #[trigger] hidx[k] == i2;
                    let kj = choose|k: int| 0 <= k < hidx.len() && #[trigger] hidx[k] == j2;
                    assert(spec_prefix(view_seq(chains@[ki]@), view_seq(chains@[kj]@))
                        || spec_prefix(view_seq(chains@[kj]@), view_seq(chains@[ki]@)));
                }
            }
        }
        true
    }

    /// Runs the consistency oracle; validation succeeds exactly when the run
    /// satisfies the safety property.
    pub fn validate(network: &Network) -> (r: bool)
        requires
            network.wf(),
        ensures
            r == spec_consistent(*network),
    {
        Self::consistency(network)
    }
}

} // verus!
