//! End-to-end simulation runs under the three transport regimes, with and
//! without adversaries, each checked by the consistency oracle.

use streamlet::attacker_node::AttackerConfig;
use streamlet::network::{NetNode, Network};
use streamlet::oracle::TestNetwork;

/// Distributes 1000 numbered transactions round-robin over the validators.
fn generate_transactions(network: &mut Network, n: usize) {
    for i in 0..1000 {
        let tx = format!("This is transaction number {}", i).into_bytes();
        network.nodes[i % n].send_transaction(tx);
    }
}

/// The length of the first honest validator's finalized chain.
fn first_honest_chain_len(network: &Network) -> usize {
    for node in network.nodes.iter() {
        if let NetNode::Honest(n) = node {
            return TestNetwork::finalized_chain(n).len();
        }
    }
    panic!("no honest validator in the network");
}

#[test]
fn test_honest_only_perfect_network() {
    let n = 4;
    let epochs = 2;
    let mut network = Network::new(n);
    generate_transactions(&mut network, n);
    network.run_simple(epochs);
    assert!(TestNetwork::validate(&network));
    assert!(first_honest_chain_len(&network) >= 1);
}

#[test]
fn test_honest_only_with_reorder() {
    let n = 7;
    let epochs = 9;
    let mut network = Network::new(n);
    generate_transactions(&mut network, n);
    network.run_reorder(epochs);
    assert!(TestNetwork::validate(&network));
}

#[test]
fn test_honest_only_with_delays_then_synchrony() {
    let n = 7;
    let epochs = 20;
    let percent = 75;
    let mut network = Network::new(n);
    generate_transactions(&mut network, n);
    network.run_delays_then_synchrony(epochs, percent);
    assert!(TestNetwork::validate(&network));
    // after the halfway mark synchrony resumes, so liveness does too: blocks
    // beyond genesis are finalized
    assert!(first_honest_chain_len(&network) > 1);
}

#[test]
fn test_one_third_stopped() {
    let attacker_config = AttackerConfig {
        fail_stop: true,
        always_leader: false,
        vote_everything: false,
        equivocate: false,
        fake_block_signature: false,
    };
    let n = 4;
    let epochs = 10;
    let mut network = Network::new_byzantine(n, attacker_config);
    generate_transactions(&mut network, n);
    network.run_simple(epochs);
    assert!(TestNetwork::validate(&network));
}

#[test]
fn test_one_third_stopped_with_delays_then_synchrony() {
    let attacker_config = AttackerConfig {
        fail_stop: true,
        always_leader: false,
        vote_everything: false,
        equivocate: false,
        fake_block_signature: false,
    };
    let n = 4;
    let epochs = 50;
    let percent = 90;
    let mut network = Network::new_byzantine(n, attacker_config);
    generate_transactions(&mut network, n);
    network.run_delays_then_synchrony(epochs, percent);
    assert!(TestNetwork::validate(&network));
}

#[test]
fn test_one_third_misbehave_with_delays_then_synchrony() {
    let attacker_config = AttackerConfig {
        fail_stop: false,
        always_leader: true,
        vote_everything: true,
        equivocate: true,
        fake_block_signature: false,
    };
    let n = 4;
    let epochs = 30;
    let percent = 75;
    let mut network = Network::new_byzantine(n, attacker_config);
    generate_transactions(&mut network, n);
    network.run_delays_then_synchrony(epochs, percent);
    assert!(TestNetwork::validate(&network));
}

#[test]
fn test_one_third_fake_sigs_with_delays_then_synchrony() {
    let attacker_config = AttackerConfig {
        fail_stop: false,
        always_leader: true,
        vote_everything: true,
        equivocate: true,
        fake_block_signature: true,
    };
    let n = 4;
    let epochs = 20;
    let percent = 75;
    let mut network = Network::new_byzantine(n, attacker_config);
    generate_transactions(&mut network, n);
    network.run_delays_then_synchrony(epochs, percent);
    assert!(TestNetwork::validate(&network));
}

#[test]
fn test_full_delivery_rate_behaves_synchronously() {
    let n = 4;
    let mut network = Network::new(n);
    generate_transactions(&mut network, n);
    network.run_delays_then_synchrony(6, 100);
    assert!(TestNetwork::validate(&network));
    assert!(first_honest_chain_len(&network) > 1);
}
