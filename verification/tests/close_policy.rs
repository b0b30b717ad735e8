use rgb_ln_node::errors::NodeError;
use rgb_ln_node::node::Node;

fn password() -> Vec<u8> {
    b"SECRET-REDACTED".to_vec()
}

fn node_with_channel(force_height: u64) -> (Node, u64, u64) {
    let (mut n, _) = Node::init(1, &password());
    n.unlock(&password()).unwrap();
    n.fund(1_000_000).unwrap();
    n.create_utxos(5).unwrap();
    let asset = n.issue_asset(&vec![1000], &b"USDT".to_vec(), &b"Tether".to_vec(), 0).unwrap();
    n.connect_peer(2).unwrap();
    let cid = n
        .open_channel(2, 100_000, 3_500_000, Some(asset), 600, true, true, 0, 0)
        .unwrap();
    n.sync(force_height).unwrap();
    (n, cid, asset)
}

#[test]
fn cooperative_close_leaves_after_six_confirmations() {
    let (mut n, cid, asset) = node_with_channel(6);
    n.close_channel(cid, false).unwrap();
    // closing transaction sits in the block at height 7
    n.sync(11).unwrap(); // 5 confirmations: still active
    assert_eq!(n.list_channels().len(), 1);
    n.sync(12).unwrap(); // 6 confirmations: gone
    assert_eq!(n.list_channels().len(), 0);
    // the channel's units and satoshis came back on chain
    let b = n.asset_balance(asset).unwrap();
    assert_eq!(b.spendable, 1000);
    assert_eq!(b.offchain_outbound, 0);
}

#[test]
fn forced_close_leaves_only_after_144_confirmations() {
    let (mut n, cid, _) = node_with_channel(6);
    n.close_channel(cid, true).unwrap();
    // closing transaction sits in the block at height 7
    n.sync(12).unwrap(); // 6 confirmations: far from the forced depth
    assert_eq!(n.list_channels().len(), 1);
    n.sync(149).unwrap(); // 143 confirmations: still encumbered
    assert_eq!(n.list_channels().len(), 1);
    n.sync(150).unwrap(); // 144 confirmations: gone
    assert_eq!(n.list_channels().len(), 0);
}

#[test]
fn close_of_unknown_or_closing_channel_is_refused() {
    let (mut n, cid, _) = node_with_channel(6);
    assert_eq!(n.close_channel(77, false).unwrap_err(), NodeError::ChannelNotFound);
    n.close_channel(cid, false).unwrap();
    assert_eq!(n.close_channel(cid, true).unwrap_err(), NodeError::ChannelNotReady);
}

#[test]
fn funding_needs_protocol_depth_before_ready() {
    let (mut n, _) = Node::init(1, &password());
    n.unlock(&password()).unwrap();
    n.fund(1_000_000).unwrap();
    n.connect_peer(2).unwrap();
    n.open_channel(2, 100_000, 0, None, 0, true, true, 0, 0).unwrap();
    assert!(!n.list_channels()[0].ready());
    n.sync(5).unwrap(); // 5 confirmations of the funding at height 1
    assert!(!n.list_channels()[0].ready());
    n.sync(6).unwrap(); // 6 confirmations
    assert!(n.list_channels()[0].ready());
}
