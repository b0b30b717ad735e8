use rgb_ln_node::errors::NodeError;
use rgb_ln_node::node::Node;
use rgb_ln_node::payments::HtlcStatus;

fn password() -> Vec<u8> {
    b"SECRET-REDACTED".to_vec()
}

fn funded_node(node_id: u64) -> Node {
    let (mut n, _seed) = Node::init(node_id, &password());
    n.unlock(&password()).unwrap();
    n.fund(1_000_000).unwrap();
    n.create_utxos(10).unwrap();
    n
}

fn issue_usdt(n: &mut Node) -> u64 {
    n.issue_asset(&vec![1000], &b"USDT".to_vec(), &b"Tether".to_vec(), 0).unwrap()
}

#[test]
fn issue_asset_makes_supply_spendable() {
    let mut n = funded_node(1);
    let asset = issue_usdt(&mut n);
    let b = n.asset_balance(asset).unwrap();
    assert_eq!(b.spendable, 1000);
    assert_eq!(b.offchain_outbound, 0);
    assert_eq!(b.offchain_inbound, 0);
}

#[test]
fn issue_asset_requires_unlock_and_fresh_id() {
    let (mut locked, _) = Node::init(9, &password());
    let e = locked.issue_asset(&vec![10], &b"T".to_vec(), &b"T".to_vec(), 0).unwrap_err();
    assert_eq!(e, NodeError::Locked);
    assert_eq!(e.code(), 401);

    let mut n = funded_node(1);
    issue_usdt(&mut n);
    let again = n.issue_asset(&vec![1000], &b"USDT".to_vec(), &b"Tether".to_vec(), 0);
    assert_eq!(again.unwrap_err(), NodeError::AssetAlreadyIssued);
}

#[test]
fn unknown_asset_balance_is_refused() {
    let n = funded_node(1);
    assert_eq!(n.asset_balance(12345).unwrap_err(), NodeError::UnknownAsset);
}

#[test]
fn keysend_scenario_moves_both_ledgers() {
    // node A issues, opens a channel carrying 600 units toward B
    let mut a = funded_node(1);
    let asset = issue_usdt(&mut a);
    a.connect_peer(2).unwrap();
    let cid = a
        .open_channel(2, 100_000, 3_500_000, Some(asset), 600, true, true, 0, 0)
        .unwrap();
    assert_eq!(a.asset_balance(asset).unwrap().spendable, 400);
    assert_eq!(a.asset_balance(asset).unwrap().offchain_outbound, 600);

    // the funding transaction reaches the protocol depth
    a.sync(6).unwrap();
    let chans = a.list_channels();
    assert_eq!(chans.len(), 1);
    assert_eq!(chans[0].channel_id, cid);
    assert!(chans[0].ready());

    // node B records the accepted channel: 600 units on A's side
    let (mut b, _) = Node::init(2, &password());
    b.unlock(&password()).unwrap();
    b.connect_peer(1).unwrap();
    b.accept_channel(1, 100_000, 3_500_000, Some(asset), 600, 1000).unwrap();
    b.sync(6).unwrap();
    assert!(b.list_channels()[0].ready());
    assert_eq!(b.asset_balance(asset).unwrap().offchain_inbound, 600);
    assert_eq!(b.asset_balance(asset).unwrap().offchain_outbound, 0);

    // keysend 3_000_000 msat and 50 units from A to B
    let hash = a.keysend(2, 3_000_000, Some(asset), 50).unwrap();
    assert_eq!(a.list_payments()[0].status, HtlcStatus::Pending);
    a.settle_htlc(hash, true).unwrap();
    b.receive_htlc(hash, 1, 3_000_000, Some(asset), 50).unwrap();

    let ba = a.asset_balance(asset).unwrap();
    assert_eq!(ba.offchain_outbound, 550);
    assert_eq!(ba.offchain_inbound, 50);
    let bb = b.asset_balance(asset).unwrap();
    assert_eq!(bb.offchain_outbound, 50);
    assert_eq!(bb.offchain_inbound, 550);

    // both histories show the matching hash as succeeded
    let pa = &a.list_payments()[0];
    assert_eq!(pa.payment_hash, hash);
    assert_eq!(pa.status, HtlcStatus::Succeeded);
    let pb = &b.list_payments()[0];
    assert_eq!(pb.payment_hash, hash);
    assert_eq!(pb.status, HtlcStatus::Succeeded);

    // conservation on A: all units of the asset are in A's view
    assert_eq!(ba.spendable + ba.offchain_outbound + ba.offchain_inbound, 1000);
}

#[test]
fn keysend_without_route_changes_nothing() {
    let mut a = funded_node(1);
    let asset = issue_usdt(&mut a);
    let hash = a.keysend(2, 3_000_000, Some(asset), 50).unwrap();
    // no channel to peer 2: fulfillment is impossible
    assert_eq!(a.settle_htlc(hash, true).unwrap_err(), NodeError::NoRoute);
    assert_eq!(a.list_payments()[0].status, HtlcStatus::Pending);
    assert_eq!(a.asset_balance(asset).unwrap().spendable, 1000);
}

#[test]
fn open_channel_refuses_insufficient_assets() {
    let mut a = funded_node(1);
    let asset = issue_usdt(&mut a);
    a.connect_peer(2).unwrap();
    let e = a.open_channel(2, 100_000, 0, Some(asset), 2000, true, true, 0, 0);
    assert_eq!(e.unwrap_err(), NodeError::InsufficientAssets);
    let e2 = a.open_channel(3, 100_000, 0, None, 0, true, true, 0, 0);
    assert_eq!(e2.unwrap_err(), NodeError::PeerNotConnected);
    let e3 = a.open_channel(2, 100, 0, None, 0, true, true, 0, 0);
    assert_eq!(e3.unwrap_err(), NodeError::InvalidAmount);
}

#[test]
fn fund_and_create_utxos_keep_satoshis() {
    let (mut n, _) = Node::init(4, &password());
    n.unlock(&password()).unwrap();
    assert_eq!(n.fund(0).unwrap_err(), NodeError::InvalidAmount);
    n.fund(500_000).unwrap();
    n.create_utxos(5).unwrap();
    let total: u64 = n.list_unspents().iter().map(|u| u.amount_sat).sum();
    assert_eq!(total, 500_000);
    assert_eq!(n.list_unspents().len(), 6);
    // too big a carve for what is left
    assert_eq!(n.create_utxos(20).unwrap_err(), NodeError::InsufficientBtc);
}

#[test]
fn wrong_password_is_refused() {
    let (mut n, _) = Node::init(5, &password());
    let e = n.unlock(&b"wrong".to_vec()).unwrap_err();
    assert_eq!(e, NodeError::WrongPassword);
    n.unlock(&password()).unwrap();
    n.lock();
    assert_eq!(n.fund(1).unwrap_err(), NodeError::Locked);
}
