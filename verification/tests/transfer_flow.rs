use rgb_ln_node::codec::decode_rgb_invoice;
use rgb_ln_node::errors::NodeError;
use rgb_ln_node::node::Node;
use rgb_ln_node::transfers::{RefreshEvent, TransferStatus, TransferUpdate};

fn password() -> Vec<u8> {
    b"SECRET-REDACTED".to_vec()
}

fn issuer_node() -> (Node, u64) {
    let (mut n, _) = Node::init(1, &password());
    n.unlock(&password()).unwrap();
    n.fund(1_000_000).unwrap();
    n.create_utxos(5).unwrap();
    let asset = n.issue_asset(&vec![1000], &b"USDT".to_vec(), &b"Tether".to_vec(), 0).unwrap();
    (n, asset)
}

fn ev(idx: usize, update: TransferUpdate) -> Vec<RefreshEvent> {
    vec![RefreshEvent { transfer_idx: idx, update }]
}

#[test]
fn send_asset_settles_through_the_state_machine() {
    let (mut n, asset) = issuer_node();
    let ti = n.send_asset(asset, 100, 555, true, 1, vec![1]).unwrap();
    assert_eq!(n.asset_balance(asset).unwrap().spendable, 900);
    assert_eq!(n.list_transfers()[ti].status, TransferStatus::Negotiated);

    n.refresh_transfers(&ev(ti, TransferUpdate::Dispatched)).unwrap();
    assert_eq!(n.list_transfers()[ti].status, TransferStatus::WaitingCounterparty);

    n.refresh_transfers(&ev(
        ti,
        TransferUpdate::Accepted {
            anchor_height: 1,
            asset_id: asset,
            amount: 100,
            issued_supply: 1000,
        },
    ))
        .unwrap();
    assert_eq!(n.list_transfers()[ti].status, TransferStatus::WaitingConfirmations);

    // one confirmation of the anchor block settles it
    n.sync(1).unwrap();
    n.refresh_transfers(&Vec::new()).unwrap();
    assert_eq!(n.list_transfers()[ti].status, TransferStatus::Settled);
    let b = n.asset_balance(asset).unwrap();
    assert_eq!(b.spendable, 900);
    // the sent units are outside this node's view now
    assert_eq!(n.list_assets()[0].off_view, 100);
}

#[test]
fn unreachable_endpoints_fail_and_refund() {
    let (mut n, asset) = issuer_node();
    let ti = n.send_asset(asset, 100, 555, false, 1, vec![1, 2]).unwrap();
    assert_eq!(n.asset_balance(asset).unwrap().spendable, 900);
    n.refresh_transfers(&ev(ti, TransferUpdate::EndpointsUnreachable)).unwrap();
    assert_eq!(n.list_transfers()[ti].status, TransferStatus::Failed);
    assert_eq!(n.asset_balance(asset).unwrap().spendable, 1000);
    assert_eq!(n.list_assets()[0].off_view, 0);
}

#[test]
fn inbound_transfer_arrives_out_of_the_off_view_units() {
    // a receiving node that has never held the asset
    let (mut b, _) = Node::init(2, &password());
    b.unlock(&password()).unwrap();
    let invoice = b.rgb_invoice(0, None).unwrap();
    let decoded = decode_rgb_invoice(&invoice).unwrap();
    assert_eq!(decoded.min_confirmations, 0);
    assert_eq!(decoded.asset_id, None);

    let ti = 0;
    assert_eq!(b.list_transfers()[ti].status, TransferStatus::Negotiated);
    b.refresh_transfers(&ev(ti, TransferUpdate::Dispatched)).unwrap();
    b.refresh_transfers(&ev(
        ti,
        TransferUpdate::Accepted {
            anchor_height: 2,
            asset_id: 42,
            amount: 40,
            issued_supply: 1000,
        },
    ))
        .unwrap();
    // zero minimum confirmations: the next refresh settles it
    b.refresh_transfers(&Vec::new()).unwrap();
    assert_eq!(b.list_transfers()[ti].status, TransferStatus::Settled);
    let bal = b.asset_balance(42).unwrap();
    assert_eq!(bal.spendable, 40);
    assert_eq!(b.list_assets()[0].off_view, 960);
    assert_eq!(b.list_assets()[0].issued_supply, 1000);
}

#[test]
fn send_asset_checks_its_inputs() {
    let (mut n, asset) = issuer_node();
    assert_eq!(
        n.send_asset(asset, 100, 555, false, 1, Vec::new()).unwrap_err(),
        NodeError::InvalidTransportEndpoints,
    );
    assert_eq!(n.send_asset(asset, 0, 555, false, 1, vec![1]).unwrap_err(), NodeError::InvalidAmount);
    assert_eq!(
        n.send_asset(asset, 5000, 555, false, 1, vec![1]).unwrap_err(),
        NodeError::InsufficientAssets,
    );
    assert_eq!(n.send_asset(77, 10, 555, false, 1, vec![1]).unwrap_err(), NodeError::UnknownAsset);
}

#[test]
fn terminal_transfers_never_move_again() {
    let (mut n, asset) = issuer_node();
    let ti = n.send_asset(asset, 100, 555, false, 1, vec![1]).unwrap();
    n.refresh_transfers(&ev(ti, TransferUpdate::EndpointsUnreachable)).unwrap();
    assert_eq!(n.list_transfers()[ti].status, TransferStatus::Failed);
    // ill-fitting events are skipped, the record stays failed
    n.refresh_transfers(&ev(ti, TransferUpdate::Dispatched)).unwrap();
    assert_eq!(n.list_transfers()[ti].status, TransferStatus::Failed);
    assert_eq!(
        n.apply_transfer_update(RefreshEvent { transfer_idx: 99, update: TransferUpdate::Dispatched })
            .unwrap_err(),
        NodeError::TransferNotFound,
    );
}
