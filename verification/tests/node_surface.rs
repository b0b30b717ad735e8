use rgb_ln_node::errors::NodeError;
use rgb_ln_node::node::{InvoiceStatus, Node};
use rgb_ln_node::transfers::{RefreshEvent, TransferUpdate};

fn password() -> Vec<u8> {
    b"SECRET-REDACTED".to_vec()
}

#[test]
fn peers_connect_and_disconnect() {
    let (mut n, _) = Node::init(1, &password());
    n.unlock(&password()).unwrap();
    n.connect_peer(7).unwrap();
    n.connect_peer(7).unwrap();
    n.connect_peer(8).unwrap();
    assert_eq!(n.list_peers().len(), 2);
    n.disconnect_peer(7).unwrap();
    assert_eq!(n.list_peers(), &vec![8]);
    assert_eq!(n.disconnect_peer(7).unwrap_err(), NodeError::PeerNotConnected);
}

#[test]
fn node_info_summarizes_the_node() {
    let (mut n, _) = Node::init(42, &password());
    n.unlock(&password()).unwrap();
    n.sync(3).unwrap();
    let info = n.node_info();
    assert_eq!(info.node_id, 42);
    assert_eq!(info.num_channels, 0);
    assert_eq!(info.num_payments, 0);
    assert_eq!(info.height, 3);
}

#[test]
fn conservation_holds_with_units_in_transit() {
    let (mut n, _) = Node::init(1, &password());
    n.unlock(&password()).unwrap();
    n.fund(1_000_000).unwrap();
    n.create_utxos(5).unwrap();
    let asset = n.issue_asset(&vec![600, 400], &b"USDT".to_vec(), &b"Tether".to_vec(), 0).unwrap();
    let ti = n.send_asset(asset, 250, 9, false, 1, vec![1]).unwrap();
    let b = n.asset_balance(asset).unwrap();
    let in_transit: u64 = n.list_transfers()[ti].amount;
    let off_view = n.list_assets()[0].off_view;
    assert_eq!(
        b.spendable + b.offchain_outbound + b.offchain_inbound + in_transit + off_view,
        1000,
    );
    // and again after the transfer fails and refunds
    n.refresh_transfers(&vec![RefreshEvent {
        transfer_idx: ti,
        update: TransferUpdate::EndpointsUnreachable,
    }])
        .unwrap();
    let b2 = n.asset_balance(asset).unwrap();
    assert_eq!(b2.spendable + b2.offchain_outbound + b2.offchain_inbound, 1000);
}

#[test]
fn invoice_status_reaches_succeeded() {
    // issuer B has an inbound-capable channel from A
    let (mut b, _) = Node::init(2, &password());
    b.unlock(&password()).unwrap();
    b.connect_peer(1).unwrap();
    b.accept_channel(1, 100_000, 0, None, 0, 0).unwrap();
    b.sync(6).unwrap();
    let invoice = b.ln_invoice(Some(5_000), 600, None, None, 100).unwrap();
    let decoded = rgb_ln_node::codec::decode_ln_invoice(&invoice, 100).unwrap();
    b.receive_htlc(decoded.payment_hash, 1, 5_000, None, 0).unwrap();
    assert_eq!(b.invoice_status(&invoice, 150).unwrap(), InvoiceStatus::Succeeded);
}

#[test]
fn error_codes_are_stable() {
    assert_eq!(NodeError::Locked.code(), 401);
    assert_eq!(NodeError::WrongPassword.code(), 403);
    assert_eq!(NodeError::UnknownAsset.code(), 404);
    assert_eq!(NodeError::InsufficientBtc.code(), 402);
    assert_eq!(NodeError::InvoiceMalformed.code(), 460);
    assert_eq!(NodeError::NoRoute.code(), 472);
    assert_eq!(NodeError::Locked.describe(), "node is locked");
}
