use rgb_ln_node::errors::NodeError;
use rgb_ln_node::node::{InvoiceStatus, Node};
use rgb_ln_node::payments::HtlcStatus;

fn password() -> Vec<u8> {
    b"SECRET-REDACTED".to_vec()
}

fn unlocked_node(id: u64) -> Node {
    let (mut n, _) = Node::init(id, &password());
    n.unlock(&password()).unwrap();
    n
}

#[test]
fn failed_payment_is_terminal() {
    let mut n = unlocked_node(1);
    let hash = n.keysend(2, 1_000, None, 0).unwrap();
    assert_eq!(n.list_payments()[0].status, HtlcStatus::Pending);
    n.settle_htlc(hash, false).unwrap();
    assert_eq!(n.list_payments()[0].status, HtlcStatus::Failed);
    // no transition out of a terminal status: the settled payment is
    // never touched again
    assert_eq!(n.settle_htlc(hash, true).unwrap_err(), NodeError::PaymentNotFound);
    assert_eq!(n.list_payments()[0].status, HtlcStatus::Failed);
    assert_eq!(n.settle_htlc(hash, false).unwrap_err(), NodeError::PaymentNotFound);
    assert_eq!(n.list_payments()[0].status, HtlcStatus::Failed);
}

#[test]
fn succeeded_payment_is_terminal() {
    let mut a = unlocked_node(1);
    a.fund(1_000_000).unwrap();
    a.connect_peer(2).unwrap();
    a.open_channel(2, 100_000, 0, None, 0, true, true, 0, 0).unwrap();
    a.sync(6).unwrap();
    let hash = a.keysend(2, 1_000, None, 0).unwrap();
    a.settle_htlc(hash, true).unwrap();
    assert_eq!(a.list_payments()[0].status, HtlcStatus::Succeeded);
    assert_eq!(a.settle_htlc(hash, false).unwrap_err(), NodeError::PaymentNotFound);
    assert_eq!(a.list_payments()[0].status, HtlcStatus::Succeeded);
}

#[test]
fn history_is_never_pruned() {
    let mut n = unlocked_node(1);
    let h1 = n.keysend(2, 1_000, None, 0).unwrap();
    let h2 = n.keysend(2, 2_000, None, 0).unwrap();
    assert_ne!(h1, h2);
    n.settle_htlc(h1, false).unwrap();
    n.settle_htlc(h2, false).unwrap();
    assert_eq!(n.list_payments().len(), 2);
}

#[test]
fn invoice_status_follows_the_payment() {
    let mut issuer = unlocked_node(7);
    let invoice = issuer.ln_invoice(Some(5_000), 600, None, None, 100).unwrap();
    assert_eq!(issuer.invoice_status(&invoice, 150).unwrap(), InvoiceStatus::Pending);
    assert_eq!(issuer.invoice_status(&invoice, 701).unwrap(), InvoiceStatus::Expired);
}

#[test]
fn send_payment_records_the_invoice_fields() {
    let mut issuer = unlocked_node(7);
    let invoice = issuer.ln_invoice(Some(5_000), 600, None, None, 100).unwrap();
    let mut payer = unlocked_node(8);
    let hash = payer.send_payment(&invoice, 150).unwrap();
    let p = &payer.list_payments()[0];
    assert_eq!(p.payment_hash, hash);
    assert_eq!(p.peer, 7);
    assert_eq!(p.amt_msat, 5_000);
    assert_eq!(p.status, HtlcStatus::Pending);
    // the same invoice cannot be paid twice
    assert_eq!(payer.send_payment(&invoice, 150).unwrap_err(), NodeError::DuplicatePayment);
    // an expired invoice is refused
    assert_eq!(payer.send_payment(&invoice, 9999).unwrap_err(), NodeError::InvoiceExpired);
}
