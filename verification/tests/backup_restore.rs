use rgb_ln_node::backup::Archive;
use rgb_ln_node::errors::NodeError;
use rgb_ln_node::node::Node;

fn password() -> Vec<u8> {
    b"SECRET-REDACTED".to_vec()
}

fn busy_node() -> (Node, u64) {
    let (mut n, _) = Node::init(1, &password());
    n.unlock(&password()).unwrap();
    n.fund(1_000_000).unwrap();
    n.create_utxos(5).unwrap();
    let asset = n.issue_asset(&vec![1000], &b"USDT".to_vec(), &b"Tether".to_vec(), 0).unwrap();
    n.connect_peer(2).unwrap();
    n.open_channel(2, 100_000, 3_500_000, Some(asset), 600, true, true, 0, 0).unwrap();
    n.sync(6).unwrap();
    (n, asset)
}

#[test]
fn restore_reproduces_every_balance() {
    let (n, asset) = busy_node();
    let before = n.asset_balance(asset).unwrap();
    let archive = n.backup(&password()).unwrap();
    let mut fresh = Node::restore(archive, &password()).unwrap();
    fresh.unlock(&password()).unwrap();
    let after = fresh.asset_balance(asset).unwrap();
    assert_eq!(before, after);
    assert_eq!(fresh.list_channels().len(), n.list_channels().len());
    assert_eq!(fresh.list_unspents().len(), n.list_unspents().len());
    assert_eq!(fresh.list_payments().len(), n.list_payments().len());
}

#[test]
fn restore_refuses_wrong_password() {
    let (n, _) = busy_node();
    let archive = n.backup(&password()).unwrap();
    let e = Node::restore(archive, &b"not it".to_vec()).unwrap_err();
    assert_eq!(e, NodeError::WrongPassword);
}

#[test]
fn restore_refuses_version_mismatch() {
    let (n, _) = busy_node();
    let archive = n.backup(&password()).unwrap();
    let tampered = Archive { version: 999, key_tag: archive.key_tag, state: archive.state };
    let e = Node::restore(tampered, &password()).unwrap_err();
    assert_eq!(e, NodeError::BackupVersionMismatch);
    assert_eq!(e.code(), 490);
}

#[test]
fn backup_requires_unlock() {
    let (password1, password2) = (password(), password());
    let (n, _) = Node::init(3, &password1);
    assert_eq!(n.backup(&password2).unwrap_err(), NodeError::Locked);
}

#[test]
fn restored_node_starts_locked() {
    let (n, _) = busy_node();
    let archive = n.backup(&password()).unwrap();
    let fresh = Node::restore(archive, &password()).unwrap();
    assert_eq!(fresh.backup(&password()).unwrap_err(), NodeError::Locked);
}
