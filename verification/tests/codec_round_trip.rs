use rgb_ln_node::codec::{
    decode_ln_invoice, decode_rgb_invoice, encode_ln_invoice, encode_rgb_invoice, LnInvoiceData,
    RgbInvoiceData,
};
use rgb_ln_node::errors::NodeError;

fn sample() -> LnInvoiceData {
    LnInvoiceData {
        payee: 7,
        payment_hash: 9,
        timestamp: 100,
        expiry_sec: 50,
        amt_msat: Some(3_000_000),
        asset_id: Some(5),
        asset_amount: Some(10),
    }
}

#[test]
fn ln_round_trip_reproduces_every_field() {
    let d = sample();
    let enc = encode_ln_invoice(&d);
    assert_eq!(enc.len(), 176);
    let back = decode_ln_invoice(&enc, 120).unwrap();
    assert_eq!(back.payee, 7);
    assert_eq!(back.payment_hash, 9);
    assert_eq!(back.timestamp, 100);
    assert_eq!(back.expiry_sec, 50);
    assert_eq!(back.amt_msat, Some(3_000_000));
    assert_eq!(back.asset_id, Some(5));
    assert_eq!(back.asset_amount, Some(10));
}

#[test]
fn ln_round_trip_without_options() {
    let d = LnInvoiceData {
        payee: 1,
        payment_hash: 2,
        timestamp: 0,
        expiry_sec: 1000,
        amt_msat: None,
        asset_id: None,
        asset_amount: None,
    };
    let enc = encode_ln_invoice(&d);
    let back = decode_ln_invoice(&enc, 500).unwrap();
    assert_eq!(back, d);
    assert_eq!(back.asset_id, None);
}

#[test]
fn ln_invoice_starts_with_its_kind_word() {
    let enc = encode_ln_invoice(&sample());
    assert_eq!(&enc[0..16], b"0000000000000001");
    assert!(enc.iter().all(|b| b.is_ascii_hexdigit()));
}

#[test]
fn ln_decode_rejects_expired() {
    let enc = encode_ln_invoice(&sample());
    // timestamp 100 + expiry 50: valid through 150, expired at 151
    assert!(decode_ln_invoice(&enc, 150).is_ok());
    assert_eq!(decode_ln_invoice(&enc, 151).unwrap_err(), NodeError::InvoiceExpired);
}

#[test]
fn ln_decode_rejects_bad_signature() {
    let mut enc = encode_ln_invoice(&sample());
    // alter a payload digit inside the payee word, keeping valid hex
    enc[31] = if enc[31] == b'0' { b'1' } else { b'0' };
    assert_eq!(decode_ln_invoice(&enc, 120).unwrap_err(), NodeError::InvoiceSignature);
}

#[test]
fn ln_decode_rejects_malformed() {
    let mut enc = encode_ln_invoice(&sample());
    enc.pop();
    assert_eq!(decode_ln_invoice(&enc, 120).unwrap_err(), NodeError::InvoiceMalformed);
    let mut bad = encode_ln_invoice(&sample());
    bad[3] = b'z';
    assert_eq!(decode_ln_invoice(&bad, 120).unwrap_err(), NodeError::InvoiceMalformed);
    // a wrong kind word is no payment invoice
    let mut wrong_kind = encode_ln_invoice(&sample());
    wrong_kind[15] = b'2';
    assert!(decode_ln_invoice(&wrong_kind, 120).is_err());
}

#[test]
fn rgb_round_trip_reproduces_every_field() {
    let d = RgbInvoiceData { blinded: 77, min_confirmations: 3, asset_id: Some(4) };
    let enc = encode_rgb_invoice(&d);
    assert_eq!(enc.len(), 96);
    assert_eq!(decode_rgb_invoice(&enc).unwrap(), d);

    let open_ended = RgbInvoiceData { blinded: 1, min_confirmations: 0, asset_id: None };
    let enc2 = encode_rgb_invoice(&open_ended);
    assert_eq!(decode_rgb_invoice(&enc2).unwrap(), open_ended);
}

#[test]
fn rgb_decode_rejects_tampering() {
    let d = RgbInvoiceData { blinded: 77, min_confirmations: 3, asset_id: Some(4) };
    let mut enc = encode_rgb_invoice(&d);
    enc[31] = if enc[31] == b'0' { b'1' } else { b'0' };
    assert_eq!(decode_rgb_invoice(&enc).unwrap_err(), NodeError::InvoiceSignature);
    let short = vec![b'a'; 95];
    assert_eq!(decode_rgb_invoice(&short).unwrap_err(), NodeError::InvoiceMalformed);
}
