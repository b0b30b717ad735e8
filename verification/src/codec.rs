//! Invoice codec.
//!
//! Two invoice kinds are encoded as opaque, tagged hexadecimal byte strings:
//! payment invoices (payee, payment hash, issuance time, expiry, optional
//! millisatoshi amount and optional asset id / asset amount pair) and
//! asset-transfer invoices (blinded receiving commitment, minimum
//! confirmations, optional asset id). Each invoice carries a signature tag
//! over its payload; decoding rejects strings whose tag does not verify,
//! whose frame is malformed, or (for payment invoices) whose expiry has
//! elapsed. Decoding the output of encoding reproduces every field.

use vstd::prelude::*;
use crate::errors::NodeError;

verus! {

/// First word of an encoded payment invoice.
pub const LN_KIND: u64 = 1;

/// First word of an encoded asset-transfer invoice.
pub const RGB_KIND: u64 = 2;

/// Seed of the signature tag fold.
pub const SIG_SEED: u64 = 0x1d8b_7a42_9e3c_55f1;

/// Byte length of an encoded payment invoice.
pub const LN_INVOICE_LEN: usize = 176;

/// Byte length of an encoded asset-transfer invoice.
pub const RGB_INVOICE_LEN: usize = 96;

// ---------------------------------------------------------------------------
// Hex digits
// ---------------------------------------------------------------------------

/// Is `b` an ASCII lower-case hexadecimal digit?
pub open spec fn is_hex_digit(b: u8) -> bool {
    (48 <= b && b <= 57) || (97 <= b && b <= 102)
}

/// Numeric value of a hexadecimal digit byte.
pub open spec fn hex_val(b: u8) -> u64 {
    if 48 <= b && b <= 57 {
        (b - 48) as u64
    } else {
        (b - 87) as u64
    }
}

/// The hexadecimal digit byte of a value below 16.
pub open spec fn hex_char(n: u64) -> u8 {
    if n < 10 {
        (48 + n) as u8
    } else {
        (87 + n) as u8
    }
}

proof fn lemma_hex_char_val(n: u64)
    requires
        n < 16,
    ensures
        is_hex_digit(hex_char(n)),
        hex_val(hex_char(n)) == n,
{
}

proof fn lemma_hex_val_char(b: u8)
    requires
        is_hex_digit(b),
    ensures
        hex_val(b) < 16,
        hex_char(hex_val(b)) == b,
{
}

fn hex_digit(n: u64) -> (r: u8)
    requires
        n < 16,
    ensures
        r == hex_char(n),
{
    if n < 10 {
        48 + n as u8
    } else {
        87 + n as u8
    }
}

fn hex_value(b: u8) -> (r: Option<u64>)
    ensures
        r is Some <==> is_hex_digit(b),
        r matches Some(v) ==> v == hex_val(b) && v < 16,
{
    if 48 <= b && b <= 57 {
        Some((b - 48) as u64)
    } else if 97 <= b && b <= 102 {
        Some((b - 87) as u64)
    } else {
        None
    }
}

// ---------------------------------------------------------------------------
// Words as 16 hex bytes
// ---------------------------------------------------------------------------

/// The `k`-th least significant 4-bit group of `v`.
pub open spec fn nib(v: u64, k: u64) -> u64 {
    (v >> (4 * k)) & 0xf
}

/// The 16 hexadecimal bytes of `v`, most significant group first.
pub open spec fn word_bytes(v: u64) -> Seq<u8> {
    Seq::new(16, |i: int| hex_char(nib(v, (15 - i) as u64)))
}

proof fn lemma_nib_bound(v: u64, k: u64)
    ensures
        nib(v, k) < 16,
{
    assert((v >> (4 * k)) & 0xf < 16) by (bit_vector);
}

proof fn lemma_word_bytes_hex(v: u64)
    ensures
        forall|i: int| 0 <= i < 16 ==> is_hex_digit(#[trigger] word_bytes(v)[i]),
{
    assert forall|i: int| 0 <= i < 16 implies is_hex_digit(#[trigger] word_bytes(v)[i]) by {
        lemma_nib_bound(v, (15 - i) as u64);
        lemma_hex_char_val(nib(v, (15 - i) as u64));
    }
}

/// Two words with the same hexadecimal bytes are the same word.
proof fn lemma_word_bytes_injective(v: u64, w: u64)
    requires
        word_bytes(v) == word_bytes(w),
    ensures
        v == w,
{
    assert forall|k: u64| k < 16 implies nib(v, k) == nib(w, k) by {
        let i = 15 - k as int;
        assert((15 - i) as u64 == k);
        assert(word_bytes(v)[i] == hex_char(nib(v, k)));
        assert(word_bytes(w)[i] == hex_char(nib(w, k)));
        assert(word_bytes(v)[i] == word_bytes(w)[i]);
        lemma_nib_bound(v, k);
        lemma_nib_bound(w, k);
    }
    assert(nib(v, 0) == nib(w, 0));
    assert(nib(v, 1) == nib(w, 1));
    assert(nib(v, 2) == nib(w, 2));
    assert(nib(v, 3) == nib(w, 3));
    assert(nib(v, 4) == nib(w, 4));
    assert(nib(v, 5) == nib(w, 5));
    assert(nib(v, 6) == nib(w, 6));
    assert(nib(v, 7) == nib(w, 7));
    assert(nib(v, 8) == nib(w, 8));
    assert(nib(v, 9) == nib(w, 9));
    assert(nib(v, 10) == nib(w, 10));
    assert(nib(v, 11) == nib(w, 11));
    assert(nib(v, 12) == nib(w, 12));
    assert(nib(v, 13) == nib(w, 13));
    assert(nib(v, 14) == nib(w, 14));
    assert(nib(v, 15) == nib(w, 15));
    assert(v == w) by (bit_vector)
        requires
            (v >> 0) & 0xf == (w >> 0) & 0xf,
            (v >> 4) & 0xf == (w >> 4) & 0xf,
            (v >> 8) & 0xf == (w >> 8) & 0xf,
            (v >> 12) & 0xf == (w >> 12) & 0xf,
            (v >> 16) & 0xf == (w >> 16) & 0xf,
            (v >> 20) & 0xf == (w >> 20) & 0xf,
            (v >> 24) & 0xf == (w >> 24) & 0xf,
            (v >> 28) & 0xf == (w >> 28) & 0xf,
            (v >> 32) & 0xf == (w >> 32) & 0xf,
            (v >> 36) & 0xf == (w >> 36) & 0xf,
            (v >> 40) & 0xf == (w >> 40) & 0xf,
            (v >> 44) & 0xf == (w >> 44) & 0xf,
            (v >> 48) & 0xf == (w >> 48) & 0xf,
            (v >> 52) & 0xf == (w >> 52) & 0xf,
            (v >> 56) & 0xf == (w >> 56) & 0xf,
            (v >> 60) & 0xf == (w >> 60) & 0xf,
    ;
}

/// Appends the 16 hexadecimal bytes of `v`.
fn push_word(out: &mut Vec<u8>, v: u64)
    ensures
        final(out)@ == old(out)@ + word_bytes(v),
{
    let ghost base = out@;
    let mut i: usize = 0;
    while i < 16
        invariant
            i <= 16,
            out@ == base + word_bytes(v).take(i as int),
        decreases 16 - i,
    {
        let k: u64 = (15 - i) as u64;
        proof {
            lemma_nib_bound(v, k);
        }
        let d: u64 = (v >> (4 * k)) & 0xf;
        out.push(hex_digit(d));
        proof {
            assert(word_bytes(v).take(i + 1) =~= word_bytes(v).take(i as int).push(
                word_bytes(v)[i as int],
            ));
        }
        i = i + 1;
    }
    proof {
        assert(word_bytes(v).take(16) =~= word_bytes(v));
    }
}

/// Reads the word whose 16 hexadecimal bytes start at `off`; `None` when a
/// byte there is not a hexadecimal digit.
fn read_word(s: &Vec<u8>, off: usize) -> (r: Option<u64>)
    requires
        off + 16 <= s@.len(),
    ensures
        r is Some <==> (forall|j: int| off <= j < off + 16 ==> is_hex_digit(s@[j])),
        r matches Some(v) ==> s@.subrange(off as int, off as int + 16) == word_bytes(v),
{
    let slen = s.len();
    let mut digits: Vec<u64> = Vec::new();
    let mut i: usize = 0;
    while i < 16
        invariant
            i <= 16,
            off + 16 <= s@.len(),
            s@.len() == slen,
            digits@.len() == i,
            forall|k: int| 0 <= k < i ==> is_hex_digit(#[trigger] s@[off + k]),
            forall|k: int|
                0 <= k < i ==> #[trigger] digits@[k] == hex_val(s@[off + k]) && digits@[k] < 16,
        decreases 16 - i,
    {
        let ghost pre = digits@;
        match hex_value(s[off + i]) {
            Some(d) => {
                digits.push(d);
                proof {
                    assert(digits@ == pre.push(d));
                    assert(is_hex_digit(s@[off + i]));
                    assert(digits@[i as int] == hex_val(s@[off + i]));
                    assert(forall|k: int| 0 <= k < i ==> digits@[k] == pre[k]);
                }
            },
            None => {
                return None;
            },
        }
        i = i + 1;
    }
    let d0 = digits[0];
    let d1 = digits[1];
    let d2 = digits[2];
    let d3 = digits[3];
    let d4 = digits[4];
    let d5 = digits[5];
    let d6 = digits[6];
    let d7 = digits[7];
    let d8 = digits[8];
    let d9 = digits[9];
    let d10 = digits[10];
    let d11 = digits[11];
    let d12 = digits[12];
    let d13 = digits[13];
    let d14 = digits[14];
    let d15 = digits[15];
    let v: u64 = (d0 << 60) | (d1 << 56) | (d2 << 52) | (d3 << 48) | (d4 << 44) | (d5 << 40) | (d6
        << 36) | (d7 << 32) | (d8 << 28) | (d9 << 24) | (d10 << 20) | (d11 << 16) | (d12 << 12) | (
    d13 << 8) | (d14 << 4) | d15;
    proof {
        assert((v >> 60) & 0xf == d0 && (v >> 56) & 0xf == d1 && (v >> 52) & 0xf == d2 && (v >> 48)
            & 0xf == d3 && (v >> 44) & 0xf == d4 && (v >> 40) & 0xf == d5 && (v >> 36) & 0xf == d6
            && (v >> 32) & 0xf == d7 && (v >> 28) & 0xf == d8 && (v >> 24) & 0xf == d9 && (v >> 20)
            & 0xf == d10 && (v >> 16) & 0xf == d11 && (v >> 12) & 0xf == d12 && (v >> 8) & 0xf
            == d13 && (v >> 4) & 0xf == d14 && (v >> 0) & 0xf == d15) by (bit_vector)
            requires
                d0 < 16 && d1 < 16 && d2 < 16 && d3 < 16 && d4 < 16 && d5 < 16 && d6 < 16 && d7
                    < 16 && d8 < 16 && d9 < 16 && d10 < 16 && d11 < 16 && d12 < 16 && d13 < 16
                    && d14 < 16 && d15 < 16,
                v == (d0 << 60) | (d1 << 56) | (d2 << 52) | (d3 << 48) | (d4 << 44) | (d5 << 40) | (
                d6 << 36) | (d7 << 32) | (d8 << 28) | (d9 << 24) | (d10 << 20) | (d11 << 16) | (d12
                    << 12) | (d13 << 8) | (d14 << 4) | d15,
        ;
        assert forall|j: int| 0 <= j < 16 implies s@.subrange(off as int, off as int + 16)[j]
            == word_bytes(v)[j] by {
            assert(digits@[j] == nib(v, (15 - j) as u64));
            lemma_hex_val_char(s@[off + j]);
        }
        assert(s@.subrange(off as int, off as int + 16) =~= word_bytes(v));
    }
    Some(v)
}

// ---------------------------------------------------------------------------
// Word sequences
// ---------------------------------------------------------------------------

/// The concatenated hexadecimal bytes of a word sequence.
pub open spec fn words_bytes(ws: Seq<u64>) -> Seq<u8>
    decreases ws.len(),
{
    if ws.len() == 0 {
        Seq::empty()
    } else {
        words_bytes(ws.drop_last()) + word_bytes(ws.last())
    }
}

proof fn lemma_words_bytes_len(ws: Seq<u64>)
    ensures
        words_bytes(ws).len() == 16 * ws.len(),
    decreases ws.len(),
{
    if ws.len() > 0 {
        lemma_words_bytes_len(ws.drop_last());
    }
}

proof fn lemma_words_bytes_index(ws: Seq<u64>, k: int)
    requires
        0 <= k < ws.len(),
    ensures
        words_bytes(ws).subrange(16 * k, 16 * k + 16) == word_bytes(ws[k]),
    decreases ws.len(),
{
    lemma_words_bytes_len(ws);
    lemma_words_bytes_len(ws.drop_last());
    if k == ws.len() - 1 {
        assert(words_bytes(ws).subrange(16 * k, 16 * k + 16) =~= word_bytes(ws.last()));
    } else {
        lemma_words_bytes_index(ws.drop_last(), k);
        assert(words_bytes(ws).subrange(16 * k, 16 * k + 16) =~= words_bytes(
            ws.drop_last(),
        ).subrange(16 * k, 16 * k + 16));
    }
}

/// Two word sequences of one length with the same bytes are the same.
proof fn lemma_words_bytes_injective(a: Seq<u64>, b: Seq<u64>)
    requires
        a.len() == b.len(),
        words_bytes(a) == words_bytes(b),
    ensures
        a == b,
{
    assert forall|k: int| 0 <= k < a.len() implies a[k] == b[k] by {
        lemma_words_bytes_index(a, k);
        lemma_words_bytes_index(b, k);
        lemma_word_bytes_injective(a[k], b[k]);
    }
    assert(a =~= b);
}

/// Appends the bytes of every word of `ws` in order.
fn push_words(out: &mut Vec<u8>, ws: &Vec<u64>)
    ensures
        final(out)@ == old(out)@ + words_bytes(ws@),
{
    let ghost base = out@;
    let mut i: usize = 0;
    while i < ws.len()
        invariant
            i <= ws@.len(),
            out@ == base + words_bytes(ws@.take(i as int)),
        decreases ws@.len() - i,
    {
        push_word(out, ws[i]);
        proof {
            assert(ws@.take(i + 1).drop_last() =~= ws@.take(i as int));
            assert(ws@.take(i + 1).last() == ws@[i as int]);
        }
        i = i + 1;
    }
    proof {
        assert(ws@.take(ws@.len() as int) =~= ws@);
    }
}

/// Reads `count` words laid out back to back from the start of `s`.
fn read_words(s: &Vec<u8>, count: usize) -> (r: Option<Vec<u64>>)
    requires
        16 * count <= s@.len(),
    ensures
        r is Some <==> (forall|j: int| 0 <= j < 16 * count ==> is_hex_digit(s@[j])),
        r matches Some(ws) ==> ws@.len() == count && forall|k: int|
            0 <= k < count ==> s@.subrange(16 * k, 16 * k + 16) == word_bytes(ws@[k]),
{
    let slen = s.len();
    let mut ws: Vec<u64> = Vec::new();
    let mut k: usize = 0;
    while k < count
        invariant
            k <= count,
            16 * count <= s@.len(),
            s@.len() == slen,
            ws@.len() == k,
            forall|j: int| 0 <= j < 16 * k ==> is_hex_digit(s@[j]),
            forall|m: int|
                0 <= m < k ==> s@.subrange(16 * m, 16 * m + 16) == word_bytes(ws@[m]),
        decreases count - k,
    {
        match read_word(s, 16 * k) {
            Some(v) => {
                ws.push(v);
            },
            None => {
                proof {
                    let j0 = choose|j: int|
                        16 * k <= j < 16 * k + 16 && !is_hex_digit(s@[j]);
                    assert(!is_hex_digit(s@[j0]));
                }
                return None;
            },
        }
        k = k + 1;
    }
    Some(ws)
}

/// Two byte strings of `16 * n` bytes whose word blocks agree are equal.
proof fn lemma_blocks_eq(a: Seq<u8>, b: Seq<u8>, n: int)
    requires
        n >= 0,
        a.len() == 16 * n,
        b.len() == 16 * n,
        forall|k: int|
            0 <= k < n ==> #[trigger] a.subrange(16 * k, 16 * k + 16) == b.subrange(
                16 * k,
                16 * k + 16,
            ),
    ensures
        a == b,
{
    assert forall|i: int| 0 <= i < a.len() implies a[i] == b[i] by {
        let k = i / 16;
        assert(16 * k <= i < 16 * k + 16) by (nonlinear_arith)
            requires
                k == i / 16,
                0 <= i,
        ;
        assert(0 <= k < n) by (nonlinear_arith)
            requires
                16 * k <= i < 16 * n,
                0 <= i,
                16 * k + 16 > i,
        ;
        assert(a.subrange(16 * k, 16 * k + 16)[i - 16 * k] == a[i]);
        assert(b.subrange(16 * k, 16 * k + 16)[i - 16 * k] == b[i]);
    }
    assert(a =~= b);
}

// ---------------------------------------------------------------------------
// Signature tag
// ---------------------------------------------------------------------------

/// One step of the signature fold: rotate and mix in a word.
pub open spec fn sig_mix(acc: u64, w: u64) -> u64 {
    ((acc << 5) | (acc >> 59)) ^ w
}

/// The signature tag of a payload word sequence.
pub open spec fn sig_of(ws: Seq<u64>) -> u64
    decreases ws.len(),
{
    if ws.len() == 0 {
        SIG_SEED
    } else {
        sig_mix(sig_of(ws.drop_last()), ws.last())
    }
}

/// Computes the signature tag of the payload words.
fn sig_exec(ws: &Vec<u64>) -> (r: u64)
    ensures
        r == sig_of(ws@),
{
    let mut acc: u64 = SIG_SEED;
    let mut i: usize = 0;
    while i < ws.len()
        invariant
            i <= ws@.len(),
            acc == sig_of(ws@.take(i as int)),
        decreases ws@.len() - i,
    {
        acc = ((acc << 5u64) | (acc >> 59u64)) ^ ws[i];
        proof {
            assert(ws@.take(i + 1).drop_last() =~= ws@.take(i as int));
        }
        i = i + 1;
    }
    proof {
        assert(ws@.take(ws@.len() as int) =~= ws@);
    }
    acc
}

// ---------------------------------------------------------------------------
// Payment invoices
// ---------------------------------------------------------------------------

/// The decoded fields of a payment invoice.
#[derive(Clone, Copy, Debug, PartialEq, Eq, Structural)]
pub struct LnInvoiceData {
    /// Node identity of the issuer, to whom payment is owed.
    pub payee: u64,
    /// The payment hash the settling HTLC must match.
    pub payment_hash: u64,
    /// Seconds timestamp at issuance.
    pub timestamp: u64,
    /// Seconds from issuance after which decoding fails.
    pub expiry_sec: u64,
    /// Millisatoshi amount; `None` is an any-amount invoice.
    pub amt_msat: Option<u64>,
    /// Asset identifier of the extension pair, when present.
    pub asset_id: Option<u64>,
    /// Asset amount of the extension pair, when present.
    pub asset_amount: Option<u64>,
}

/// The asset extension pair is either fully present or fully absent.
pub open spec fn ln_data_wf(d: LnInvoiceData) -> bool {
    d.asset_id is Some <==> d.asset_amount is Some
}

/// The payload words of a payment invoice.
pub open spec fn ln_words(d: LnInvoiceData) -> Seq<u64> {
    seq![
        LN_KIND,
        d.payee,
        d.payment_hash,
        d.timestamp,
        d.expiry_sec,
        if d.amt_msat is Some { 1u64 } else { 0u64 },
        if d.amt_msat is Some { d.amt_msat.unwrap() } else { 0u64 },
        if d.asset_id is Some { 1u64 } else { 0u64 },
        if d.asset_id is Some { d.asset_id.unwrap() } else { 0u64 },
        if d.asset_amount is Some { d.asset_amount.unwrap() } else { 0u64 },
    ]
}

/// The byte string that encodes a payment invoice.
pub open spec fn encode_ln_spec(d: LnInvoiceData) -> Seq<u8> {
    words_bytes(ln_words(d).push(sig_of(ln_words(d))))
}

/// Has the invoice's expiry elapsed at `now` (seconds)?
pub open spec fn ln_expired(d: LnInvoiceData, now: u64) -> bool {
    d.timestamp + d.expiry_sec < now
}

/// Distinct payment invoices encode to distinct byte strings, so decoding
/// the output of encoding reproduces every field.
pub proof fn lemma_ln_encoding_injective(d1: LnInvoiceData, d2: LnInvoiceData)
    requires
        ln_data_wf(d1),
        ln_data_wf(d2),
        encode_ln_spec(d1) == encode_ln_spec(d2),
    ensures
        d1 == d2,
{
    let a = ln_words(d1).push(sig_of(ln_words(d1)));
    let b = ln_words(d2).push(sig_of(ln_words(d2)));
    lemma_words_bytes_injective(a, b);
    assert(ln_words(d1) =~= a.drop_last());
    assert(ln_words(d2) =~= b.drop_last());
    assert(ln_words(d1) =~= ln_words(d2));
    assert(d1.payee == ln_words(d1)[1] && d2.payee == ln_words(d2)[1]);
    assert(d1.amt_msat == d2.amt_msat);
    assert(d1.asset_id == d2.asset_id);
    assert(d1.asset_amount == d2.asset_amount);
}

/// Encodes a payment invoice as an opaque signed hexadecimal byte string.
pub fn encode_ln_invoice(d: &LnInvoiceData) -> (r: Vec<u8>)
    requires
        ln_data_wf(*d),
    ensures
        r@ == encode_ln_spec(*d),
        r@.len() == LN_INVOICE_LEN,
{
    let mut ws: Vec<u64> = Vec::new();
    ws.push(LN_KIND);
    ws.push(d.payee);
    ws.push(d.payment_hash);
    ws.push(d.timestamp);
    ws.push(d.expiry_sec);
    match d.amt_msat {
        Some(a) => {
            ws.push(1);
            ws.push(a);
        },
        None => {
            ws.push(0);
            ws.push(0);
        },
    }
    match d.asset_id {
        Some(id) => {
            ws.push(1);
            ws.push(id);
        },
        None => {
            ws.push(0);
            ws.push(0);
        },
    }
    match d.asset_amount {
        Some(amt) => {
            ws.push(amt);
        },
        None => {
            ws.push(0);
        },
    }
    proof {
        assert(ws@ =~= ln_words(*d));
    }
    let tag = sig_exec(&ws);
    ws.push(tag);
    proof {
        assert(ws@ =~= ln_words(*d).push(sig_of(ln_words(*d))));
        lemma_words_bytes_len(ws@);
    }
    let mut out: Vec<u8> = Vec::new();
    push_words(&mut out, &ws);
    out
}

/// Decodes a payment invoice at time `now` (seconds).
///
/// Success is owed exactly on the encodings of well-formed, unexpired
/// invoices, and then reproduces every field; a malformed frame, a wrong
/// signature tag and an elapsed expiry are told apart in the error.
pub fn decode_ln_invoice(s: &Vec<u8>, now: u64) -> (r: Result<LnInvoiceData, NodeError>)
    ensures
        r matches Ok(d) ==> ln_data_wf(d) && s@ == encode_ln_spec(d) && !ln_expired(d, now),
        forall|d: LnInvoiceData|
            ln_data_wf(d) && s@ == encode_ln_spec(d) && !ln_expired(d, now) ==> r == Ok::<
                LnInvoiceData,
                NodeError,
            >(d),
        r matches Err(e) ==> (e == NodeError::InvoiceMalformed || e == NodeError::InvoiceSignature
            || e == NodeError::InvoiceExpired),
        r == Err::<LnInvoiceData, NodeError>(NodeError::InvoiceExpired) ==> exists|d: LnInvoiceData|
            ln_data_wf(d) && s@ == encode_ln_spec(d) && ln_expired(d, now),
        (r == Err::<LnInvoiceData, NodeError>(NodeError::InvoiceMalformed) || r == Err::<
            LnInvoiceData,
            NodeError,
        >(NodeError::InvoiceSignature)) ==> forall|d: LnInvoiceData|
            ln_data_wf(d) ==> s@ != encode_ln_spec(d),
{
    if s.len() != LN_INVOICE_LEN {
        proof {
            assert forall|d: LnInvoiceData| ln_data_wf(d) implies s@ != encode_ln_spec(d) by {
                lemma_words_bytes_len(ln_words(d).push(sig_of(ln_words(d))));
            }
        }
        return Err(NodeError::InvoiceMalformed);
    }
    let ws_opt = read_words(s, 11);
    let ws = match ws_opt {
        Some(ws) => ws,
        None => {
            proof {
                assert forall|d: LnInvoiceData| ln_data_wf(d) implies s@ != encode_ln_spec(d) by {
                    lemma_ln_encoding_bytes_hex(d);
                }
            }
            return Err(NodeError::InvoiceMalformed);
        },
    };
    let kind = ws[0];
    let payee = ws[1];
    let payment_hash = ws[2];
    let timestamp = ws[3];
    let expiry_sec = ws[4];
    let amt_flag = ws[5];
    let amt_word = ws[6];
    let asset_flag = ws[7];
    let asset_word = ws[8];
    let aamt_word = ws[9];
    let tag = ws[10];
    let frame_ok = kind == LN_KIND && (amt_flag == 0 || amt_flag == 1) && (asset_flag == 0
        || asset_flag == 1) && (amt_flag == 1 || amt_word == 0) && (asset_flag == 1 || (asset_word
        == 0 && aamt_word == 0));
    proof {
        assert forall|d: LnInvoiceData|
            ln_data_wf(d) && s@ == encode_ln_spec(d) implies ln_words(d).push(
            sig_of(ln_words(d)),
        ) =~= ws@ by {
            lemma_decode_matches(s@, ws@, ln_words(d).push(sig_of(ln_words(d))));
        }
    }
    if !frame_ok {
        proof {
            assert forall|d: LnInvoiceData| ln_data_wf(d) implies s@ != encode_ln_spec(d) by {
                if s@ == encode_ln_spec(d) {
                    assert(ln_words(d)[0] == ws@[0]);
                    assert(ln_words(d)[5] == ws@[5]);
                    assert(ln_words(d)[6] == ws@[6]);
                    assert(ln_words(d)[7] == ws@[7]);
                    assert(ln_words(d)[8] == ws@[8]);
                    assert(ln_words(d)[9] == ws@[9]);
                }
            }
        }
        return Err(NodeError::InvoiceMalformed);
    }
    let mut payload: Vec<u64> = Vec::new();
    payload.push(kind);
    payload.push(payee);
    payload.push(payment_hash);
    payload.push(timestamp);
    payload.push(expiry_sec);
    payload.push(amt_flag);
    payload.push(amt_word);
    payload.push(asset_flag);
    payload.push(asset_word);
    payload.push(aamt_word);
    proof {
        assert(payload@ =~= ws@.take(10));
    }
    let want_tag = sig_exec(&payload);
    if tag != want_tag {
        proof {
            assert forall|d: LnInvoiceData| ln_data_wf(d) implies s@ != encode_ln_spec(d) by {
                if s@ == encode_ln_spec(d) {
                    let full = ln_words(d).push(sig_of(ln_words(d)));
                    assert(full.take(10) =~= ln_words(d));
                    assert(full[10] == sig_of(ln_words(d)));
                }
            }
        }
        return Err(NodeError::InvoiceSignature);
    }
    let d = LnInvoiceData {
        payee,
        payment_hash,
        timestamp,
        expiry_sec,
        amt_msat: if amt_flag == 1 {
            Some(amt_word)
        } else {
            None
        },
        asset_id: if asset_flag == 1 {
            Some(asset_word)
        } else {
            None
        },
        asset_amount: if asset_flag == 1 {
            Some(aamt_word)
        } else {
            None
        },
    };
    proof {
        assert(ln_words(d) =~= payload@);
        lemma_words_bytes_len(ws@);
        assert forall|k: int| 0 <= k < 11 implies #[trigger] s@.subrange(16 * k, 16 * k + 16)
            == words_bytes(ws@).subrange(16 * k, 16 * k + 16) by {
            lemma_words_bytes_index(ws@, k);
        }
        lemma_blocks_eq(s@, words_bytes(ws@), 11);
        assert(ws@ =~= ln_words(d).push(sig_of(ln_words(d))));
        assert(s@ == encode_ln_spec(d));
        assert forall|d2: LnInvoiceData|
            ln_data_wf(d2) && s@ == encode_ln_spec(d2) implies d2 == d by {
            lemma_ln_encoding_injective(d2, d);
        }
    }
    let expired = match timestamp.checked_add(expiry_sec) {
        Some(deadline) => now > deadline,
        None => false,
    };
    if expired {
        return Err(NodeError::InvoiceExpired);
    }
    Ok(d)
}

/// Every byte of a payment-invoice encoding is a hexadecimal digit.
proof fn lemma_ln_encoding_bytes_hex(d: LnInvoiceData)
    ensures
        forall|j: int|
            0 <= j < encode_ln_spec(d).len() ==> is_hex_digit(#[trigger] encode_ln_spec(d)[j]),
        encode_ln_spec(d).len() == 176,
{
    lemma_encoding_bytes_hex(ln_words(d).push(sig_of(ln_words(d))));
}

/// Every byte of a word-sequence encoding is a hexadecimal digit.
proof fn lemma_encoding_bytes_hex(ws: Seq<u64>)
    ensures
        words_bytes(ws).len() == 16 * ws.len(),
        forall|j: int|
            0 <= j < words_bytes(ws).len() ==> is_hex_digit(#[trigger] words_bytes(ws)[j]),
{
    lemma_words_bytes_len(ws);
    assert forall|j: int| 0 <= j < words_bytes(ws).len() implies is_hex_digit(
        #[trigger] words_bytes(ws)[j],
    ) by {
        let k = j / 16;
        assert(16 * k <= j < 16 * k + 16) by (nonlinear_arith)
            requires
                k == j / 16,
                0 <= j,
        ;
        assert(0 <= k < ws.len()) by (nonlinear_arith)
            requires
                16 * k <= j < 16 * ws.len(),
                0 <= j,
                16 * k + 16 > j,
        ;
        lemma_words_bytes_index(ws, k);
        lemma_word_bytes_hex(ws[k]);
        assert(words_bytes(ws).subrange(16 * k, 16 * k + 16)[j - 16 * k] == words_bytes(ws)[j]);
        assert(is_hex_digit(word_bytes(ws[k])[j - 16 * k]));
    }
}

/// When `s` is the encoding of `expect` and `got` was read from `s` word by
/// word, the two word sequences agree.
proof fn lemma_decode_matches(s: Seq<u8>, got: Seq<u64>, expect: Seq<u64>)
    requires
        got.len() == expect.len(),
        s == words_bytes(expect),
        forall|k: int| 0 <= k < got.len() ==> s.subrange(16 * k, 16 * k + 16) == word_bytes(got[k]),
    ensures
        got =~= expect,
{
    assert forall|k: int| 0 <= k < got.len() implies got[k] == expect[k] by {
        lemma_words_bytes_index(expect, k);
        lemma_word_bytes_injective(got[k], expect[k]);
    }
}

// ---------------------------------------------------------------------------
// Asset-transfer invoices
// ---------------------------------------------------------------------------

/// The decoded fields of an asset-transfer invoice.
#[derive(Clone, Copy, Debug, PartialEq, Eq, Structural)]
pub struct RgbInvoiceData {
    /// Blinded receiving commitment of the recipient.
    pub blinded: u64,
    /// Confirmations the recipient requires; zero accepts an unconfirmed
    /// transfer.
    pub min_confirmations: u32,
    /// Asset identifier, when the invoice is bound to one asset.
    pub asset_id: Option<u64>,
}

/// The payload words of an asset-transfer invoice.
pub open spec fn rgb_words(d: RgbInvoiceData) -> Seq<u64> {
    seq![
        RGB_KIND,
        d.blinded,
        d.min_confirmations as u64,
        if d.asset_id is Some { 1u64 } else { 0u64 },
        if d.asset_id is Some { d.asset_id.unwrap() } else { 0u64 },
    ]
}

/// The byte string that encodes an asset-transfer invoice.
pub open spec fn encode_rgb_spec(d: RgbInvoiceData) -> Seq<u8> {
    words_bytes(rgb_words(d).push(sig_of(rgb_words(d))))
}

/// Distinct asset-transfer invoices encode to distinct byte strings, so
/// decoding the output of encoding reproduces every field.
pub proof fn lemma_rgb_encoding_injective(d1: RgbInvoiceData, d2: RgbInvoiceData)
    requires
        encode_rgb_spec(d1) == encode_rgb_spec(d2),
    ensures
        d1 == d2,
{
    let a = rgb_words(d1).push(sig_of(rgb_words(d1)));
    let b = rgb_words(d2).push(sig_of(rgb_words(d2)));
    lemma_words_bytes_injective(a, b);
    assert(rgb_words(d1) =~= a.drop_last());
    assert(rgb_words(d2) =~= b.drop_last());
    assert(rgb_words(d1) =~= rgb_words(d2));
    assert(d1.blinded == rgb_words(d1)[1] && d2.blinded == rgb_words(d2)[1]);
    assert(d1.min_confirmations as u64 == rgb_words(d1)[2]);
    assert(d1.asset_id == d2.asset_id);
}

/// Encodes an asset-transfer invoice as an opaque signed hexadecimal byte
/// string.
pub fn encode_rgb_invoice(d: &RgbInvoiceData) -> (r: Vec<u8>)
    ensures
        r@ == encode_rgb_spec(*d),
        r@.len() == RGB_INVOICE_LEN,
{
    let mut ws: Vec<u64> = Vec::new();
    ws.push(RGB_KIND);
    ws.push(d.blinded);
    ws.push(d.min_confirmations as u64);
    match d.asset_id {
        Some(id) => {
            ws.push(1);
            ws.push(id);
        },
        None => {
            ws.push(0);
            ws.push(0);
        },
    }
    proof {
        assert(ws@ =~= rgb_words(*d));
    }
    let tag = sig_exec(&ws);
    ws.push(tag);
    proof {
        assert(ws@ =~= rgb_words(*d).push(sig_of(rgb_words(*d))));
        lemma_words_bytes_len(ws@);
    }
    let mut out: Vec<u8> = Vec::new();
    push_words(&mut out, &ws);
    out
}

/// Decodes an asset-transfer invoice.
///
/// Success is owed exactly on the encodings of asset-transfer invoices, and
/// then reproduces every field.
pub fn decode_rgb_invoice(s: &Vec<u8>) -> (r: Result<RgbInvoiceData, NodeError>)
    ensures
        r matches Ok(d) ==> s@ == encode_rgb_spec(d),
        forall|d: RgbInvoiceData|
            s@ == encode_rgb_spec(d) ==> r == Ok::<RgbInvoiceData, NodeError>(d),
        r matches Err(e) ==> (e == NodeError::InvoiceMalformed || e == NodeError::InvoiceSignature),
{
    if s.len() != RGB_INVOICE_LEN {
        proof {
            assert forall|d: RgbInvoiceData| true implies s@ != encode_rgb_spec(d) by {
                lemma_words_bytes_len(rgb_words(d).push(sig_of(rgb_words(d))));
            }
        }
        return Err(NodeError::InvoiceMalformed);
    }
    let ws_opt = read_words(s, 6);
    let ws = match ws_opt {
        Some(ws) => ws,
        None => {
            proof {
                assert forall|d: RgbInvoiceData| true implies s@ != encode_rgb_spec(d) by {
                    lemma_encoding_bytes_hex(rgb_words(d).push(sig_of(rgb_words(d))));
                }
            }
            return Err(NodeError::InvoiceMalformed);
        },
    };
    let kind = ws[0];
    let blinded = ws[1];
    let conf_word = ws[2];
    let asset_flag = ws[3];
    let asset_word = ws[4];
    let tag = ws[5];
    let frame_ok = kind == RGB_KIND && conf_word <= u32::MAX as u64 && (asset_flag == 0
        || asset_flag == 1) && (asset_flag == 1 || asset_word == 0);
    proof {
        assert forall|d: RgbInvoiceData| s@ == encode_rgb_spec(d) implies rgb_words(d).push(
            sig_of(rgb_words(d)),
        ) =~= ws@ by {
            lemma_decode_matches(s@, ws@, rgb_words(d).push(sig_of(rgb_words(d))));
        }
    }
    if !frame_ok {
        proof {
            assert forall|d: RgbInvoiceData| true implies s@ != encode_rgb_spec(d) by {
                if s@ == encode_rgb_spec(d) {
                    assert(rgb_words(d)[0] == ws@[0]);
                    assert(rgb_words(d)[2] == ws@[2]);
                    assert(rgb_words(d)[3] == ws@[3]);
                    assert(rgb_words(d)[4] == ws@[4]);
                }
            }
        }
        return Err(NodeError::InvoiceMalformed);
    }
    let mut payload: Vec<u64> = Vec::new();
    payload.push(kind);
    payload.push(blinded);
    payload.push(conf_word);
    payload.push(asset_flag);
    payload.push(asset_word);
    proof {
        assert(payload@ =~= ws@.take(5));
    }
    let want_tag = sig_exec(&payload);
    if tag != want_tag {
        proof {
            assert forall|d: RgbInvoiceData| true implies s@ != encode_rgb_spec(d) by {
                if s@ == encode_rgb_spec(d) {
                    let full = rgb_words(d).push(sig_of(rgb_words(d)));
                    assert(full.take(5) =~= rgb_words(d));
                    assert(full[5] == sig_of(rgb_words(d)));
                }
            }
        }
        return Err(NodeError::InvoiceSignature);
    }
    let d = RgbInvoiceData {
        blinded,
        min_confirmations: conf_word as u32,
        asset_id: if asset_flag == 1 {
            Some(asset_word)
        } else {
            None
        },
    };
    proof {
        assert(rgb_words(d) =~= payload@);
        lemma_words_bytes_len(ws@);
        assert forall|k: int| 0 <= k < 6 implies #[trigger] s@.subrange(16 * k, 16 * k + 16)
            == words_bytes(ws@).subrange(16 * k, 16 * k + 16) by {
            lemma_words_bytes_index(ws@, k);
        }
        lemma_blocks_eq(s@, words_bytes(ws@), 6);
        assert(ws@ =~= rgb_words(d).push(sig_of(rgb_words(d))));
        assert(s@ == encode_rgb_spec(d));
        assert forall|d2: RgbInvoiceData| s@ == encode_rgb_spec(d2) implies d2 == d by {
            lemma_rgb_encoding_injective(d2, d);
        }
    }
    Ok(d)
}

} // verus!
