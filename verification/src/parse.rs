use vstd::prelude::*;

use vstd::slice::slice_subrange;
use vstd::slice::slice_to_vec;

use crate::tx::Tx;
use crate::tx::AMOUNT_SCALE;
use crate::tx::TxKind;

verus! {

/// Why a line was rejected by the parser.
#[derive(Clone, Copy, Debug, PartialEq, Eq, Structural)]
pub enum ParseError {
    /// The line does not have three or four comma-separated fields.
    FieldCount,
    /// The first field is not one of the five operation tokens.
    BadKind,
    /// The client field is not an unsigned integer in range.
    BadClient,
    /// The transaction-id field is not an unsigned integer in range.
    BadTx,
    /// The amount field is not a representable non-negative decimal.
    BadAmount,
}

/// The bytes the parser strips from both ends of a field: space, tab,
/// carriage return and line feed.
pub open spec fn is_space(b: u8) -> bool {
    b == 32 || b == 9 || b == 13 || b == 10
}

pub open spec fn is_digit(b: u8) -> bool {
    48 <= b <= 57
}

pub open spec fn digit_val(b: u8) -> int {
    if is_digit(b) {
        b - 48
    } else {
        0
    }
}

/// A non-empty, all-digit field.
pub open spec fn is_digits(s: Seq<u8>) -> bool {
    s.len() > 0 && forall|i: int| 0 <= i < s.len() ==> is_digit(#[trigger] s[i])
}

/// The base-ten value of a digit string, most significant digit first.
pub open spec fn digits_val(s: Seq<u8>) -> int
    decreases s.len(),
{
    if s.len() == 0 {
        0
    } else {
        digits_val(s.drop_last()) * 10 + digit_val(s[s.len() - 1])
    }
}

pub proof fn lemma_digits_val_nonneg(s: Seq<u8>)
    ensures
        0 <= digits_val(s),
    decreases s.len(),
{
    if s.len() > 0 {
        lemma_digits_val_nonneg(s.drop_last());
    }
}

/// A digit string's value only grows as more digits follow.
pub proof fn lemma_digits_val_prefix(s: Seq<u8>, k: int)
    requires
        0 <= k <= s.len(),
    ensures
        digits_val(s.take(k)) <= digits_val(s),
    decreases s.len() - k,
{
    if k < s.len() {
        lemma_digits_val_prefix(s, k + 1);
        assert(s.take(k + 1).drop_last() =~= s.take(k));
        assert(s.take(k + 1)[k] == s[k]);
        lemma_digits_val_nonneg(s.take(k));
    } else {
        assert(s.take(k) =~= s);
    }
}

/// The index of the first occurrence of `b` in `s`, if any.
pub open spec fn find_byte(s: Seq<u8>, b: u8) -> Option<int>
    decreases s.len(),
{
    if s.len() == 0 {
        None
    } else if s[0] == b {
        Some(0)
    } else {
        match find_byte(s.drop_first(), b) {
            None => None,
            Some(i) => Some(i + 1),
        }
    }
}

/// The comma-separated fields of a line (a comma is byte 44); a line with
/// no comma is one field, and every comma separates two (possibly empty)
/// fields.
pub open spec fn split_commas(s: Seq<u8>) -> Seq<Seq<u8>>
    decreases s.len(),
{
    if s.len() == 0 {
        seq![Seq::<u8>::empty()]
    } else if s[0] == 44 {
        seq![Seq::<u8>::empty()] + split_commas(s.drop_first())
    } else {
        let r = split_commas(s.drop_first());
        seq![seq![s[0]] + r[0]] + r.drop_first()
    }
}

pub proof fn lemma_split_commas_len(s: Seq<u8>)
    ensures
        split_commas(s).len() >= 1,
    decreases s.len(),
{
    if s.len() > 0 {
        lemma_split_commas_len(s.drop_first());
    }
}

/// A field with leading and trailing whitespace removed.
pub open spec fn trim(s: Seq<u8>) -> Seq<u8>
    decreases s.len(),
{
    if s.len() > 0 && is_space(s[0]) {
        trim(s.drop_first())
    } else if s.len() > 0 && is_space(s[s.len() - 1]) {
        trim(s.drop_last())
    } else {
        s
    }
}

/// The token for each operation kind, as the ASCII bytes that must appear
/// in the line's first field: `deposit`, `withdrawal`, `dispute`, `resolve`
/// or `chargeback`.
pub open spec fn kind_token(k: TxKind) -> Seq<u8> {
    match k {
        TxKind::Deposit => seq![100, 101, 112, 111, 115, 105, 116],
        TxKind::Withdrawal => seq![119, 105, 116, 104, 100, 114, 97, 119, 97, 108],
        TxKind::Dispute => seq![100, 105, 115, 112, 117, 116, 101],
        TxKind::Resolve => seq![114, 101, 115, 111, 108, 118, 101],
        TxKind::Chargeback => seq![99, 104, 97, 114, 103, 101, 98, 97, 99, 107],
    }
}

/// Which operation a (trimmed) kind field names, if any.
pub open spec fn spec_kind(s: Seq<u8>) -> Option<TxKind> {
    if s == kind_token(TxKind::Deposit) {
        Some(TxKind::Deposit)
    } else if s == kind_token(TxKind::Withdrawal) {
        Some(TxKind::Withdrawal)
    } else if s == kind_token(TxKind::Dispute) {
        Some(TxKind::Dispute)
    } else if s == kind_token(TxKind::Resolve) {
        Some(TxKind::Resolve)
    } else if s == kind_token(TxKind::Chargeback) {
        Some(TxKind::Chargeback)
    } else {
        None
    }
}

pub open spec fn pow10(k: nat) -> int
    decreases k,
{
    if k == 0 {
        1
    } else {
        10 * pow10((k - 1) as nat)
    }
}

/// The value of a (trimmed) amount field, in fixed-point units of 1/10000.
/// An empty field means no amount and is worth 0. Otherwise the field is an
/// all-digit integer part, optionally followed by a dot (byte 46) and one
/// to four fraction digits, and its scaled value must fit an `i64`.
pub open spec fn spec_amount(s: Seq<u8>) -> Option<i64> {
    if s.len() == 0 {
        Some(0i64)
    } else {
        match find_byte(s, 46) {
            None => {
                if is_digits(s) && digits_val(s) * AMOUNT_SCALE <= i64::MAX {
                    Some((digits_val(s) * AMOUNT_SCALE) as i64)
                } else {
                    None
                }
            },
            Some(i) => {
                let ip = s.subrange(0, i);
                let fp = s.subrange(i + 1, s.len() as int);
                let v = digits_val(ip) * AMOUNT_SCALE + digits_val(fp) * pow10((4 - fp.len()) as nat);
                if is_digits(ip) && is_digits(fp) && fp.len() <= 4 && v <= i64::MAX {
                    Some(v as i64)
                } else {
                    None
                }
            },
        }
    }
}

/// What a whole line parses to: the record, or the first failure among
/// field count, kind, client, transaction id and amount.
pub open spec fn spec_parse(s: Seq<u8>) -> Result<Tx, ParseError> {
    let fs = split_commas(s);
    if fs.len() != 3 && fs.len() != 4 {
        Err(ParseError::FieldCount)
    } else {
        match spec_kind(trim(fs[0])) {
            None => Err(ParseError::BadKind),
            Some(kind) => {
                let cf = trim(fs[1]);
                let tf = trim(fs[2]);
                if !(is_digits(cf) && digits_val(cf) <= u64::MAX) {
                    Err(ParseError::BadClient)
                } else if !(is_digits(tf) && digits_val(tf) <= u64::MAX) {
                    Err(ParseError::BadTx)
                } else {
                    let af = if fs.len() == 4 {
                        trim(fs[3])
                    } else {
                        Seq::<u8>::empty()
                    };
                    match spec_amount(af) {
                        None => Err(ParseError::BadAmount),
                        Some(amount) => Ok(
                            Tx {
                                kind,
                                client: digits_val(cf) as u64,
                                tx_id: digits_val(tf) as u64,
                                amount,
                            },
                        ),
                    }
                }
            },
        }
    }
}

fn byte_is_space(b: u8) -> (r: bool)
    ensures
        r == is_space(b),
{
    b == 32 || b == 9 || b == 13 || b == 10
}

/// Split a line at every comma, keeping empty fields.
fn split_fields(s: &[u8]) -> (out: Vec<Vec<u8>>)
    ensures
        out@.len() == split_commas(s@).len(),
        forall|j: int| 0 <= j < out@.len() ==> (#[trigger] out@[j])@ == split_commas(s@)[j],
{
    let n = s.len();
    let mut out: Vec<Vec<u8>> = Vec::new();
    let mut cur: Vec<u8> = Vec::new();
    let mut i: usize = 0;
    proof {
        assert(s@.skip(0) =~= s@);
        lemma_split_commas_len(s@);
    }
    while i < n
        invariant
            i <= n,
            n == s@.len(),
            split_commas(s@).len() == out@.len() + split_commas(s@.skip(i as int)).len(),
            forall|j: int|
                0 <= j < out@.len() ==> (#[trigger] out@[j])@ == split_commas(s@)[j],
            split_commas(s@)[out@.len() as int] == cur@ + split_commas(s@.skip(i as int))[0],
            forall|j: int|
                1 <= j < split_commas(s@.skip(i as int)).len() ==> split_commas(s@)[out@.len() + j]
                    == #[trigger] split_commas(s@.skip(i as int))[j],
        decreases n - i,
    {
        let ghost rest = s@.skip(i as int);
        let ghost rr = split_commas(s@.skip(i as int + 1));
        proof {
            lemma_split_commas_len(s@.skip(i as int + 1));
            assert(rest[0] == s@[i as int]);
            assert(rest.drop_first() =~= s@.skip(i as int + 1));
        }
        let b = s[i];
        if b == 44 {
            proof {
                assert(split_commas(rest) == seq![Seq::<u8>::empty()] + rr);
                assert(cur@ + split_commas(rest)[0] =~= cur@);
                assert(split_commas(rest)[1] == rr[0]);
            }
            let done = cur;
            cur = Vec::new();
            out.push(done);
            proof {
                assert(cur@ + rr[0] =~= rr[0]);
                assert forall|j: int| 1 <= j < rr.len() implies split_commas(s@)[out@.len() + j]
                    == rr[j] by {
                    assert(split_commas(rest)[j + 1] == rr[j]);
                    assert(split_commas(s@)[out@.len() - 1 + (j + 1)] == split_commas(rest)[j + 1]);
                }
            }
        } else {
            proof {
                assert(split_commas(rest) == seq![seq![rest[0]] + rr[0]] + rr.drop_first());
                assert(cur@ + (seq![s@[i as int]] + rr[0]) =~= cur@.push(s@[i as int]) + rr[0]);
                assert forall|j: int| 1 <= j < rr.len() implies split_commas(s@)[out@.len() + j]
                    == rr[j] by {
                    assert(split_commas(rest)[j] == rr.drop_first()[j - 1]);
                    assert(rr.drop_first()[j - 1] == rr[j]);
                }
            }
            cur.push(b);
        }
        i += 1;
    }
    proof {
        assert(s@.skip(n as int) =~= Seq::<u8>::empty());
        assert(split_commas(s@.skip(n as int)) == seq![Seq::<u8>::empty()]);
        assert(cur@ + Seq::<u8>::empty() =~= cur@);
    }
    out.push(cur);
    out
}

/// Strip whitespace from both ends of a field.
fn trim_bytes(s: &[u8]) -> (r: Vec<u8>)
    ensures
        r@ == trim(s@),
{
    let n = s.len();
    let mut lo: usize = 0;
    proof {
        assert(s@.subrange(0, n as int) =~= s@);
    }
    while lo < n && byte_is_space(s[lo])
        invariant
            lo <= n,
            n == s@.len(),
            trim(s@) == trim(s@.subrange(lo as int, n as int)),
        decreases n - lo,
    {
        proof {
            assert(s@.subrange(lo as int, n as int)[0] == s@[lo as int]);
            assert(s@.subrange(lo as int, n as int).drop_first() =~= s@.subrange(
                lo as int + 1,
                n as int,
            ));
        }
        lo += 1;
    }
    let mut hi: usize = n;
    while hi > lo && byte_is_space(s[hi - 1])
        invariant
            lo <= hi <= n,
            n == s@.len(),
            trim(s@) == trim(s@.subrange(lo as int, hi as int)),
            lo == n || !is_space(s@[lo as int]),
        decreases hi,
    {
        proof {
            let sub = s@.subrange(lo as int, hi as int);
            assert(sub[0] == s@[lo as int]);
            assert(sub[sub.len() - 1] == s@[hi as int - 1]);
            assert(sub.drop_last() =~= s@.subrange(lo as int, hi as int - 1));
        }
        hi -= 1;
    }
    proof {
        let sub = s@.subrange(lo as int, hi as int);
        if lo < hi {
            assert(sub[0] == s@[lo as int]);
            assert(sub[sub.len() - 1] == s@[hi as int - 1]);
        }
        assert(trim(sub) == sub);
    }
    slice_to_vec(slice_subrange(s, lo, hi))
}

/// The index of the first dot in the field, if any.
fn find_dot(s: &[u8]) -> (r: Option<usize>)
    ensures
        match r {
            Some(i) => find_byte(s@, 46) == Some(i as int) && i < s@.len(),
            None => find_byte(s@, 46) == None::<int>,
        },
{
    let n = s.len();
    let mut i: usize = 0;
    proof {
        assert(s@.skip(0) =~= s@);
    }
    while i < n
        invariant
            i <= n,
            n == s@.len(),
            find_byte(s@, 46) == match find_byte(s@.skip(i as int), 46) {
                None => None::<int>,
                Some(k) => Some(k + i as int),
            },
        decreases n - i,
    {
        proof {
            assert(s@.skip(i as int)[0] == s@[i as int]);
            assert(s@.skip(i as int).drop_first() =~= s@.skip(i as int + 1));
        }
        if s[i] == 46 {
            return Some(i);
        }
        i += 1;
    }
    proof {
        assert(s@.skip(n as int) =~= Seq::<u8>::empty());
    }
    None
}

/// Parse a trimmed all-digit field as a `u64`.
fn parse_u64(s: &[u8]) -> (r: Option<u64>)
    ensures
        r == (if is_digits(s@) && digits_val(s@) <= u64::MAX {
            Some(digits_val(s@) as u64)
        } else {
            None::<u64>
        }),
{
    let n = s.len();
    if n == 0 {
        return None;
    }
    let mut acc: u64 = 0;
    let mut i: usize = 0;
    proof {
        assert(s@.take(0) =~= Seq::<u8>::empty());
    }
    while i < n
        invariant
            i <= n,
            n == s@.len(),
            forall|j: int| 0 <= j < i ==> is_digit(#[trigger] s@[j]),
            acc as int == digits_val(s@.take(i as int)),
        decreases n - i,
    {
        let b = s[i];
        if b < 48 || b > 57 {
            return None;
        }
        let d: u64 = (b - 48) as u64;
        if acc > (u64::MAX - d) / 10 {
            proof {
                assert(acc * 10 + d > u64::MAX) by (nonlinear_arith)
                    requires
                        acc > (u64::MAX - d) / 10,
                        d <= 9,
                ;
                assert(s@.take(i as int + 1).drop_last() =~= s@.take(i as int));
                assert(s@.take(i as int + 1)[i as int] == s@[i as int]);
                assert(digits_val(s@.take(i as int + 1)) == acc * 10 + d);
                if is_digits(s@) {
                    lemma_digits_val_prefix(s@, i as int + 1);
                }
            }
            return None;
        }
        proof {
            assert(acc * 10 + d <= u64::MAX) by (nonlinear_arith)
                requires
                    acc <= (u64::MAX - d) / 10,
                    d <= 9,
            ;
            assert(s@.take(i as int + 1).drop_last() =~= s@.take(i as int));
            assert(s@.take(i as int + 1)[i as int] == s@[i as int]);
        }
        acc = acc * 10 + d;
        i += 1;
    }
    proof {
        assert(s@.take(n as int) =~= s@);
    }
    Some(acc)
}

/// Parse a trimmed amount field; see [`spec_amount`].
fn parse_amount(s: &[u8]) -> (r: Option<i64>)
    ensures
        r == spec_amount(s@),
{
    let n = s.len();
    if n == 0 {
        return Some(0);
    }
    match find_dot(s) {
        None => {
            match parse_u64(s) {
                None => {
                    proof {
                        if is_digits(s@) {
                            lemma_digits_val_nonneg(s@);
                        }
                    }
                    None
                },
                Some(v) => {
                    proof {
                        lemma_digits_val_nonneg(s@);
                        assert(v as u128 * (AMOUNT_SCALE as u128) <= u64::MAX as u128 * 10000)
                            by (nonlinear_arith)
                            requires
                                v as u128 <= u64::MAX as u128,
                                AMOUNT_SCALE == 10000,
                        ;
                    }
                    let total: u128 = v as u128 * (AMOUNT_SCALE as u128);
                    if total > i64::MAX as u128 {
                        None
                    } else {
                        Some(total as i64)
                    }
                },
            }
        },
        Some(di) => {
            let ip = slice_subrange(s, 0, di);
            let fp = slice_subrange(s, di + 1, n);
            let ghost ips = s@.subrange(0, di as int);
            let ghost fps = s@.subrange(di as int + 1, s@.len() as int);
            proof {
                lemma_digits_val_nonneg(ips);
                lemma_digits_val_nonneg(fps);
            }
            if fp.len() > 4 {
                return None;
            }
            let ipv = match parse_u64(ip) {
                Some(v) => v,
                None => {
                    proof {
                        if is_digits(ips) && is_digits(fps) && fps.len() <= 4 {
                            lemma_pow10_pos((4 - fps.len()) as nat);
                            assert(digits_val(fps) * pow10((4 - fps.len()) as nat) >= 0)
                                by (nonlinear_arith)
                                requires
                                    digits_val(fps) >= 0,
                                    pow10((4 - fps.len()) as nat) >= 1,
                            ;
                        }
                    }
                    return None;
                },
            };
            let fpv = match parse_u64(fp) {
                Some(v) => v,
                None => {
                    proof {
                        if is_digits(fps) && digits_val(fps) > u64::MAX {
                            lemma_pow10_pos((4 - fps.len()) as nat);
                            assert(digits_val(fps) * pow10((4 - fps.len()) as nat) >= digits_val(
                                fps,
                            )) by (nonlinear_arith)
                                requires
                                    digits_val(fps) >= 0,
                                    pow10((4 - fps.len()) as nat) >= 1,
                            ;
                            assert(digits_val(ips) * AMOUNT_SCALE >= 0);
                        }
                    }
                    return None;
                },
            };
            let scale: u128 = if fp.len() == 1 {
                1000
            } else if fp.len() == 2 {
                100
            } else if fp.len() == 3 {
                10
            } else {
                1
            };
            proof {
                reveal_with_fuel(pow10, 5);
                assert(scale as int == pow10((4 - fps.len()) as nat));
                assert(fpv as u128 * scale <= u64::MAX as u128 * 1000) by (nonlinear_arith)
                    requires
                        fpv as u128 <= u64::MAX as u128,
                        scale <= 1000,
                ;
            }
            let total: u128 = ipv as u128 * (AMOUNT_SCALE as u128) + fpv as u128 * scale;
            proof {
                assert(ipv as u128 * (AMOUNT_SCALE as u128) == digits_val(ips) * AMOUNT_SCALE);
                assert(fpv as u128 * scale == digits_val(fps) * pow10((4 - fps.len()) as nat));
                assert(total as int == digits_val(ips) * AMOUNT_SCALE + digits_val(fps) * pow10(
                    (4 - fps.len()) as nat,
                ));
            }
            if total > i64::MAX as u128 {
                None
            } else {
                Some(total as i64)
            }
        },
    }
}

pub proof fn lemma_pow10_pos(k: nat)
    ensures
        pow10(k) >= 1,
    decreases k,
{
    if k > 0 {
        lemma_pow10_pos((k - 1) as nat);
    }
}

/// Which operation a trimmed kind field names; see [`spec_kind`].
fn match_kind(s: &[u8]) -> (k: Option<TxKind>)
    ensures
        k == spec_kind(s@),
{
    let n = s.len();
    if n == 7 {
        if s[0] == 100 && s[1] == 101 && s[2] == 112 && s[3] == 111 && s[4] == 115 && s[5]
            == 105 && s[6] == 116 {
            proof {
                assert(s@ =~= kind_token(TxKind::Deposit));
            }
            return Some(TxKind::Deposit);
        }
        if s[0] == 100 && s[1] == 105 && s[2] == 115 && s[3] == 112 && s[4] == 117 && s[5]
            == 116 && s[6] == 101 {
            proof {
                assert(s@ =~= kind_token(TxKind::Dispute));
            }
            return Some(TxKind::Dispute);
        }
        if s[0] == 114 && s[1] == 101 && s[2] == 115 && s[3] == 111 && s[4] == 108 && s[5]
            == 118 && s[6] == 101 {
            proof {
                assert(s@ =~= kind_token(TxKind::Resolve));
            }
            return Some(TxKind::Resolve);
        }
    } else if n == 10 {
        if s[0] == 119 && s[1] == 105 && s[2] == 116 && s[3] == 104 && s[4] == 100 && s[5]
            == 114 && s[6] == 97 && s[7] == 119 && s[8] == 97 && s[9] == 108 {
            proof {
                assert(s@ =~= kind_token(TxKind::Withdrawal));
            }
            return Some(TxKind::Withdrawal);
        }
        if s[0] == 99 && s[1] == 104 && s[2] == 97 && s[3] == 114 && s[4] == 103 && s[5]
            == 101 && s[6] == 98 && s[7] == 97 && s[8] == 99 && s[9] == 107 {
            proof {
                assert(s@ =~= kind_token(TxKind::Chargeback));
            }
            return Some(TxKind::Chargeback);
        }
    }
    None
}

/// Parse one comma-separated line into a transaction record, or say which
/// field makes it unusable; see [`spec_parse`]. A parsed amount is always
/// non-negative and at most `i64::MAX` in units.
pub fn tx_from_line(line: &[u8]) -> (r: Result<Tx, ParseError>)
    ensures
        r == spec_parse(line@),
        r matches Ok(t) ==> 0 <= t.amount,
{
    let fields = split_fields(line);
    let nf = fields.len();
    if nf != 3 && nf != 4 {
        return Err(ParseError::FieldCount);
    }
    let kf = trim_bytes(fields[0].as_slice());
    let kind = match match_kind(kf.as_slice()) {
        Some(k) => k,
        None => {
            return Err(ParseError::BadKind);
        },
    };
    let cf = trim_bytes(fields[1].as_slice());
    let client = match parse_u64(cf.as_slice()) {
        Some(c) => c,
        None => {
            return Err(ParseError::BadClient);
        },
    };
    let tf = trim_bytes(fields[2].as_slice());
    let tx_id = match parse_u64(tf.as_slice()) {
        Some(t) => t,
        None => {
            return Err(ParseError::BadTx);
        },
    };
    let amount = if nf == 4 {
        let af = trim_bytes(fields[3].as_slice());
        match parse_amount(af.as_slice()) {
            Some(a) => a,
            None => {
                return Err(ParseError::BadAmount);
            },
        }
    } else {
        0
    };
    proof {
        lemma_spec_amount_nonneg(
            if nf == 4 {
                trim(split_commas(line@)[3])
            } else {
                Seq::<u8>::empty()
            },
        );
    }
    Ok(Tx { kind, client, tx_id, amount })
}

pub proof fn lemma_spec_amount_nonneg(s: Seq<u8>)
    ensures
        spec_amount(s) matches Some(a) ==> 0 <= a,
{
    if s.len() > 0 {
        match find_byte(s, 46) {
            None => {
                lemma_digits_val_nonneg(s);
            },
            Some(i) => {
                let ip = s.subrange(0, i);
                let fp = s.subrange(i + 1, s.len() as int);
                lemma_digits_val_nonneg(ip);
                lemma_digits_val_nonneg(fp);
                lemma_pow10_pos((4 - fp.len()) as nat);
                assert(digits_val(fp) * pow10((4 - fp.len()) as nat) >= 0) by (nonlinear_arith)
                    requires
                        digits_val(fp) >= 0,
                        pow10((4 - fp.len()) as nat) >= 1,
                ;
                assert(digits_val(ip) * AMOUNT_SCALE >= 0);
            },
        }
    }
}

} // verus!
