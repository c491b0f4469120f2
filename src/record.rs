//! A log record and the line that stores it:
//! `{"id":<id>,"timestamp":<timestamp>,"data":[<byte>,<byte>,...]}`.
use vstd::prelude::*;
use crate::digits::{
    all_digits, canonical, decimal, digits_value, is_digit, lemma_decimal, lemma_decimal_injective,
    lemma_canonical_decimal, lemma_digit_split, lemma_run_end, read_number, run_end,
};
use crate::error::WalError;

verus! {

/// One record of the log: its id, its creation time in seconds since the
/// epoch, and its payload.
#[derive(Debug, Clone)]
pub struct LogEntry {
    pub id: u64,
    pub timestamp: u64,
    pub data: Vec<u8>,
}

/// The mathematical value of a record.
pub struct RecordView {
    pub id: u64,
    pub timestamp: u64,
    pub data: Seq<u8>,
}

impl View for LogEntry {
    type V = RecordView;

    open spec fn view(&self) -> RecordView {
        RecordView { id: self.id, timestamp: self.timestamp, data: self.data@ }
    }
}

pub open spec fn key_id() -> Seq<u8> {
    seq![123u8, 34u8, 105u8, 100u8, 34u8, 58u8]
}

pub open spec fn key_timestamp() -> Seq<u8> {
    seq![44u8, 34u8, 116u8, 105u8, 109u8, 101u8, 115u8, 116u8, 97u8, 109u8, 112u8, 34u8, 58u8]
}

pub open spec fn key_data() -> Seq<u8> {
    seq![44u8, 34u8, 100u8, 97u8, 116u8, 97u8, 34u8, 58u8]
}

/// The bytes of `s` in decimal, separated by commas.
pub open spec fn byte_items(s: Seq<u8>) -> Seq<u8>
    decreases s.len(),
{
    if s.len() == 0 {
        Seq::empty()
    } else if s.len() == 1 {
        decimal(s[0] as nat)
    } else {
        decimal(s[0] as nat) + seq![44u8] + byte_items(s.drop_first())
    }
}

/// A byte sequence as a JSON array of numbers.
pub open spec fn byte_array(s: Seq<u8>) -> Seq<u8> {
    seq![91u8] + byte_items(s) + seq![93u8]
}

/// The line that stores a record (without its delimiter): the bytes go as a
/// JSON array, followed by the closing brace.
pub open spec fn line_of(r: RecordView) -> Seq<u8> {
    key_id() + (decimal(r.id as nat) + (key_timestamp() + (decimal(r.timestamp as nat) + (key_data()
        + (seq![91u8] + (byte_items(r.data) + seq![93u8, 125u8]))))))
}

/// Whether a line stores some record.
pub open spec fn is_record_line(line: Seq<u8>) -> bool {
    exists|r: RecordView| line_of(r) == line
}

/// The record that a line stores, if it stores one.
pub open spec fn parse_line(line: Seq<u8>) -> Option<RecordView> {
    if is_record_line(line) {
        Some(choose|r: RecordView| line_of(r) == line)
    } else {
        None
    }
}

proof fn lemma_strip_prefix(p: Seq<u8>, x: Seq<u8>, y: Seq<u8>)
    requires
        p + x == p + y,
    ensures
        x == y,
{
    assert(x =~= (p + x).subrange(p.len() as int, (p + x).len() as int));
    assert(y =~= (p + y).subrange(p.len() as int, (p + y).len() as int));
}

proof fn lemma_items_injective(a: Seq<u8>, b: Seq<u8>, t: Seq<u8>)
    requires
        t.len() >= 1,
        t[0] == 93u8,
        byte_items(a) + t == byte_items(b) + t,
    ensures
        a == b,
    decreases a.len(),
{
    if a.len() == 0 && b.len() == 0 {
        assert(a =~= b);
    } else if a.len() == 0 || b.len() == 0 {
        let n = if a.len() == 0 { b } else { a };
        lemma_decimal(n[0] as nat);
        assert(is_digit(decimal(n[0] as nat)[0]));
        assert((byte_items(a) + t)[0] == (byte_items(b) + t)[0]);
    } else {
        let ua = if a.len() == 1 { t } else { seq![44u8] + byte_items(a.drop_first()) + t };
        let ub = if b.len() == 1 { t } else { seq![44u8] + byte_items(b.drop_first()) + t };
        assert(byte_items(a) + t =~= decimal(a[0] as nat) + ua);
        assert(byte_items(b) + t =~= decimal(b[0] as nat) + ub);
        lemma_decimal(a[0] as nat);
        lemma_decimal(b[0] as nat);
        lemma_digit_split(decimal(a[0] as nat), ua, decimal(b[0] as nat), ub);
        lemma_decimal_injective(a[0] as nat, b[0] as nat);
        if a.len() == 1 && b.len() == 1 {
            assert(a =~= b);
        } else if a.len() == 1 || b.len() == 1 {
            assert(ua[0] != ub[0]);
        } else {
            assert(ua =~= seq![44u8] + (byte_items(a.drop_first()) + t));
            assert(ub =~= seq![44u8] + (byte_items(b.drop_first()) + t));
            lemma_strip_prefix(seq![44u8], byte_items(a.drop_first()) + t, byte_items(b.drop_first()) + t);
            lemma_items_injective(a.drop_first(), b.drop_first(), t);
            assert(a =~= seq![a[0]] + a.drop_first());
            assert(b =~= seq![b[0]] + b.drop_first());
        }
    }
}

/// Distinct records are stored as distinct lines.
pub proof fn lemma_line_injective(a: RecordView, b: RecordView)
    requires
        line_of(a) == line_of(b),
    ensures
        a == b,
{
    let t = seq![93u8, 125u8];
    let ta = key_data() + (seq![91u8] + (byte_items(a.data) + t));
    let tb = key_data() + (seq![91u8] + (byte_items(b.data) + t));
    let sa = key_timestamp() + (decimal(a.timestamp as nat) + ta);
    let sb = key_timestamp() + (decimal(b.timestamp as nat) + tb);
    lemma_strip_prefix(key_id(), decimal(a.id as nat) + sa, decimal(b.id as nat) + sb);
    lemma_decimal(a.id as nat);
    lemma_decimal(b.id as nat);
    lemma_digit_split(decimal(a.id as nat), sa, decimal(b.id as nat), sb);
    lemma_decimal_injective(a.id as nat, b.id as nat);
    lemma_strip_prefix(key_timestamp(), decimal(a.timestamp as nat) + ta, decimal(b.timestamp as nat) + tb);
    lemma_decimal(a.timestamp as nat);
    lemma_decimal(b.timestamp as nat);
    lemma_digit_split(decimal(a.timestamp as nat), ta, decimal(b.timestamp as nat), tb);
    lemma_decimal_injective(a.timestamp as nat, b.timestamp as nat);
    lemma_strip_prefix(key_data(), seq![91u8] + (byte_items(a.data) + t), seq![91u8] + (byte_items(b.data) + t));
    lemma_strip_prefix(seq![91u8], byte_items(a.data) + t, byte_items(b.data) + t);
    lemma_items_injective(a.data, b.data, t);
}

/// The line of a record reads back as that record.
pub proof fn lemma_parse_line_of(r: RecordView)
    ensures
        parse_line(line_of(r)) == Some(r),
{
    let line = line_of(r);
    assert(is_record_line(line));
    let c = choose|c: RecordView| line_of(c) == line;
    lemma_line_injective(c, r);
}

proof fn lemma_split_at(s: Seq<u8>, p: int, piece: Seq<u8>, rest: Seq<u8>)
    requires
        0 <= p <= s.len(),
        s.subrange(p, s.len() as int) == piece + rest,
    ensures
        s.subrange(p, p + piece.len()) == piece,
        s.subrange(p + piece.len(), s.len() as int) == rest,
{
    assert(s.subrange(p, p + piece.len()) =~= (piece + rest).subrange(0, piece.len() as int));
    assert(s.subrange(p + piece.len(), s.len() as int) =~= (piece + rest).subrange(
        piece.len() as int,
        (piece + rest).len() as int,
    ));
}

proof fn lemma_extend(s: Seq<u8>, p: int, q: int, head: Seq<u8>, piece: Seq<u8>)
    requires
        0 <= p <= q <= s.len(),
        s.subrange(0, p) == head,
        s.subrange(p, q) == piece,
    ensures
        s.subrange(0, q) == head + piece,
{
    assert(s.subrange(0, q) =~= head + piece);
}

/// A number of a line followed by a non-digit reads as that number.
proof fn lemma_number_at(s: Seq<u8>, p: int, n: nat, rest: Seq<u8>)
    requires
        0 <= p <= s.len(),
        s.subrange(p, s.len() as int) == decimal(n) + rest,
        rest.len() >= 1,
        !is_digit(rest[0]),
    ensures
        run_end(s, p) == p + decimal(n).len(),
        s.subrange(p, run_end(s, p)) == decimal(n),
        s.subrange(run_end(s, p), s.len() as int) == rest,
        canonical(decimal(n)),
        digits_value(decimal(n)) == n,
{
    lemma_decimal(n);
    lemma_split_at(s, p, decimal(n), rest);
    let e = p + decimal(n).len();
    assert(s.subrange(p, s.len() as int).len() == decimal(n).len() + rest.len());
    assert(s[e] == rest[0]) by {
        assert(s.subrange(e, s.len() as int)[0] == s[e]);
    }
    lemma_run_end(s, p, e);
}

proof fn lemma_items_push(s: Seq<u8>, x: u8)
    ensures
        byte_items(s.push(x)) == if s.len() == 0 {
            decimal(x as nat)
        } else {
            byte_items(s) + seq![44u8] + decimal(x as nat)
        },
    decreases s.len(),
{
    if s.len() == 1 {
        assert(s.push(x).drop_first() =~= seq![x]);
        assert(byte_items(seq![x]) == decimal(x as nat));
    } else if s.len() > 1 {
        lemma_items_push(s.drop_first(), x);
        assert(s.push(x).drop_first() =~= s.drop_first().push(x));
        assert(byte_items(s.push(x)) =~= byte_items(s) + seq![44u8] + decimal(x as nat));
    }
}

proof fn lemma_items_front(s: Seq<u8>)
    requires
        s.len() >= 1,
    ensures
        byte_items(s) + seq![93u8, 125u8] == decimal(s[0] as nat) + (if s.len() == 1 {
            seq![93u8, 125u8]
        } else {
            seq![44u8] + (byte_items(s.drop_first()) + seq![93u8, 125u8])
        }),
{
    if s.len() == 1 {
        assert(byte_items(s) + seq![93u8, 125u8] =~= decimal(s[0] as nat) + seq![93u8, 125u8]);
    } else {
        assert(byte_items(s) + seq![93u8, 125u8] =~= decimal(s[0] as nat) + (seq![44u8] + (
        byte_items(s.drop_first()) + seq![93u8, 125u8])));
    }
}

/// Relies on serde_json::to_vec for a u64: the compact formatter writes the
/// number's decimal digits and nothing else, into a `Vec`, which cannot fail.
#[verifier::external_body]
fn json_number(n: u64) -> (r: Result<Vec<u8>, serde_json::Error>)
    ensures
        r is Ok,
        r matches Ok(v) ==> v@ == decimal(n as nat),
{
    serde_json::to_vec(&n)
}

/// Relies on serde_json::to_vec for a byte vector: a JSON array of the bytes
/// in decimal, separated by commas, without spaces, written into a `Vec`,
/// which cannot fail.
#[verifier::external_body]
fn json_byte_array(b: &Vec<u8>) -> (r: Result<Vec<u8>, serde_json::Error>)
    ensures
        r is Ok,
        r matches Ok(v) ==> v@ == seq![91u8] + byte_items(b@) + seq![93u8],
{
    serde_json::to_vec(b)
}

fn key_id_bytes() -> (r: Vec<u8>)
    ensures
        r@ == key_id(),
{
    let r = vec![123u8, 34u8, 105u8, 100u8, 34u8, 58u8];
    assert(r@ =~= key_id());
    r
}

fn key_timestamp_bytes() -> (r: Vec<u8>)
    ensures
        r@ == key_timestamp(),
{
    let r = vec![44u8, 34u8, 116u8, 105u8, 109u8, 101u8, 115u8, 116u8, 97u8, 109u8, 112u8, 34u8, 58u8];
    assert(r@ =~= key_timestamp());
    r
}

fn key_data_bytes() -> (r: Vec<u8>)
    ensures
        r@ == key_data(),
{
    let r = vec![44u8, 34u8, 100u8, 97u8, 116u8, 97u8, 34u8, 58u8];
    assert(r@ =~= key_data());
    r
}

/// Encodes a record as its line (without the delimiter).
pub fn encode_line(entry: &LogEntry) -> (r: Result<Vec<u8>, WalError>)
    ensures
        r matches Ok(v) && v@ == line_of(entry@),
{
    let mut id = match json_number(entry.id) {
        Ok(v) => v,
        Err(e) => return Err(WalError::Serialization(e)),
    };
    let mut timestamp = match json_number(entry.timestamp) {
        Ok(v) => v,
        Err(e) => return Err(WalError::Serialization(e)),
    };
    let mut data = match json_byte_array(&entry.data) {
        Ok(v) => v,
        Err(e) => return Err(WalError::Serialization(e)),
    };
    let ghost d = data@;
    let mut out = key_id_bytes();
    out.append(&mut id);
    let mut k = key_timestamp_bytes();
    out.append(&mut k);
    out.append(&mut timestamp);
    let mut k = key_data_bytes();
    out.append(&mut k);
    out.append(&mut data);
    out.push(125u8);
    assert(out@ =~= line_of(entry@));
    Ok(out)
}

/// Whether `lit` stands in `s` at position `p`.
fn match_at(s: &[u8], p: usize, lit: &Vec<u8>) -> (r: bool)
    requires
        p <= s@.len(),
    ensures
        r == (p + lit@.len() <= s@.len() && s@.subrange(p as int, p + lit@.len()) == lit@),
{
    if lit.len() > s.len() - p {
        return false;
    }
    let n = s.len();
    let mut k: usize = 0;
    while k < lit.len()
        invariant
            n == s@.len(),
            p + lit@.len() <= s@.len(),
            k <= lit@.len(),
            s@.subrange(p as int, p + k) =~= lit@.subrange(0, k as int),
        decreases lit@.len() - k,
    {
        assert(p + k < s@.len());
        if s[p + k] != lit[k] {
            assert(s@.subrange(p as int, p + lit@.len())[k as int] != lit@[k as int]);
            return false;
        }
        k = k + 1;
    }
    assert(lit@.subrange(0, k as int) =~= lit@);
    true
}

proof fn lemma_one(s: Seq<u8>, p: int)
    requires
        0 <= p < s.len(),
    ensures
        s.subrange(p, p + 1) == seq![s[p]],
{
    assert(s.subrange(p, p + 1) =~= seq![s[p]]);
}

pub open spec fn head_of(id: u64, timestamp: u64) -> Seq<u8> {
    key_id() + decimal(id as nat) + key_timestamp() + decimal(timestamp as nat) + key_data() + seq![
        91u8,
    ]
}

/// Reads `key` at position `p` and the number after it: the number and the
/// position after it. Where `target` holds a number and what follows it,
/// and the line goes on from `p` with the key, that number and that rest,
/// the number read is that one.
fn decode_field(line: &[u8], p: usize, key: &Vec<u8>, Ghost(target): Ghost<Option<(u64, Seq<u8>)>>) -> (r: Option<(u64, usize)>)
    requires
        p <= line@.len(),
        target matches Some((n, rest)) ==> line@.subrange(p as int, line@.len() as int) == key@ + (
        decimal(n as nat) + rest) && rest.len() >= 1 && !is_digit(rest[0]),
    ensures
        r matches Some((v, q)) ==> p < q <= line@.len() && line@.subrange(p as int, q as int) == key@
            + decimal(v as nat),
        target matches Some((n, rest)) ==> (r matches Some((v, q)) && v == n && line@.subrange(
            q as int,
            line@.len() as int,
        ) == rest),
{
    let ghost s = line@;
    let len = line.len();
    let ghost pair = target.unwrap();
    let ghost n = pair.0;
    let ghost rest = pair.1;
    proof {
        if target is Some {
            assert(target == Some((n, rest)));
            lemma_split_at(s, p as int, key@, decimal(n as nat) + rest);
            assert(s.subrange(p as int, s.len() as int).len() == key@.len() + decimal(n as nat).len()
                + rest.len());
        }
    }
    if !match_at(line, p, key) {
        return None;
    }
    assert(p + key@.len() <= len);
    let p1 = p + key.len();
    proof {
        if target is Some {
            assert(target == Some((n, rest)));
            lemma_number_at(s, p1 as int, n as nat, rest);
        }
    }
    let (v, q) = match read_number(line, p1, u64::MAX) {
        Some(x) => x,
        None => return None,
    };
    proof {
        lemma_canonical_decimal(s.subrange(p1 as int, q as int));
        assert(s.subrange(p as int, q as int) =~= s.subrange(p as int, p1 as int) + s.subrange(
            p1 as int,
            q as int,
        ));
        if target is Some {
            lemma_decimal_injective(v as nat, n as nat);
        }
    }
    Some((v, q))
}

/// Reads a line up to the opening bracket of its bytes: the id, the
/// timestamp and the position after the bracket.
fn decode_head(line: &[u8], Ghost(target): Ghost<Option<RecordView>>) -> (r: Option<(u64, u64, usize)>)
    requires
        target matches Some(v) ==> line@ == line_of(v),
    ensures
        r matches Some((id, timestamp, p)) ==> p <= line@.len() && line@.subrange(0, p as int)
            == head_of(id, timestamp),
        target matches Some(v) ==> (r matches Some((id, timestamp, p)) && id == v.id && timestamp
            == v.timestamp && line@.subrange(p as int, line@.len() as int) == byte_items(v.data)
            + seq![93u8, 125u8]),
{
    let ghost s = line@;
    let n = line.len();
    let ghost t = seq![93u8, 125u8];
    let ghost v = target.unwrap();
    let ghost full = target is Some;
    let ghost tail3 = key_data() + (seq![91u8] + (byte_items(v.data) + t));
    let ghost tail2 = key_timestamp() + (decimal(v.timestamp as nat) + tail3);
    let kid = key_id_bytes();
    let ghost id_target = if full {
        Some((v.id, tail2))
    } else {
        None
    };
    proof {
        if full {
            assert(s.subrange(0, n as int) =~= s);
        }
    }
    let (id, p1) = match decode_field(line, 0, &kid, Ghost(id_target)) {
        Some(x) => x,
        None => return None,
    };
    let kts = key_timestamp_bytes();
    let ghost ts_target = if full {
        Some((v.timestamp, tail3))
    } else {
        None
    };
    let (timestamp, p3) = match decode_field(line, p1, &kts, Ghost(ts_target)) {
        Some(x) => x,
        None => return None,
    };
    let ghost h3 = key_id() + decimal(id as nat) + (key_timestamp() + decimal(timestamp as nat));
    let mut kd = key_data_bytes();
    kd.push(91u8);
    proof {
        lemma_extend(s, p1 as int, p3 as int, key_id() + decimal(id as nat), key_timestamp()
            + decimal(timestamp as nat));
        if full {
            assert(tail3 =~= kd@ + (byte_items(v.data) + t));
            lemma_split_at(s, p3 as int, kd@, byte_items(v.data) + t);
        }
    }
    if !match_at(line, p3, &kd) {
        return None;
    }
    let p4 = p3 + kd.len();
    proof {
        lemma_extend(s, p3 as int, p4 as int, h3, kd@);
        assert(h3 + kd@ =~= head_of(id, timestamp));
    }
    Some((id, timestamp, p4))
}

/// Reads the bytes of a line from position `p` through the closing bracket:
/// the bytes and the position after the bracket. Where `target` holds bytes
/// whose items, bracket and brace follow `p`, the bytes read are those.
#[verifier::rlimit(60)]
fn decode_items(line: &[u8], p: usize, Ghost(target): Ghost<Option<Seq<u8>>>) -> (r: Option<(Vec<u8>, usize)>)
    requires
        p <= line@.len(),
        target matches Some(d) ==> line@.subrange(p as int, line@.len() as int) == byte_items(d)
            + seq![93u8, 125u8],
    ensures
        r matches Some((data, q)) ==> p < q <= line@.len() && line@.subrange(p as int, q as int)
            == byte_items(data@) + seq![93u8],
        target matches Some(d) ==> (r matches Some((data, q)) && data@ == d && line@.subrange(
            q as int,
            line@.len() as int,
        ) == seq![125u8]),
{
    let ghost s = line@;
    let n = line.len();
    let ghost t = seq![93u8, 125u8];
    let ghost d = target.unwrap();
    let ghost full = target is Some;
    let mut data: Vec<u8> = Vec::new();
    if p < n && line[p] == 93u8 {
        proof {
            if full && d.len() > 0 {
                lemma_items_front(d);
                lemma_decimal(d[0] as nat);
                assert(s.subrange(p as int, n as int)[0] == s[p as int]);
                assert(is_digit(decimal(d[0] as nat)[0]));
            }
            lemma_one(s, p as int);
            assert(byte_items(data@) =~= Seq::<u8>::empty());
            assert(byte_items(data@) + seq![93u8] =~= seq![93u8]);
            if full {
                assert(d =~= data@);
                assert(byte_items(d) + t =~= t);
                assert(t =~= seq![93u8] + seq![125u8]);
                lemma_split_at(s, p as int, seq![93u8], seq![125u8]);
            }
        }
        return Some((data, p + 1));
    }
    proof {
        if full && d.len() == 0 {
            assert(byte_items(d) + t =~= t);
            assert(s.subrange(p as int, n as int)[0] == s[p as int]);
        }
        if full {
            assert(d.subrange(0, d.len() as int) =~= d);
            assert(data@ =~= d.subrange(0, 0));
        }
        assert(s.subrange(p as int, p as int) =~= Seq::<u8>::empty());
    }
    let mut i: usize = p;
    loop
        invariant_except_break
            s.subrange(p as int, i as int) == if data@.len() == 0 {
                Seq::<u8>::empty()
            } else {
                byte_items(data@) + seq![44u8]
            },
            full ==> (data@.len() < d.len() && data@ == d.subrange(0, data@.len() as int)
                && s.subrange(i as int, n as int) == byte_items(
                d.subrange(data@.len() as int, d.len() as int),
            ) + t),
        invariant
            p <= i <= n == s.len(),
            s == line@,
            t == seq![93u8, 125u8],
            full == (target is Some),
            full ==> target == Some(d),
        ensures
            p < i <= n == s.len(),
            s.subrange(p as int, i as int) == byte_items(data@) + seq![93u8],
            full ==> (data@ == d && s.subrange(i as int, n as int) == seq![125u8]),
        decreases n - i,
    {
        let ghost k = data@.len() as int;
        let ghost rest = d.subrange(k, d.len() as int);
        let ghost after = if rest.len() == 1 {
            t
        } else {
            seq![44u8] + (byte_items(rest.drop_first()) + t)
        };
        proof {
            if full {
                lemma_items_front(rest);
                lemma_number_at(s, i as int, rest[0] as nat, after);
            }
        }
        let (x, q) = match read_number(line, i, 255) {
            Some(x) => x,
            None => return None,
        };
        let ghost old_data = data@;
        proof {
            lemma_canonical_decimal(s.subrange(i as int, q as int));
            lemma_items_push(old_data, x as u8);
            assert(s.subrange(p as int, q as int) =~= s.subrange(p as int, i as int) + s.subrange(
                i as int,
                q as int,
            ));
            if full {
                lemma_decimal_injective(x as nat, rest[0] as nat);
            }
        }
        data.push(x as u8);
        proof {
            assert(s.subrange(p as int, q as int) =~= byte_items(data@));
            if full {
                assert(data@ =~= d.subrange(0, k + 1));
            }
        }
        if q < n && line[q] == 44u8 {
            proof {
                lemma_one(s, q as int);
                assert(s.subrange(p as int, q + 1) =~= s.subrange(p as int, q as int) + s.subrange(q as int, q + 1));
                if full {
                    if rest.len() == 1 {
                        assert(s.subrange(q as int, n as int)[0] == s[q as int]);
                    }
                    assert(rest.drop_first() =~= d.subrange(k + 1, d.len() as int));
                    lemma_split_at(s, q as int, seq![44u8], byte_items(rest.drop_first()) + t);
                }
            }
            i = q + 1;
        } else if q < n && line[q] == 93u8 {
            proof {
                lemma_one(s, q as int);
                assert(s.subrange(p as int, q + 1) =~= s.subrange(p as int, q as int) + s.subrange(q as int, q + 1));
                if full {
                    if rest.len() > 1 {
                        assert(s.subrange(q as int, n as int)[0] == s[q as int]);
                    }
                    assert(data@ =~= d);
                    assert(t =~= seq![93u8] + seq![125u8]);
                    lemma_split_at(s, q as int, seq![93u8], seq![125u8]);
                }
            }
            i = q + 1;
            break;
        } else {
            proof {
                if full {
                    assert(s.subrange(q as int, n as int)[0] == s[q as int]);
                }
            }
            return None;
        }
    }
    Some((data, i))
}

proof fn lemma_line_parts(r: RecordView)
    ensures
        line_of(r) == head_of(r.id, r.timestamp) + (byte_items(r.data) + seq![93u8]) + seq![125u8],
{
    assert(line_of(r) =~= head_of(r.id, r.timestamp) + (byte_items(r.data) + seq![93u8]) + seq![125u8]);
}

/// Reads a record from a line. Where `target` is a record whose line this
/// is, the record read is that one.
#[verifier::rlimit(40)]
fn decode_record(line: &[u8], Ghost(target): Ghost<Option<RecordView>>) -> (r: Option<LogEntry>)
    requires
        target matches Some(v) ==> line@ == line_of(v),
    ensures
        r matches Some(e) ==> line@ == line_of(e@),
        target matches Some(v) ==> (r matches Some(e) && e@ == v),
{
    let ghost s = line@;
    let n = line.len();
    let (id, timestamp, p) = match decode_head(line, Ghost(target)) {
        Some(x) => x,
        None => return None,
    };
    let ghost items_target = match target {
        Some(v) => Some(v.data),
        None => None,
    };
    let (data, q) = match decode_items(line, p, Ghost(items_target)) {
        Some(x) => x,
        None => return None,
    };
    if !(q < n && q + 1 == n && line[q] == 125u8) {
        proof {
            if target is Some {
                assert(s.subrange(q as int, n as int).len() == 1);
                assert(s.subrange(q as int, n as int)[0] == s[q as int]);
            }
        }
        return None;
    }
    let entry = LogEntry { id, timestamp, data };
    proof {
        lemma_one(s, q as int);
        lemma_extend(s, p as int, q as int, head_of(id, timestamp), byte_items(entry.data@) + seq![93u8]);
        lemma_extend(s, q as int, n as int, head_of(id, timestamp) + (byte_items(entry.data@) + seq![93u8]), seq![125u8]);
        assert(s.subrange(0, n as int) =~= s);
        lemma_line_parts(entry@);
        if target is Some {
            assert(entry@ =~= target->0);
        }
    }
    Some(entry)
}

/// Reads the record that a line stores, if it stores one. Only the exact
/// form that `encode_line` writes is a record line: keys in the order id,
/// timestamp, data, no spaces, no other keys, numbers without leading zeros.
/// Any other text, even JSON of the same meaning, holds no record.
pub fn decode_line(line: &[u8]) -> (r: Option<LogEntry>)
    ensures
        match r {
            Some(e) => parse_line(line@) == Some(e@),
            None => parse_line(line@) is None,
        },
{
    let ghost target = parse_line(line@);
    proof {
        if is_record_line(line@) {
            let c = choose|c: RecordView| line_of(c) == line@;
            lemma_parse_line_of(c);
        }
    }
    let r = decode_record(line, Ghost(target));
    proof {
        if r is Some {
            lemma_parse_line_of(r->0@);
        }
    }
    r
}

} // verus!
