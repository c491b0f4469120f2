//! What holds across the operations of a log.
use vstd::prelude::*;
use crate::digits::{all_digits, decimal, lemma_decimal};
use crate::record::{
    byte_items, key_data, key_id, key_timestamp, lemma_parse_line_of, line_of, parse_line, RecordView,
};
use crate::store::{
    all_records, done, frame, id_bound, lines, pending, read_spec, records_of, without_id, ReadMode,
    NEWLINE,
};

verus! {

pub open spec fn no_newline(s: Seq<u8>) -> bool {
    forall|i: int| 0 <= i < s.len() ==> #[trigger] s[i] != NEWLINE
}

/// Whether a log ends at a line boundary: it is empty or its last byte is a
/// delimiter.
pub open spec fn framed(s: Seq<u8>) -> bool {
    s.len() == 0 || s.last() == NEWLINE
}

proof fn lemma_concat_no_newline(a: Seq<u8>, b: Seq<u8>)
    requires
        no_newline(a),
        no_newline(b),
    ensures
        no_newline(a + b),
{
    assert forall|i: int| 0 <= i < (a + b).len() implies #[trigger] (a + b)[i] != NEWLINE by {
        if i >= a.len() {
            assert((a + b)[i] == b[i - a.len()]);
        }
    }
}

proof fn lemma_digits_no_newline(s: Seq<u8>)
    requires
        all_digits(s),
    ensures
        no_newline(s),
{
    assert forall|i: int| 0 <= i < s.len() implies #[trigger] s[i] != NEWLINE by {
        assert(crate::digits::is_digit(s[i]));
    }
}

proof fn lemma_items_no_newline(d: Seq<u8>)
    ensures
        no_newline(byte_items(d)),
    decreases d.len(),
{
    if d.len() > 0 {
        lemma_decimal(d[0] as nat);
        lemma_digits_no_newline(decimal(d[0] as nat));
        if d.len() > 1 {
            lemma_items_no_newline(d.drop_first());
            lemma_concat_no_newline(decimal(d[0] as nat), seq![44u8]);
            lemma_concat_no_newline(decimal(d[0] as nat) + seq![44u8], byte_items(d.drop_first()));
        }
    }
}

/// A record's line is not empty and holds no delimiter.
pub proof fn lemma_line_no_newline(r: RecordView)
    ensures
        no_newline(line_of(r)),
        line_of(r).len() > 0,
{
    lemma_decimal(r.id as nat);
    lemma_decimal(r.timestamp as nat);
    lemma_digits_no_newline(decimal(r.id as nat));
    lemma_digits_no_newline(decimal(r.timestamp as nat));
    lemma_items_no_newline(r.data);
    let t = seq![93u8, 125u8];
    assert(no_newline(t));
    assert(no_newline(seq![91u8]));
    assert(no_newline(key_id()));
    assert(no_newline(key_timestamp()));
    assert(no_newline(key_data()));
    lemma_concat_no_newline(byte_items(r.data), t);
    let a = byte_items(r.data) + t;
    lemma_concat_no_newline(seq![91u8], a);
    let b = seq![91u8] + a;
    lemma_concat_no_newline(key_data(), b);
    let c = key_data() + b;
    lemma_concat_no_newline(decimal(r.timestamp as nat), c);
    let d = decimal(r.timestamp as nat) + c;
    lemma_concat_no_newline(key_timestamp(), d);
    let e = key_timestamp() + d;
    lemma_concat_no_newline(decimal(r.id as nat), e);
    lemma_concat_no_newline(key_id(), decimal(r.id as nat) + e);
}

proof fn lemma_framed_pending(c: Seq<u8>)
    requires
        framed(c),
    ensures
        pending(c).len() == 0,
{
}

proof fn lemma_extend_line(c: Seq<u8>, l: Seq<u8>, j: int)
    requires
        pending(c).len() == 0,
        no_newline(l),
        0 <= j <= l.len(),
    ensures
        pending(c + l.subrange(0, j)) == l.subrange(0, j),
        done(c + l.subrange(0, j)) == done(c),
    decreases j,
{
    if j == 0 {
        assert(c + l.subrange(0, 0) =~= c);
        assert(l.subrange(0, 0) =~= pending(c));
    } else {
        lemma_extend_line(c, l, j - 1);
        let s = c + l.subrange(0, j);
        assert(s.drop_last() =~= c + l.subrange(0, j - 1));
        assert(s.last() == l[j - 1]);
        assert(l.subrange(0, j) =~= l.subrange(0, j - 1).push(l[j - 1]));
    }
}

/// Adding a non-empty line and its delimiter to a log that ends at a line
/// boundary adds that line to its lines.
pub proof fn lemma_lines_append(c: Seq<u8>, l: Seq<u8>)
    requires
        framed(c),
        l.len() > 0,
        no_newline(l),
    ensures
        lines(c + l.push(NEWLINE)) == lines(c).push(l),
        framed(c + l.push(NEWLINE)),
{
    lemma_framed_pending(c);
    lemma_extend_line(c, l, l.len() as int);
    assert(l.subrange(0, l.len() as int) =~= l);
    let s = c + l.push(NEWLINE);
    assert(s.drop_last() =~= c + l);
    assert(pending(s) =~= Seq::<u8>::empty());
}

/// Appending a record's line to a log that ends at a line boundary: a scan
/// then gives what it gave before, followed by that record.
pub proof fn lemma_read_after_append(c: Seq<u8>, r: RecordView, mode: ReadMode)
    requires
        framed(c),
    ensures
        read_spec(c + line_of(r).push(NEWLINE), mode) == match read_spec(c, mode) {
            Some(rs) => Some(rs.push(r)),
            None => None::<Seq<RecordView>>,
        },
        framed(c + line_of(r).push(NEWLINE)),
{
    lemma_line_no_newline(r);
    lemma_lines_append(c, line_of(r));
    lemma_parse_line_of(r);
    let ls = lines(c);
    let ls2 = ls.push(line_of(r));
    assert(ls2.drop_last() =~= ls);
    assert(records_of(ls2) == records_of(ls).push(r));
    if all_records(ls) {
        assert forall|i: int| 0 <= i < ls2.len() implies (#[trigger] parse_line(ls2[i])) is Some by {
            if i < ls.len() {
                assert(ls2[i] == ls[i]);
            }
        }
    } else {
        let i = choose|i: int| 0 <= i < ls.len() && !((#[trigger] parse_line(ls[i])) is Some);
        assert(ls2[i] == ls[i]);
    }
}

/// A log made of records' lines reads back as exactly those records, in
/// either mode.
pub proof fn lemma_read_frame(rs: Seq<RecordView>, mode: ReadMode)
    ensures
        read_spec(frame(rs), mode) == Some(rs),
        framed(frame(rs)),
    decreases rs.len(),
{
    if rs.len() == 0 {
        assert(lines(Seq::<u8>::empty()) =~= Seq::<Seq<u8>>::empty());
        assert(all_records(Seq::<Seq<u8>>::empty()));
    } else {
        lemma_read_frame(rs.drop_last(), mode);
        lemma_read_after_append(frame(rs.drop_last()), rs.last(), mode);
        assert(rs.drop_last().push(rs.last()) =~= rs);
    }
}

/// A cleared log reads as empty; a record appended to it then reads back
/// alone.
pub proof fn lemma_clear_then_append(r: RecordView, mode: ReadMode)
    ensures
        read_spec(Seq::<u8>::empty(), mode) == Some(Seq::<RecordView>::empty()),
        read_spec(line_of(r).push(NEWLINE), mode) == Some(seq![r]),
{
    lemma_read_frame(Seq::empty(), mode);
    lemma_read_after_append(Seq::empty(), r, mode);
    assert(Seq::<u8>::empty() + line_of(r).push(NEWLINE) =~= line_of(r).push(NEWLINE));
    assert(Seq::<RecordView>::empty().push(r) =~= seq![r]);
}

/// Whether no two records share an id.
pub open spec fn unique_ids(rs: Seq<RecordView>) -> bool {
    forall|i: int, j: int| 0 <= i < j < rs.len() ==> #[trigger] rs[i].id != #[trigger] rs[j].id
}

/// Whether some record has the id.
pub open spec fn has_id(rs: Seq<RecordView>, id: u64) -> bool {
    exists|i: int| 0 <= i < rs.len() && #[trigger] rs[i].id == id
}

proof fn lemma_without_absent(rs: Seq<RecordView>, id: u64)
    requires
        !has_id(rs, id),
    ensures
        without_id(rs, id) == rs,
    decreases rs.len(),
{
    if rs.len() > 0 {
        let init = rs.drop_last();
        assert(!has_id(init, id)) by {
            if has_id(init, id) {
                let i = choose|i: int| 0 <= i < init.len() && #[trigger] init[i].id == id;
                assert(rs[i] == init[i]);
            }
        }
        lemma_without_absent(init, id);
        assert(rs[rs.len() - 1].id != id);
        assert(init.push(rs.last()) =~= rs);
    }
}

proof fn lemma_without_present(rs: Seq<RecordView>, id: u64)
    requires
        unique_ids(rs),
        has_id(rs, id),
    ensures
        without_id(rs, id).len() + 1 == rs.len(),
    decreases rs.len(),
{
    let init = rs.drop_last();
    assert(unique_ids(init)) by {
        assert forall|i: int, j: int| 0 <= i < j < init.len() implies #[trigger] init[i].id
            != #[trigger] init[j].id by {
            assert(init[i] == rs[i] && init[j] == rs[j]);
        }
    }
    if rs.last().id == id {
        assert(!has_id(init, id)) by {
            if has_id(init, id) {
                let i = choose|i: int| 0 <= i < init.len() && #[trigger] init[i].id == id;
                assert(rs[i] == init[i]);
                assert(rs[i].id != rs[rs.len() - 1].id);
            }
        }
        lemma_without_absent(init, id);
    } else {
        let i = choose|i: int| 0 <= i < rs.len() && #[trigger] rs[i].id == id;
        assert(i < rs.len() - 1);
        assert(init[i] == rs[i]);
        assert(has_id(init, id));
        lemma_without_present(init, id);
    }
}

/// Removing an id from a log that scans as `rs`: the new log scans as `rs`
/// without the records of that id, the others keeping their order. Where the
/// ids are unique and one is `id`, exactly one record goes; where none is,
/// the records stay as they were.
pub proof fn lemma_remove(rs: Seq<RecordView>, id: u64, mode: ReadMode)
    ensures
        read_spec(frame(without_id(rs, id)), mode) == Some(without_id(rs, id)),
        unique_ids(rs) && has_id(rs, id) ==> without_id(rs, id).len() + 1 == rs.len(),
        !has_id(rs, id) ==> without_id(rs, id) == rs,
        forall|i: int| 0 <= i < without_id(rs, id).len() ==> (#[trigger] without_id(rs, id)[i]).id != id,
{
    lemma_read_frame(without_id(rs, id), mode);
    if unique_ids(rs) && has_id(rs, id) {
        lemma_without_present(rs, id);
    }
    if !has_id(rs, id) {
        lemma_without_absent(rs, id);
    }
    lemma_without_drops(rs, id);
}

proof fn lemma_without_drops(rs: Seq<RecordView>, id: u64)
    ensures
        forall|i: int| 0 <= i < without_id(rs, id).len() ==> (#[trigger] without_id(rs, id)[i]).id != id,
    decreases rs.len(),
{
    if rs.len() > 0 {
        let init = rs.drop_last();
        lemma_without_drops(init, id);
        let w = without_id(rs, id);
        let wi = without_id(init, id);
        assert forall|i: int| 0 <= i < w.len() implies (#[trigger] w[i]).id != id by {
            if rs.last().id != id && i < wi.len() {
                assert(w[i] == wi[i]);
            }
        }
    }
}

/// Ids handed out by successive appends: `nexts[i]` is the next id before
/// the i-th append, which returns the id `ids[i]` and raises the next id by
/// one (what `prepare_append` and `commit_append` state). From a fresh store,
/// whose next id is 0, the ids returned are 0, 1, ..., N-1 in call order.
pub proof fn lemma_ids_in_call_order(nexts: Seq<u64>, ids: Seq<u64>)
    requires
        nexts.len() == ids.len() + 1,
        nexts[0] == 0,
        forall|i: int| 0 <= i < ids.len() ==> #[trigger] ids[i] == nexts[i],
        forall|i: int| 0 <= i < ids.len() ==> #[trigger] nexts[i + 1] == nexts[i] + 1,
    ensures
        forall|i: int| 0 <= i < ids.len() ==> #[trigger] ids[i] == i,
        nexts.last() == ids.len(),
    decreases ids.len(),
{
    if ids.len() > 0 {
        let k = ids.len() - 1;
        let ns = nexts.drop_last();
        let is = ids.drop_last();
        assert forall|i: int| 0 <= i < is.len() implies #[trigger] is[i] == ns[i] by {
            assert(ids[i] == nexts[i]);
        }
        assert forall|i: int| 0 <= i < is.len() implies #[trigger] ns[i + 1] == ns[i] + 1 by {
            assert(nexts[i + 1] == nexts[i] + 1);
        }
        lemma_ids_in_call_order(ns, is);
        assert(ns.last() == nexts[k]);
        assert(ids[k] == nexts[k]);
        assert(nexts[k + 1] == nexts[k] + 1);
        assert forall|i: int| 0 <= i < ids.len() implies #[trigger] ids[i] == i by {
            if i < k {
                assert(is[i] == ids[i]);
            }
        }
    }
}

/// The bytes that appending `data` at `timestamp` adds when the next id is
/// `next`.
pub open spec fn append_bytes(next: nat, data: Seq<u8>, timestamp: u64) -> Seq<u8> {
    line_of(RecordView { id: next as u64, timestamp, data }).push(NEWLINE)
}

/// The log that a fresh store holds after appending `payloads[i]` at
/// `stamps[i]`, one after the other.
pub open spec fn log_after(payloads: Seq<Seq<u8>>, stamps: Seq<u64>) -> Seq<u8>
    decreases payloads.len(),
{
    if payloads.len() == 0 {
        Seq::empty()
    } else {
        log_after(payloads.drop_last(), stamps.drop_last()) + append_bytes(
            (payloads.len() - 1) as nat,
            payloads.last(),
            stamps[payloads.len() - 1],
        )
    }
}

/// Appends to a fresh store get the ids 0, 1, ... in call order: the log
/// reads back, in either mode, as the records with those ids, payloads and
/// timestamps, in that order.
pub proof fn lemma_appends_in_order(payloads: Seq<Seq<u8>>, stamps: Seq<u64>, mode: ReadMode)
    requires
        payloads.len() == stamps.len(),
        payloads.len() <= u64::MAX,
    ensures
        read_spec(log_after(payloads, stamps), mode) matches Some(rs) && rs.len() == payloads.len()
            && forall|i: int| 0 <= i < rs.len() ==> #[trigger] rs[i] == (RecordView {
                id: i as u64,
                timestamp: stamps[i],
                data: payloads[i],
            }),
        framed(log_after(payloads, stamps)),
    decreases payloads.len(),
{
    if payloads.len() == 0 {
        lemma_read_frame(Seq::empty(), mode);
    } else {
        let n = payloads.len() - 1;
        lemma_appends_in_order(payloads.drop_last(), stamps.drop_last(), mode);
        let r = RecordView { id: n as u64, timestamp: stamps[n], data: payloads.last() };
        lemma_read_after_append(log_after(payloads.drop_last(), stamps.drop_last()), r, mode);
        let rs = read_spec(log_after(payloads, stamps), mode)->0;
        assert forall|i: int| 0 <= i < rs.len() implies #[trigger] rs[i] == (RecordView {
            id: i as u64,
            timestamp: stamps[i],
            data: payloads[i],
        }) by {
            if i < n {
                assert(stamps.drop_last()[i] == stamps[i]);
                assert(payloads.drop_last()[i] == payloads[i]);
            }
        }
    }
}

proof fn lemma_bound_of_counting(rs: Seq<RecordView>)
    requires
        forall|i: int| 0 <= i < rs.len() ==> (#[trigger] rs[i]).id == i,
    ensures
        id_bound(rs) == rs.len(),
    decreases rs.len(),
{
    if rs.len() > 0 {
        let init = rs.drop_last();
        assert forall|i: int| 0 <= i < init.len() implies (#[trigger] init[i]).id == i by {
            assert(init[i] == rs[i]);
        }
        lemma_bound_of_counting(init);
        assert(rs[rs.len() - 1].id == rs.len() - 1);
    }
}

/// Reopening a store after appending ids 0 to k-1 resumes at k: the bound
/// that recovery computes is the number of appends.
pub proof fn lemma_reopen_resumes(payloads: Seq<Seq<u8>>, stamps: Seq<u64>, mode: ReadMode)
    requires
        payloads.len() == stamps.len(),
        payloads.len() <= u64::MAX,
    ensures
        read_spec(log_after(payloads, stamps), mode) matches Some(rs) && id_bound(rs)
            == payloads.len(),
{
    lemma_appends_in_order(payloads, stamps, mode);
    let rs = read_spec(log_after(payloads, stamps), mode)->0;
    assert forall|i: int| 0 <= i < rs.len() implies (#[trigger] rs[i]).id == i by {
        assert(rs[i].id == i as u64);
    }
    lemma_bound_of_counting(rs);
}

} // verus!
