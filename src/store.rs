//! The log's bytes: lines, the records they hold, and what appending,
//! removing and reopening do to them.
use vstd::prelude::*;
use vstd::slice::slice_subrange;
use crate::error::WalError;
use crate::record::{decode_line, encode_line, line_of, parse_line, LogEntry, RecordView};

verus! {

/// The line delimiter.
pub const NEWLINE: u8 = 10;

/// What a scan does with a line that holds no record.
#[derive(Debug, Clone, Copy, PartialEq, Eq, Structural)]
pub enum ReadMode {
    /// The scan fails.
    Strict,
    /// The line is skipped.
    Lenient,
}

/// The bytes after the last delimiter.
pub open spec fn pending(s: Seq<u8>) -> Seq<u8>
    decreases s.len(),
{
    if s.len() == 0 {
        Seq::empty()
    } else if s.last() == NEWLINE {
        Seq::empty()
    } else {
        pending(s.drop_last()).push(s.last())
    }
}

/// The non-empty lines that a delimiter has ended.
pub open spec fn done(s: Seq<u8>) -> Seq<Seq<u8>>
    decreases s.len(),
{
    if s.len() == 0 {
        Seq::empty()
    } else if s.last() == NEWLINE && pending(s.drop_last()).len() > 0 {
        done(s.drop_last()).push(pending(s.drop_last()))
    } else {
        done(s.drop_last())
    }
}

/// The non-empty lines of a log, in order; the last one may lack its delimiter.
pub open spec fn lines(s: Seq<u8>) -> Seq<Seq<u8>> {
    if pending(s).len() > 0 {
        done(s).push(pending(s))
    } else {
        done(s)
    }
}

/// The records that a sequence of lines holds, in order, skipping the lines
/// that hold none.
pub open spec fn records_of(ls: Seq<Seq<u8>>) -> Seq<RecordView>
    decreases ls.len(),
{
    if ls.len() == 0 {
        Seq::empty()
    } else {
        match parse_line(ls.last()) {
            Some(r) => records_of(ls.drop_last()).push(r),
            None => records_of(ls.drop_last()),
        }
    }
}

/// Whether every line holds a record.
pub open spec fn all_records(ls: Seq<Seq<u8>>) -> bool {
    forall|i: int| 0 <= i < ls.len() ==> (#[trigger] parse_line(ls[i])) is Some
}

/// What a scan of a log gives in a mode: its records, or nothing where a
/// strict scan meets a line that holds no record.
pub open spec fn read_spec(content: Seq<u8>, mode: ReadMode) -> Option<Seq<RecordView>> {
    if mode == ReadMode::Strict && !all_records(lines(content)) {
        None
    } else {
        Some(records_of(lines(content)))
    }
}

pub open spec fn views(v: Seq<LogEntry>) -> Seq<RecordView> {
    v.map_values(|e: LogEntry| e@)
}

/// Handles the line `content[start..end]` during a scan.
fn scan_line(content: &[u8], start: usize, end: usize, mode: ReadMode, out: &mut Vec<LogEntry>) -> (ok: bool)
    requires
        start < end <= content@.len(),
    ensures
        ({
            let l = content@.subrange(start as int, end as int);
            match parse_line(l) {
                Some(r) => ok && views(final(out)@) == views(old(out)@).push(r),
                None => ok == (mode == ReadMode::Lenient) && final(out)@ == old(out)@,
            }
        }),
{
    let line = slice_subrange(content, start, end);
    match decode_line(line) {
        Some(e) => {
            out.push(e);
            proof {
                assert(views(final(out)@) =~= views(old(out)@).push(e@));
            }
            true
        },
        None => mode == ReadMode::Lenient,
    }
}

/// Reads the records of a log. A line that holds no record is skipped in
/// lenient mode and fails a strict scan with `InvalidEntry`.
pub fn read_records(content: &[u8], mode: ReadMode) -> (r: Result<Vec<LogEntry>, WalError>)
    ensures
        match r {
            Ok(v) => read_spec(content@, mode) == Some(views(v@)),
            Err(e) => read_spec(content@, mode) is None && e is InvalidEntry,
        },
{
    let ghost s = content@;
    let n = content.len();
    let mut out: Vec<LogEntry> = Vec::new();
    let mut start: usize = 0;
    let mut i: usize = 0;
    proof {
        assert(s.subrange(0, 0) =~= Seq::<u8>::empty());
        assert(views(out@) =~= Seq::<RecordView>::empty());
    }
    while i < n
        invariant
            n == s.len(),
            s == content@,
            start <= i <= n,
            pending(s.subrange(0, i as int)) == s.subrange(start as int, i as int),
            views(out@) == records_of(done(s.subrange(0, i as int))),
            mode == ReadMode::Strict ==> all_records(done(s.subrange(0, i as int))),
        decreases n - i,
    {
        let ghost pre = s.subrange(0, i as int);
        let ghost post = s.subrange(0, i + 1);
        proof {
            assert(post.drop_last() =~= pre);
        }
        if content[i] == NEWLINE {
            if start < i {
                let ok = scan_line(content, start, i, mode, &mut out);
                if !ok {
                    proof {
                        lemma_strict_fails(s, i as int + 1);
                    }
                    return Err(WalError::InvalidEntry);
                }
                proof {
                    let ls = done(post);
                    assert(ls.drop_last() =~= done(pre));
                    if mode == ReadMode::Strict {
                        assert forall|k: int| 0 <= k < ls.len() implies (#[trigger] parse_line(ls[k])) is Some by {
                            if k < ls.len() - 1 {
                                assert(ls[k] == done(pre)[k]);
                            }
                        }
                    }
                }
            }
            start = i + 1;
            proof {
                assert(s.subrange(start as int, i + 1) =~= Seq::<u8>::empty());
            }
        } else {
            proof {
                assert(s.subrange(start as int, i + 1) =~= s.subrange(start as int, i as int).push(s[i as int]));
            }
        }
        i = i + 1;
    }
    proof {
        assert(s.subrange(0, n as int) =~= s);
    }
    if start < n {
        let ok = scan_line(content, start, n, mode, &mut out);
        if !ok {
            proof {
                assert(lines(s)[lines(s).len() - 1] == pending(s));
            }
            return Err(WalError::InvalidEntry);
        }
        proof {
            let ls = lines(s);
            assert(ls.drop_last() =~= done(s));
            if mode == ReadMode::Strict {
                assert forall|k: int| 0 <= k < ls.len() implies (#[trigger] parse_line(ls[k])) is Some by {
                    if k < ls.len() - 1 {
                        assert(ls[k] == done(s)[k]);
                    }
                }
            }
        }
    }
    Ok(out)
}

/// A strict scan fails once a line ended by a delimiter holds no record.
proof fn lemma_strict_fails(s: Seq<u8>, i: int)
    requires
        0 < i <= s.len(),
        done(s.subrange(0, i)).len() > 0,
        parse_line(done(s.subrange(0, i)).last()) is None,
    ensures
        read_spec(s, ReadMode::Strict) is None,
{
    lemma_done_prefix(s, i, s.len() as int);
    assert(s.subrange(0, s.len() as int) =~= s);
    let k = done(s.subrange(0, i)).len() - 1;
    assert(lines(s)[k] == done(s.subrange(0, i))[k]);
    assert(parse_line(lines(s)[k]) is None);
}

/// The lines ended by a prefix stay among the lines of the whole.
proof fn lemma_done_prefix(s: Seq<u8>, i: int, j: int)
    requires
        0 <= i <= j <= s.len(),
    ensures
        done(s.subrange(0, i)).len() <= done(s.subrange(0, j)).len() <= lines(s.subrange(0, j)).len(),
        forall|k: int| 0 <= k < done(s.subrange(0, i)).len() ==> #[trigger] lines(s.subrange(0, j))[k]
            == done(s.subrange(0, i))[k],
    decreases j - i,
{
    if i < j {
        lemma_done_prefix(s, i, j - 1);
        let a = s.subrange(0, j - 1);
        let b = s.subrange(0, j);
        assert(b.drop_last() =~= a);
        let di = done(s.subrange(0, i));
        assert forall|k: int| 0 <= k < di.len() implies #[trigger] lines(b)[k] == di[k] by {
            assert(lines(a)[k] == di[k]);
            assert(k < done(a).len());
            assert(done(a)[k] == di[k]);
            assert(done(b)[k] == done(a)[k]);
        }
    } else {
        let di = done(s.subrange(0, i));
        assert forall|k: int| 0 <= k < di.len() implies #[trigger] lines(s.subrange(0, j))[k] == di[k] by {
        }
    }
}

/// The first id above every id of `rs`: one more than the largest, or 0.
pub open spec fn id_bound(rs: Seq<RecordView>) -> nat
    decreases rs.len(),
{
    if rs.len() == 0 {
        0
    } else {
        let b = id_bound(rs.drop_last());
        if rs.last().id + 1 > b {
            (rs.last().id + 1) as nat
        } else {
            b
        }
    }
}

/// The records of `rs` whose id is not `id`, in order.
pub open spec fn without_id(rs: Seq<RecordView>, id: u64) -> Seq<RecordView>
    decreases rs.len(),
{
    if rs.len() == 0 {
        Seq::empty()
    } else if rs.last().id == id {
        without_id(rs.drop_last(), id)
    } else {
        without_id(rs.drop_last(), id).push(rs.last())
    }
}

/// The log that holds exactly the records `rs`, one line each.
pub open spec fn frame(rs: Seq<RecordView>) -> Seq<u8>
    decreases rs.len(),
{
    if rs.len() == 0 {
        Seq::empty()
    } else {
        frame(rs.drop_last()) + line_of(rs.last()).push(NEWLINE)
    }
}

/// The id that a log opened in `mode` assigns next.
pub fn recover_next_id(content: &[u8], mode: ReadMode) -> (r: Result<u64, WalError>)
    ensures
        match r {
            Ok(n) => read_spec(content@, mode) matches Some(rs) && id_bound(rs) == n,
            Err(e) => e is InvalidEntry && (read_spec(content@, mode) is None || id_bound(
                read_spec(content@, mode)->0,
            ) > u64::MAX),
        },
{
    let entries = read_records(content, mode)?;
    let ghost rs = views(entries@);
    let mut bound: u64 = 0;
    let mut i: usize = 0;
    assert(rs.subrange(0, 0) =~= Seq::<RecordView>::empty());
    while i < entries.len()
        invariant
            i <= entries@.len(),
            rs == views(entries@),
            read_spec(content@, mode) == Some(rs),
            bound == id_bound(rs.subrange(0, i as int)),
        decreases entries@.len() - i,
    {
        assert(rs.subrange(0, i + 1).drop_last() =~= rs.subrange(0, i as int));
        let id = entries[i].id;
        if id == u64::MAX {
            proof {
                assert(rs[i as int].id == id);
                assert(rs.subrange(0, i + 1).last() == rs[i as int]);
                assert(id_bound(rs.subrange(0, i + 1)) > u64::MAX);
                lemma_bound_grows(rs, i as int + 1, rs.len() as int);
                assert(rs.subrange(0, rs.len() as int) =~= rs);
                assert(id_bound(rs) > u64::MAX);
                assert(read_spec(content@, mode) == Some(rs));
            }
            return Err(WalError::InvalidEntry);
        }
        if id + 1 > bound {
            bound = id + 1;
        }
        i = i + 1;
    }
    assert(rs.subrange(0, rs.len() as int) =~= rs);
    Ok(bound)
}

proof fn lemma_bound_grows(rs: Seq<RecordView>, i: int, j: int)
    requires
        0 <= i <= j <= rs.len(),
    ensures
        id_bound(rs.subrange(0, i)) <= id_bound(rs.subrange(0, j)),
    decreases j - i,
{
    if i < j {
        lemma_bound_grows(rs, i, j - 1);
        assert(rs.subrange(0, j).drop_last() =~= rs.subrange(0, j - 1));
    }
}

fn copy_entry(e: &LogEntry) -> (r: LogEntry)
    ensures
        r@ == e@,
{
    LogEntry { id: e.id, timestamp: e.timestamp, data: e.data.clone() }
}

/// Encodes records as a log: each one's line and its delimiter.
pub fn frame_records(entries: &Vec<LogEntry>) -> (r: Result<Vec<u8>, WalError>)
    ensures
        r matches Ok(v) && v@ == frame(views(entries@)),
{
    let ghost rs = views(entries@);
    let mut out: Vec<u8> = Vec::new();
    let mut i: usize = 0;
    assert(rs.subrange(0, 0) =~= Seq::<RecordView>::empty());
    while i < entries.len()
        invariant
            i <= entries@.len(),
            rs == views(entries@),
            out@ == frame(rs.subrange(0, i as int)),
        decreases entries@.len() - i,
    {
        let mut line = encode_line(&entries[i])?;
        line.push(NEWLINE);
        out.append(&mut line);
        proof {
            assert(rs.subrange(0, i + 1).drop_last() =~= rs.subrange(0, i as int));
        }
        i = i + 1;
    }
    assert(rs.subrange(0, rs.len() as int) =~= rs);
    Ok(out)
}

/// The log without the record whose id is `id`: the other records of a scan
/// in `mode`, encoded again in their order.
pub fn compact(content: &[u8], id: u64, mode: ReadMode) -> (r: Result<Vec<u8>, WalError>)
    ensures
        match r {
            Ok(v) => read_spec(content@, mode) matches Some(rs) && v@ == frame(without_id(rs, id)),
            Err(e) => read_spec(content@, mode) is None && e is InvalidEntry,
        },
{
    let entries = read_records(content, mode)?;
    let ghost rs = views(entries@);
    let mut kept: Vec<LogEntry> = Vec::new();
    let mut i: usize = 0;
    assert(rs.subrange(0, 0) =~= Seq::<RecordView>::empty());
    assert(views(kept@) =~= Seq::<RecordView>::empty());
    while i < entries.len()
        invariant
            i <= entries@.len(),
            rs == views(entries@),
            views(kept@) == without_id(rs.subrange(0, i as int), id),
        decreases entries@.len() - i,
    {
        assert(rs.subrange(0, i + 1).drop_last() =~= rs.subrange(0, i as int));
        let ghost old_kept = kept@;
        if entries[i].id != id {
            let e = copy_entry(&entries[i]);
            kept.push(e);
            proof {
                assert(views(kept@) =~= views(kept@.drop_last()).push(e@));
                assert(kept@.drop_last() =~= old_kept);
            }
        }
        i = i + 1;
    }
    assert(rs.subrange(0, rs.len() as int) =~= rs);
    frame_records(&kept)
}

/// The in-memory side of an open log: the id that the next append assigns,
/// and the mode of its scans. The log's bytes are kept by the caller.
#[derive(Debug, Clone, Copy)]
pub struct LogState {
    next_id: u64,
    mode: ReadMode,
}

impl LogState {
    pub closed spec fn next_id_spec(&self) -> u64 {
        self.next_id
    }

    pub closed spec fn mode_spec(&self) -> ReadMode {
        self.mode
    }

    /// Opens a log whose bytes are `content`: ids resume above every id that
    /// a scan in `mode` finds, or at 0.
    pub fn open(content: &[u8], mode: ReadMode) -> (r: Result<LogState, WalError>)
        ensures
            match r {
                Ok(st) => read_spec(content@, mode) matches Some(rs) && st.next_id_spec() == id_bound(rs)
                    && st.mode_spec() == mode,
                Err(e) => e is InvalidEntry && (read_spec(content@, mode) is None || id_bound(
                    read_spec(content@, mode)->0,
                ) > u64::MAX),
            },
    {
        let next_id = recover_next_id(content, mode)?;
        Ok(LogState { next_id, mode })
    }

    /// The id that the next append assigns.
    pub fn next_id(&self) -> (r: u64)
        ensures
            r == self.next_id_spec(),
    {
        self.next_id
    }

    /// The mode of this log's scans.
    pub fn mode(&self) -> (r: ReadMode)
        ensures
            r == self.mode_spec(),
    {
        self.mode
    }

    /// The record that appending `data` at `timestamp` creates, and the bytes
    /// to add at the end of the log for it. Fails with `InvalidEntry` where
    /// no id is left.
    pub fn prepare_append(&self, data: Vec<u8>, timestamp: u64) -> (r: Result<(LogEntry, Vec<u8>), WalError>)
        ensures
            match r {
                Ok((e, bytes)) => self.next_id_spec() < u64::MAX && e@ == (RecordView {
                    id: self.next_id_spec(),
                    timestamp,
                    data: data@,
                }) && bytes@ == line_of(e@).push(NEWLINE),
                Err(e) => self.next_id_spec() == u64::MAX && e is InvalidEntry,
            },
    {
        if self.next_id == u64::MAX {
            return Err(WalError::InvalidEntry);
        }
        let entry = LogEntry { id: self.next_id, timestamp, data };
        let mut bytes = encode_line(&entry)?;
        bytes.push(NEWLINE);
        Ok((entry, bytes))
    }

    /// Records that the bytes of an append are durably stored: the next id
    /// goes up by one.
    pub fn commit_append(&mut self)
        requires
            old(self).next_id_spec() < u64::MAX,
        ensures
            final(self).next_id_spec() == old(self).next_id_spec() + 1,
            final(self).mode_spec() == old(self).mode_spec(),
    {
        self.next_id = self.next_id + 1;
    }

    /// The records of the log whose bytes are `content`, scanned in this
    /// log's mode.
    pub fn read_all(&self, content: &[u8]) -> (r: Result<Vec<LogEntry>, WalError>)
        ensures
            match r {
                Ok(v) => read_spec(content@, self.mode_spec()) == Some(views(v@)),
                Err(e) => read_spec(content@, self.mode_spec()) is None && e is InvalidEntry,
            },
    {
        read_records(content, self.mode)
    }

    /// The bytes of the log whose bytes are `content`, without the record
    /// whose id is `id`; the next id stays as it is.
    pub fn remove(&self, content: &[u8], id: u64) -> (r: Result<Vec<u8>, WalError>)
        ensures
            match r {
                Ok(v) => read_spec(content@, self.mode_spec()) matches Some(rs) && v@ == frame(
                    without_id(rs, id),
                ),
                Err(e) => read_spec(content@, self.mode_spec()) is None && e is InvalidEntry,
            },
    {
        compact(content, id, self.mode)
    }
}

} // verus!
