//! The compaction engine: a size-bounded, deduplicated append log keyed
//! by trading period.
//!
//! Entries carry a composite `"{post_ts}-{period}"` key; the period is
//! the part after the first separator.  A push runs as one indivisible
//! transaction: parse the new key, evict the structurally oldest entry
//! when at capacity, scan the most recent entries for the same period,
//! suppress duplicates left behind by earlier partial failures, and
//! insert the new entry only when it is more complete than everything
//! the window holds for that period.  The whole transition is stated by
//! [`step_spec`] and the push is proved equal to it.

use vstd::prelude::*;

verus! {

use vstd::string::StrSliceExecFns;
use crate::MktArchiveMsg;

/// How an inserted entry was tagged: the first entry for its period, or
/// a replacement of earlier ones.
#[derive(Debug, Clone, Copy, PartialEq, Eq, Structural)]
pub enum Operation {
    Insert,
    Update,
}

/// What a push did: the new entry was written, matched the best revision
/// exactly, or was less complete and dropped.
#[derive(Debug, Clone, Copy, PartialEq, Eq, Structural)]
pub enum PushOutcome {
    Updated,
    Equal,
    Skipped,
}

/// Why a push was refused; nothing is mutated on this path.
#[derive(Debug, Clone, Copy, PartialEq, Eq, Structural)]
pub enum PushError {
    /// The new entry's key has no separator, so no period can be parsed.
    FormatError,
}

/// One record of the archive log.
#[derive(Debug)]
pub struct ArchiveEntry {
    pub seq_id: u64,
    pub key: String,
    pub info_count: u64,
    pub payload: Vec<u8>,
    pub operation: Operation,
    pub replaced_count: u64,
}

/// The mathematical value of a log entry.
pub struct EntryModel {
    pub seq_id: u64,
    pub key: Seq<char>,
    pub info_count: u64,
    pub payload: Seq<u8>,
    pub operation: Operation,
    pub replaced_count: u64,
}

impl DeepView for ArchiveEntry {
    type V = EntryModel;

    open spec fn deep_view(&self) -> EntryModel {
        EntryModel {
            seq_id: self.seq_id,
            key: self.key@,
            info_count: self.info_count,
            payload: self.payload@,
            operation: self.operation,
            replaced_count: self.replaced_count,
        }
    }
}

/// The period of a key: everything after the first `'-'`, or nothing
/// when the key has no separator.
pub open spec fn parse_period_spec(key: Seq<char>) -> Option<Seq<char>>
    decreases key.len(),
{
    if key.len() == 0 {
        None
    } else if key[0] == '-' {
        Some(key.subrange(1, key.len() as int))
    } else {
        parse_period_spec(key.drop_first())
    }
}

proof fn lemma_parse_at(key: Seq<char>, i: int)
    requires
        0 <= i < key.len(),
        key[i] == '-',
        forall|j: int| 0 <= j < i ==> key[j] != '-',
    ensures
        parse_period_spec(key) == Some(key.subrange(i + 1, key.len() as int)),
    decreases i,
{
    if i == 0 {
    } else {
        lemma_parse_at(key.drop_first(), i - 1);
        assert(key.drop_first().subrange(i, key.len() - 1) =~= key.subrange(
            i + 1,
            key.len() as int,
        ));
    }
}

proof fn lemma_parse_none(key: Seq<char>)
    requires
        forall|j: int| 0 <= j < key.len() ==> key[j] != '-',
    ensures
        parse_period_spec(key) is None,
    decreases key.len(),
{
    if key.len() > 0 {
        lemma_parse_none(key.drop_first());
    }
}

/// Parses the period out of a composite key: the text after the first
/// separator.  Fails exactly when the key has no separator.
pub fn parse_period(key: &str) -> (r: Option<String>)
    ensures
        r matches Some(s) ==> parse_period_spec(key@) == Some(s@),
        r is None ==> parse_period_spec(key@) is None,
{
    let n = key.unicode_len();
    let mut i: usize = 0;
    while i < n
        invariant
            n == key@.len(),
            i <= n,
            forall|j: int| 0 <= j < i ==> key@[j] != '-',
        decreases n - i,
    {
        if key.get_char(i) == '-' {
            let suffix = key.substring_char(i + 1, n).to_owned();
            proof {
                lemma_parse_at(key@, i as int);
            }
            return Some(suffix);
        }
        i += 1;
    }
    proof {
        lemma_parse_none(key@);
    }
    None
}

/// The entry belongs to period `p`.
pub open spec fn same_period(e: EntryModel, p: Seq<char>) -> bool {
    parse_period_spec(e.key) == Some(p)
}

/// The log after the retention step: at capacity, the structurally
/// oldest entry goes, unconditionally.
pub open spec fn retained(pre: Seq<EntryModel>, max: nat) -> Seq<EntryModel> {
    if pre.len() >= max && pre.len() > 0 {
        pre.drop_first()
    } else {
        pre
    }
}

/// Where the scan window of width `w` begins.
pub open spec fn window_start(len: nat, w: nat) -> nat {
    if len <= w {
        0
    } else {
        (len - w) as nat
    }
}

/// The largest completeness metric among window entries of period `p`,
/// or zero when the window holds none.
pub open spec fn max_count_in(win: Seq<EntryModel>, p: Seq<char>) -> u64
    decreases win.len(),
{
    if win.len() == 0 {
        0u64
    } else {
        let m = max_count_in(win.drop_last(), p);
        if same_period(win.last(), p) && win.last().info_count > m {
            win.last().info_count
        } else {
            m
        }
    }
}

/// How many window entries belong to period `p`.
pub open spec fn sp_count(win: Seq<EntryModel>, p: Seq<char>) -> nat
    decreases win.len(),
{
    if win.len() == 0 {
        0
    } else {
        sp_count(win.drop_last(), p) + if same_period(win.last(), p) {
            1nat
        } else {
            0nat
        }
    }
}

/// The window with every entry of period `p` removed.
pub open spec fn drop_sp(win: Seq<EntryModel>, p: Seq<char>) -> Seq<EntryModel>
    decreases win.len(),
{
    if win.len() == 0 {
        Seq::empty()
    } else {
        let rest = drop_sp(win.drop_last(), p);
        if same_period(win.last(), p) {
            rest
        } else {
            rest.push(win.last())
        }
    }
}

/// The index of the duplicate that survives self-healing: the first one
/// met in scan order (newest first) whose metric is the maximum.
pub open spec fn keep_idx(win: Seq<EntryModel>, p: Seq<char>, mx: u64) -> int
    decreases win.len(),
{
    if win.len() == 0 {
        -1
    } else if same_period(win.last(), p) && win.last().info_count == mx {
        win.len() - 1
    } else {
        keep_idx(win.drop_last(), p, mx)
    }
}

/// The window after duplicate suppression: entries of period `p` are
/// removed except the one at index `k`.
pub open spec fn dedup_keep(win: Seq<EntryModel>, p: Seq<char>, k: int) -> Seq<EntryModel>
    decreases win.len(),
{
    if win.len() == 0 {
        Seq::empty()
    } else {
        let rest = dedup_keep(win.drop_last(), p, k);
        if k == win.len() - 1 || !same_period(win.last(), p) {
            rest.push(win.last())
        } else {
            rest
        }
    }
}

/// The entry a push writes.
pub open spec fn new_entry(
    key: Seq<char>,
    cnt: u64,
    payload: Seq<u8>,
    id: u64,
    n_replaced: nat,
) -> EntryModel {
    EntryModel {
        seq_id: id,
        key: key,
        info_count: cnt,
        payload: payload,
        operation: if n_replaced > 0 {
            Operation::Update
        } else {
            Operation::Insert
        },
        replaced_count: n_replaced as u64,
    }
}

/// The whole compaction transaction as one function: what the log
/// becomes and what the push reports, or nothing when the key has no
/// separator (in which case the log must not change).
pub open spec fn step_spec(
    pre: Seq<EntryModel>,
    key: Seq<char>,
    cnt: u64,
    payload: Seq<u8>,
    new_id: u64,
    max: nat,
    w: nat,
) -> Option<(Seq<EntryModel>, PushOutcome)> {
    match parse_period_spec(key) {
        None => None,
        Some(p) => {
            let log1 = retained(pre, max);
            let ws = window_start(log1.len(), w) as int;
            let head = log1.take(ws);
            let win = log1.skip(ws);
            let mx = max_count_in(win, p);
            let n = sp_count(win, p);
            if cnt > mx {
                Some(
                    (
                        (head + drop_sp(win, p)).push(new_entry(key, cnt, payload, new_id, n)),
                        PushOutcome::Updated,
                    ),
                )
            } else {
                let log2 = if n <= 1 {
                    log1
                } else {
                    head + dedup_keep(win, p, keep_idx(win, p, mx))
                };
                Some(
                    (
                        log2,
                        if cnt == mx {
                            PushOutcome::Equal
                        } else {
                            PushOutcome::Skipped
                        },
                    ),
                )
            }
        },
    }
}

proof fn lemma_drop_sp_len(win: Seq<EntryModel>, p: Seq<char>)
    ensures
        drop_sp(win, p).len() <= win.len(),
    decreases win.len(),
{
    if win.len() > 0 {
        lemma_drop_sp_len(win.drop_last(), p);
    }
}

proof fn lemma_dedup_keep_len(win: Seq<EntryModel>, p: Seq<char>, k: int)
    ensures
        dedup_keep(win, p, k).len() <= win.len(),
    decreases win.len(),
{
    if win.len() > 0 {
        lemma_dedup_keep_len(win.drop_last(), p, k);
    }
}

/// The archive log with its retention bound and scan window.  It plays
/// the part of the store's named log: an append-only ordered collection
/// whose entries carry increasing sequence ids, scanned newest-first
/// with a count limit.
pub struct LogStore {
    entries: Vec<ArchiveEntry>,
    next_seq: u64,
    max_stream_size: usize,
    scan_window: usize,
}

impl LogStore {
    /// The entries, oldest first.
    pub closed spec fn view(&self) -> Seq<EntryModel> {
        self.entries.deep_view()
    }

    pub closed spec fn spec_max_size(&self) -> usize {
        self.max_stream_size
    }

    pub closed spec fn spec_window(&self) -> usize {
        self.scan_window
    }

    pub closed spec fn spec_next_seq(&self) -> u64 {
        self.next_seq
    }

    /// The log never outgrows its bound, and both bounds are positive.
    pub open spec fn wf(&self) -> bool {
        &&& self.spec_max_size() >= 1
        &&& self.spec_window() >= 1
        &&& self@.len() <= self.spec_max_size()
    }

    /// An empty log with the given retention bound and scan width.
    pub fn new(max_stream_size: usize, scan_window: usize) -> (r: LogStore)
        requires
            max_stream_size >= 1,
            scan_window >= 1,
        ensures
            r.wf(),
            r@ == Seq::<EntryModel>::empty(),
            r.spec_max_size() == max_stream_size,
            r.spec_window() == scan_window,
            r.spec_next_seq() == 0,
    {
        let r = LogStore { entries: Vec::new(), next_seq: 0, max_stream_size, scan_window };
        proof {
            assert(r@ =~= Seq::<EntryModel>::empty());
        }
        r
    }

    /// How many entries the log holds.
    pub fn len(&self) -> (r: usize)
        ensures
            r == self@.len(),
    {
        self.entries.len()
    }

    /// The entry at a position, oldest first.
    pub fn get(&self, i: usize) -> (r: &ArchiveEntry)
        requires
            i < self@.len(),
        ensures
            r.deep_view() == self@[i as int],
    {
        &self.entries[i]
    }
}


proof fn lemma_no_sp_max_zero(win: Seq<EntryModel>, p: Seq<char>)
    requires
        sp_count(win, p) == 0,
    ensures
        max_count_in(win, p) == 0,
    decreases win.len(),
{
    if win.len() > 0 {
        lemma_no_sp_max_zero(win.drop_last(), p);
    }
}

proof fn lemma_keep_nonneg(win: Seq<EntryModel>, p: Seq<char>)
    requires
        sp_count(win, p) > 0,
    ensures
        0 <= keep_idx(win, p, max_count_in(win, p)) < win.len(),
        keep_idx(win, p, max_count_in(win, p)) == keep_idx(
            win.drop_last(),
            p,
            max_count_in(win, p),
        ) || (same_period(win.last(), p) && win.last().info_count == max_count_in(win, p)),
    decreases win.len(),
{
    let last = win.last();
    let m = max_count_in(win.drop_last(), p);
    let mx = max_count_in(win, p);
    if same_period(last, p) && last.info_count == mx {
    } else if same_period(last, p) {
        if sp_count(win.drop_last(), p) == 0 {
            lemma_no_sp_max_zero(win.drop_last(), p);
        } else {
            lemma_keep_nonneg(win.drop_last(), p);
        }
    } else {
        lemma_keep_nonneg(win.drop_last(), p);
    }
}

fn clone_bytes(b: &Vec<u8>) -> (r: Vec<u8>)
    ensures
        r@ == b@,
{
    let mut out: Vec<u8> = Vec::new();
    let mut i: usize = 0;
    while i < b.len()
        invariant
            i <= b@.len(),
            out@ == b@.take(i as int),
        decreases b@.len() - i,
    {
        out.push(b[i]);
        proof {
            assert(b@.take(i as int).push(b@[i as int]) =~= b@.take(i + 1));
        }
        i += 1;
    }
    proof {
        assert(b@.take(b@.len() as int) =~= b@);
    }
    out
}

/// Whether the entry at `idx` belongs to period `period`, by parsing its
/// key the way the scan does.
fn entry_same_period(e: &ArchiveEntry, period: &String) -> (r: bool)
    ensures
        r == same_period(e.deep_view(), period@),
{
    match parse_period(e.key.as_str()) {
        Some(ps) => ps == *period,
        None => false,
    }
}

/// Scans the window (the entries from `ws` on): the largest metric among
/// entries of the period and how many such entries there are.
fn scan_window(entries: &Vec<ArchiveEntry>, ws: usize, period: &String) -> (r: (u64, usize))
    requires
        ws <= entries@.len(),
    ensures
        r.0 == max_count_in(entries.deep_view().skip(ws as int), period@),
        r.1 == sp_count(entries.deep_view().skip(ws as int), period@),
        r.1 <= entries@.len() - ws,
{
    let ghost win = entries.deep_view().skip(ws as int);
    let len = entries.len();
    let mut mx: u64 = 0;
    let mut n: usize = 0;
    let mut i: usize = ws;
    proof {
        assert(win.take(0int) =~= Seq::<EntryModel>::empty());
    }
    while i < len
        invariant
            ws <= i <= len,
            len == entries@.len(),
            win == entries.deep_view().skip(ws as int),
            mx == max_count_in(win.take(i - ws), period@),
            n == sp_count(win.take(i - ws), period@),
            n <= i - ws,
        decreases len - i,
    {
        let is_sp = entry_same_period(&entries[i], period);
        proof {
            assert(win.take(i - ws + 1).drop_last() =~= win.take(i - ws));
            assert(win.take(i - ws + 1).last() == win[i - ws]);
            assert(win[i - ws] == entries.deep_view()[i as int]);
        }
        if is_sp {
            n += 1;
            let c = entries[i].info_count;
            if c > mx {
                mx = c;
            }
        }
        i += 1;
    }
    proof {
        assert(win.take(len - ws) =~= win);
    }
    (mx, n)
}

/// Finds the duplicate that survives: the newest window entry of the
/// period whose metric is the maximum.
fn find_keep(entries: &Vec<ArchiveEntry>, ws: usize, period: &String, mx: u64) -> (r: usize)
    requires
        ws <= entries@.len(),
        sp_count(entries.deep_view().skip(ws as int), period@) > 0,
        mx == max_count_in(entries.deep_view().skip(ws as int), period@),
    ensures
        ws <= r < entries@.len(),
        r - ws == keep_idx(entries.deep_view().skip(ws as int), period@, mx),
{
    let ghost win = entries.deep_view().skip(ws as int);
    let len = entries.len();
    let mut k: usize = 0;
    let mut found = false;
    let mut i: usize = ws;
    proof {
        assert(win.take(0int) =~= Seq::<EntryModel>::empty());
    }
    while i < len
        invariant
            ws <= i <= len,
            len == entries@.len(),
            win == entries.deep_view().skip(ws as int),
            !found ==> keep_idx(win.take(i - ws), period@, mx) == -1,
            found ==> ws <= k < i && k - ws == keep_idx(win.take(i - ws), period@, mx),
        decreases len - i,
    {
        let is_sp = entry_same_period(&entries[i], period);
        proof {
            assert(win.take(i - ws + 1).drop_last() =~= win.take(i - ws));
            assert(win.take(i - ws + 1).last() == win[i - ws]);
            assert(win[i - ws] == entries.deep_view()[i as int]);
        }
        if is_sp && entries[i].info_count == mx {
            k = i;
            found = true;
        }
        i += 1;
    }
    proof {
        assert(win.take(len - ws) =~= win);
        lemma_keep_nonneg(win, period@);
    }
    k
}

/// Rebuilds the log around the window: entries before `ws` stay; window
/// entries of the period are removed, all of them when `keep_k` is
/// absent, all but the one at `keep_k` otherwise.
fn rebuild(entries: &mut Vec<ArchiveEntry>, ws: usize, period: &String, keep_k: Option<usize>)
    requires
        ws <= old(entries)@.len(),
        keep_k matches Some(k) ==> ws <= k < old(entries)@.len(),
    ensures
        ({
            let log1 = old(entries).deep_view();
            let head = log1.take(ws as int);
            let win = log1.skip(ws as int);
            match keep_k {
                None => final(entries).deep_view() == head + drop_sp(win, period@),
                Some(k) => final(entries).deep_view() == head + dedup_keep(win, period@, k - ws),
            }
        }),
{
    let ghost log1 = entries.deep_view();
    let ghost head = log1.take(ws as int);
    let ghost win = log1.skip(ws as int);
    let total = entries.len();
    let mut tmp: Vec<ArchiveEntry> = Vec::new();
    core::mem::swap(entries, &mut tmp);
    let mut idx: usize = 0;
    proof {
        assert(entries.deep_view() =~= Seq::<EntryModel>::empty());
        assert(log1.take(0int) =~= Seq::<EntryModel>::empty());
        assert(tmp.deep_view() =~= log1.skip(0int));
    }
    while tmp.len() > 0
        invariant
            idx + tmp@.len() == log1.len(),
            total == log1.len(),
            ws <= log1.len(),
            keep_k matches Some(k) ==> ws <= k < log1.len(),
            head == log1.take(ws as int),
            win == log1.skip(ws as int),
            tmp.deep_view() == log1.skip(idx as int),
            entries.deep_view() == (if idx <= ws {
                log1.take(idx as int)
            } else {
                head + (match keep_k {
                    None => drop_sp(win.take(idx - ws), period@),
                    Some(k) => dedup_keep(win.take(idx - ws), period@, k - ws),
                })
            }),
        decreases tmp@.len(),
    {
        let ghost pre_tmp = tmp.deep_view();
        let ghost pre_built = entries.deep_view();
        let e = tmp.remove(0);
        proof {
            assert(tmp.deep_view() =~= pre_tmp.drop_first());
            assert(pre_tmp.drop_first() =~= log1.skip(idx + 1));
            assert(e.deep_view() == pre_tmp[0]);
            assert(pre_tmp[0] == log1.skip(idx as int)[0]);
            assert(e.deep_view() == log1[idx as int]);
        }
        let keep: bool = if idx < ws {
            true
        } else {
            let at_keep = match keep_k {
                Some(k) => idx == k,
                None => false,
            };
            if at_keep {
                true
            } else {
                !entry_same_period(&e, period)
            }
        };
        let ghost e_model = e.deep_view();
        if keep {
            entries.push(e);
        }
        proof {
            if keep {
                assert(entries.deep_view() =~= pre_built.push(e_model));
            }
            if idx < ws {
                assert(log1.take(idx as int).push(log1[idx as int]) =~= log1.take(idx + 1));
            } else {
                let j = idx - ws;
                assert(win.take(j + 1).drop_last() =~= win.take(j as int));
                assert(win.take(j + 1).last() == win[j as int]);
                assert(win[j as int] == log1[idx as int]);
                if idx == ws {
                    assert(log1.take(ws as int) == head);
                    assert(drop_sp(win.take(0int), period@) =~= Seq::<EntryModel>::empty());
                    assert(dedup_keep(win.take(0int), period@, (match keep_k {
                        Some(k) => k - ws,
                        None => 0,
                    })) =~= Seq::<EntryModel>::empty());
                    assert(pre_built =~= head + Seq::<EntryModel>::empty());
                }
            }
        }
        idx += 1;
    }
    proof {
        assert(log1.skip(idx as int).len() == 0);
        assert(idx == log1.len());
        if ws == log1.len() {
            assert(entries.deep_view() == log1.take(ws as int));
            assert(win =~= Seq::<EntryModel>::empty());
            assert(entries.deep_view() =~= head + drop_sp(win, period@));
            match keep_k {
                Some(k) => {
                    assert(entries.deep_view() =~= head + dedup_keep(win, period@, k - ws));
                },
                None => {},
            }
        } else {
            assert(win.take(idx - ws) =~= win);
        }
    }
}

impl LogStore {
    /// One compaction transaction, indivisible with respect to the log:
    /// parse the period from the new entry's key (no separator aborts
    /// with a format error and no mutation), evict the oldest entry when
    /// at capacity, suppress duplicate entries of the period within the
    /// scan window, and write the new entry exactly when it is more
    /// complete than every revision the window holds.  The transition
    /// and the reported outcome equal [`step_spec`].
    pub fn push_msg(&mut self, msg: &MktArchiveMsg) -> (r: Result<PushOutcome, PushError>)
        requires
            old(self).wf(),
            old(self).spec_next_seq() < u64::MAX,
        ensures
            final(self).wf(),
            final(self).spec_max_size() == old(self).spec_max_size(),
            final(self).spec_window() == old(self).spec_window(),
            match r {
                Err(e) => e == PushError::FormatError && parse_period_spec(msg.key@) is None
                    && final(self)@ == old(self)@ && final(self).spec_next_seq() == old(
                    self,
                ).spec_next_seq(),
                Ok(out) => step_spec(
                    old(self)@,
                    msg.key@,
                    msg.info_count,
                    msg.msg_content@,
                    old(self).spec_next_seq(),
                    old(self).spec_max_size() as nat,
                    old(self).spec_window() as nat,
                ) == Some((final(self)@, out)) && (out is Updated ==> final(self).spec_next_seq()
                    == old(self).spec_next_seq() + 1) && (!(out is Updated)
                    ==> final(self).spec_next_seq() == old(self).spec_next_seq()),
            },
    {
        let ghost pre = self@;
        let period = match parse_period(msg.key.as_str()) {
            None => {
                return Err(PushError::FormatError);
            },
            Some(p) => p,
        };
        let ghost pm = period@;
        // Retention: at capacity, the structurally oldest entry goes
        // before anything else.
        if self.entries.len() >= self.max_stream_size {
            let ghost before = self.entries.deep_view();
            self.entries.remove(0);
            proof {
                assert(self.entries.deep_view() =~= before.drop_first());
            }
        }
        proof {
            assert(self.entries.deep_view() == retained(
                pre,
                old(self).spec_max_size() as nat,
            ));
        }
        let ghost log1 = self.entries.deep_view();
        let len = self.entries.len();
        let ws: usize = if len <= self.scan_window {
            0
        } else {
            len - self.scan_window
        };
        proof {
            assert(ws as nat == window_start(log1.len(), old(self).spec_window() as nat));
        }
        let ghost win = log1.skip(ws as int);
        let ghost head = log1.take(ws as int);
        let (mx, n) = scan_window(&self.entries, ws, &period);
        let cnt = msg.info_count;
        if cnt > mx {
            rebuild(&mut self.entries, ws, &period, None);
            let op = if n > 0 {
                Operation::Update
            } else {
                Operation::Insert
            };
            let new_e = ArchiveEntry {
                seq_id: self.next_seq,
                key: period_key_clone(&msg.key),
                info_count: cnt,
                payload: clone_bytes(&msg.msg_content),
                operation: op,
                replaced_count: n as u64,
            };
            self.entries.push(new_e);
            self.next_seq = self.next_seq + 1;
            proof {
                assert(self.entries.deep_view() =~= (head + drop_sp(win, pm)).push(
                    new_entry(msg.key@, cnt, msg.msg_content@, old(self).spec_next_seq(), n as nat),
                ));
                lemma_drop_sp_len(win, pm);
            }
            Ok(PushOutcome::Updated)
        } else {
            if n > 1 {
                let k = find_keep(&self.entries, ws, &period, mx);
                rebuild(&mut self.entries, ws, &period, Some(k));
                proof {
                    lemma_dedup_keep_len(win, pm, k - ws);
                }
            }
            if cnt == mx {
                Ok(PushOutcome::Equal)
            } else {
                Ok(PushOutcome::Skipped)
            }
        }
    }
}


proof fn lemma_drop_sp_all(win: Seq<EntryModel>, p: Seq<char>)
    requires
        sp_count(win, p) == 0,
    ensures
        drop_sp(win, p) == win,
    decreases win.len(),
{
    if win.len() > 0 {
        lemma_drop_sp_all(win.drop_last(), p);
        assert(drop_sp(win.drop_last(), p).push(win.last()) =~= win);
    }
}

/// One archival round of a single period held in a one-entry (or empty)
/// log: the log afterwards holds exactly one entry of that period whose
/// metric is the new maximum.
proof fn lemma_step_single(
    log: Seq<EntryModel>,
    key: Seq<char>,
    cnt: u64,
    payload: Seq<u8>,
    max: nat,
    w: nat,
    p: Seq<char>,
)
    requires
        max >= 1,
        w >= 1,
        parse_period_spec(key) == Some(p),
        cnt >= 1,
        log.len() == 0 || (log.len() == 1 && same_period(log[0], p) && log[0].info_count <= cnt
            && log[0].info_count >= 1),
    ensures
        step_spec(log, key, cnt, payload, 0, max, w) matches Some((l2, _)) && l2.len() == 1
            && same_period(l2[0], p) && l2[0].info_count == cnt && l2[0].info_count >= 1,
{
    let log1 = retained(log, max);
    let ws = window_start(log1.len(), w) as int;
    let head = log1.take(ws);
    let win = log1.skip(ws);
    assert(ws == 0);
    assert(head =~= Seq::<EntryModel>::empty());
    assert(win =~= log1);
    if log1.len() == 0 {
        assert(max_count_in(win, p) == 0);
        assert((head + drop_sp(win, p)).push(new_entry(key, cnt, payload, 0, sp_count(win, p)))
            =~= seq![new_entry(key, cnt, payload, 0, 0)]);
    } else {
        assert(log1 == log);
        assert(win.drop_last() =~= Seq::<EntryModel>::empty());
        assert(win.last() == log[0]);
        assert(max_count_in(Seq::<EntryModel>::empty(), p) == 0);
        assert(sp_count(Seq::<EntryModel>::empty(), p) == 0);
        assert(max_count_in(win, p) == log[0].info_count);
        assert(sp_count(win, p) == 1);
        if cnt > log[0].info_count {
            assert(drop_sp(Seq::<EntryModel>::empty(), p) =~= Seq::<EntryModel>::empty());
            assert(drop_sp(win, p) =~= Seq::<EntryModel>::empty());
            assert((head + drop_sp(win, p)).push(new_entry(key, cnt, payload, 0, 1)) =~= seq![
                new_entry(key, cnt, payload, 0, 1),
            ]);
        }
    }
}

/// A sequence of archival rounds for one period, applied from an empty
/// log, with the completeness metric never decreasing: after every round
/// the log holds exactly one entry of that period, carrying the running
/// maximum of the metric.  (The statement for a prefix follows by
/// instantiating `items` with that prefix.)
pub open spec fn run_spec(
    pre: Seq<EntryModel>,
    items: Seq<(Seq<char>, u64)>,
    payload: Seq<u8>,
    max: nat,
    w: nat,
) -> Option<Seq<EntryModel>>
    decreases items.len(),
{
    if items.len() == 0 {
        Some(pre)
    } else {
        match step_spec(pre, items[0].0, items[0].1, payload, 0, max, w) {
            None => None,
            Some(lo) => run_spec(lo.0, items.drop_first(), payload, max, w),
        }
    }
}

proof fn lemma_run_snoc(
    pre: Seq<EntryModel>,
    items: Seq<(Seq<char>, u64)>,
    x: (Seq<char>, u64),
    payload: Seq<u8>,
    max: nat,
    w: nat,
)
    ensures
        run_spec(pre, items.push(x), payload, max, w) == (match run_spec(
            pre,
            items,
            payload,
            max,
            w,
        ) {
            None => None::<Seq<EntryModel>>,
            Some(l) => match step_spec(l, x.0, x.1, payload, 0, max, w) {
                None => None::<Seq<EntryModel>>,
                Some(lo) => Some(lo.0),
            },
        }),
    decreases items.len(),
{
    if items.len() == 0 {
        assert(items.push(x)[0] == x);
        assert(items.push(x).drop_first() =~= Seq::<(Seq<char>, u64)>::empty());
        match step_spec(pre, x.0, x.1, payload, 0, max, w) {
            None => {},
            Some(lo) => {
                assert(run_spec(lo.0, Seq::<(Seq<char>, u64)>::empty(), payload, max, w)
                    == Some(lo.0));
            },
        }
    } else {
        assert(items.push(x)[0] == items[0]);
        assert(items.push(x).drop_first() =~= items.drop_first().push(x));
        match step_spec(pre, items[0].0, items[0].1, payload, 0, max, w) {
            None => {},
            Some(lo) => {
                lemma_run_snoc(lo.0, items.drop_first(), x, payload, max, w);
            },
        }
    }
}

/// Inserts into one period with non-decreasing completeness: after each
/// round, the log holds exactly one entry for that period and its metric
/// equals the running maximum (the latest metric).  The metrics must be
/// at least one: a first capture with metric zero ties with the empty
/// window's maximum of zero and is never written at all.
pub proof fn lemma_single_period_compaction(
    items: Seq<(Seq<char>, u64)>,
    payload: Seq<u8>,
    p: Seq<char>,
    max: nat,
    w: nat,
)
    requires
        max >= 1,
        w >= 1,
        items.len() >= 1,
        forall|k: int| 0 <= k < items.len() ==> parse_period_spec((#[trigger] items[k]).0) == Some(
            p,
        ),
        forall|k: int| 0 <= k < items.len() ==> (#[trigger] items[k]).1 >= 1,
        forall|k1: int, k2: int|
            0 <= k1 <= k2 < items.len() ==> (#[trigger] items[k1]).1 <= (#[trigger] items[k2]).1,
    ensures
        run_spec(Seq::empty(), items, payload, max, w) matches Some(l) && l.len() == 1
            && same_period(l[0], p) && l[0].info_count == items[items.len() - 1].1,
    decreases items.len(),
{
    if items.len() == 1 {
        lemma_step_single(Seq::empty(), items[0].0, items[0].1, payload, max, w, p);
        match step_spec(Seq::empty(), items[0].0, items[0].1, payload, 0, max, w) {
            None => {
                assert(false);
            },
            Some(lo) => {
                assert(items.drop_first() =~= Seq::<(Seq<char>, u64)>::empty());
                assert(run_spec(lo.0, Seq::<(Seq<char>, u64)>::empty(), payload, max, w)
                    == Some(lo.0));
            },
        }
    } else {
        let front = items.drop_last();
        let x = items.last();
        assert(front.push(x) =~= items);
        lemma_single_period_compaction(front, payload, p, max, w);
        let l1 = run_spec(Seq::empty(), front, payload, max, w)->Some_0;
        lemma_run_snoc(Seq::empty(), front, x, payload, max, w);
        assert(front[front.len() - 1].1 <= x.1);
        lemma_step_single(l1, x.0, x.1, payload, max, w, p);
    }
}

/// An insert whose metric ties the window's current maximum reports
/// `Equal` and changes nothing, provided the log is under capacity (so
/// no retention fires) and the window holds at most one entry of the
/// period (so no duplicate suppression fires).
pub proof fn lemma_equal_leaves_log_unchanged(
    log: Seq<EntryModel>,
    key: Seq<char>,
    cnt: u64,
    payload: Seq<u8>,
    id: u64,
    max: nat,
    w: nat,
    p: Seq<char>,
)
    requires
        parse_period_spec(key) == Some(p),
        log.len() < max,
        sp_count(log.skip(window_start(log.len(), w) as int), p) <= 1,
        cnt == max_count_in(log.skip(window_start(log.len(), w) as int), p),
    ensures
        step_spec(log, key, cnt, payload, id, max, w) == Some((log, PushOutcome::Equal)),
{
    assert(retained(log, max) == log);
}

/// Once the log's length has reached the bound, inserting an entry of a
/// period absent from the scan window evicts exactly the structurally
/// oldest entry, writes the new one, and the length stays at the bound.
/// The new metric must be at least one: a zero metric ties with the
/// empty window's maximum and is not written.
pub proof fn lemma_capacity_evicts_oldest(
    log: Seq<EntryModel>,
    key: Seq<char>,
    cnt: u64,
    payload: Seq<u8>,
    id: u64,
    max: nat,
    w: nat,
    p: Seq<char>,
)
    requires
        max >= 1,
        log.len() == max,
        parse_period_spec(key) == Some(p),
        cnt >= 1,
        sp_count(
            log.drop_first().skip(window_start((log.len() - 1) as nat, w) as int),
            p,
        ) == 0,
    ensures
        step_spec(log, key, cnt, payload, id, max, w) == Some(
            (log.drop_first().push(new_entry(key, cnt, payload, id, 0)), PushOutcome::Updated),
        ),
        step_spec(log, key, cnt, payload, id, max, w)->Some_0.0.len() == max,
{
    let log1 = log.drop_first();
    assert(retained(log, max) == log1);
    let ws = window_start(log1.len(), w) as int;
    let head = log1.take(ws);
    let win = log1.skip(ws);
    lemma_no_sp_max_zero(win, p);
    lemma_drop_sp_all(win, p);
    assert(head + win =~= log1);
    assert((head + drop_sp(win, p)).push(new_entry(key, cnt, payload, id, 0)) =~= log1.push(
        new_entry(key, cnt, payload, id, 0),
    ));
}

/// A fresh `String` with the same characters.
fn period_key_clone(s: &String) -> (r: String)
    ensures
        r@ == s@,
{
    s.clone()
}

} // verus!
