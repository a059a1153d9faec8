//! The publish pipeline's fire-and-forget serialization.
//!
//! `publish_async` holds a single slot for the outstanding transaction's
//! handle: before a new transaction is scheduled, the previous handle is
//! awaited and retired.  The slot here is that discipline as a state
//! machine: a ghost trace records every start and finish, the slot's
//! well-formedness says the trace is a valid serial history, and
//! [`lemma_publishes_serialized`] proves that in any valid history two
//! transactions never overlap — the later one starts only after the
//! earlier one has finished — and that starts happen in submission
//! order.  The loop that awaits handles and performs the store calls
//! lives outside the library and drives this slot.
//!
//! The module also reads the store's transaction reply: its first line
//! names the outcome.

use vstd::prelude::*;

verus! {

use vstd::string::StrSliceExecFns;
use crate::store::PushOutcome;

/// One event of the pipeline's history.
#[derive(Debug, Clone, Copy, PartialEq, Eq, Structural)]
pub enum PipeEvent {
    /// Transaction `i` began executing against the store.
    Started(u64),
    /// Transaction `i` completed.
    Finished(u64),
}

/// The state a valid history leaves the pipeline in: the outstanding
/// transaction, if any, and the id the next one will get.  An invalid
/// history — one that starts a transaction while another is in flight,
/// out of order, or finishes the wrong one — has no state.
pub open spec fn pipe_state(tr: Seq<PipeEvent>) -> Option<(Option<u64>, nat)>
    decreases tr.len(),
{
    if tr.len() == 0 {
        Some((None::<u64>, 0nat))
    } else {
        match pipe_state(tr.drop_last()) {
            None => None,
            Some(st) => match tr.last() {
                PipeEvent::Started(i) => if st.0 is None && i as nat == st.1 {
                    Some((Some(i), (st.1 + 1) as nat))
                } else {
                    None
                },
                PipeEvent::Finished(i) => if st.0 == Some(i) {
                    Some((None::<u64>, st.1))
                } else {
                    None
                },
            },
        }
    }
}

/// The history is a serial one.
pub open spec fn pipe_valid(tr: Seq<PipeEvent>) -> bool {
    pipe_state(tr) is Some
}

/// How many transactions the history has started.
pub open spec fn count_started(tr: Seq<PipeEvent>) -> nat
    decreases tr.len(),
{
    if tr.len() == 0 {
        0
    } else {
        count_started(tr.drop_last()) + (match tr.last() {
            PipeEvent::Started(_) => 1nat,
            PipeEvent::Finished(_) => 0nat,
        })
    }
}

proof fn lemma_prefix_valid(tr: Seq<PipeEvent>, m: int)
    requires
        pipe_valid(tr),
        0 <= m <= tr.len(),
    ensures
        pipe_valid(tr.take(m)),
    decreases tr.len(),
{
    if m == tr.len() {
        assert(tr.take(m) =~= tr);
    } else {
        assert(tr.drop_last().take(m) =~= tr.take(m));
        lemma_prefix_valid(tr.drop_last(), m);
    }
}

proof fn lemma_state_count(tr: Seq<PipeEvent>)
    requires
        pipe_valid(tr),
    ensures
        pipe_state(tr)->Some_0.1 == count_started(tr),
    decreases tr.len(),
{
    if tr.len() > 0 {
        lemma_state_count(tr.drop_last());
    }
}

proof fn lemma_count_mono(tr: Seq<PipeEvent>, m: int, n: int)
    requires
        0 <= m <= n <= tr.len(),
    ensures
        count_started(tr.take(m)) <= count_started(tr.take(n)),
    decreases n - m,
{
    if m < n {
        lemma_count_mono(tr, m, n - 1);
        assert(tr.take(n).drop_last() =~= tr.take(n - 1));
    }
}

proof fn lemma_started_id(tr: Seq<PipeEvent>, i: int, a: u64)
    requires
        pipe_valid(tr),
        0 <= i < tr.len(),
        tr[i] == PipeEvent::Started(a),
    ensures
        a as nat == count_started(tr.take(i)),
{
    lemma_prefix_valid(tr, i + 1);
    lemma_prefix_valid(tr, i);
    assert(tr.take(i + 1).drop_last() =~= tr.take(i));
    assert(tr.take(i + 1).last() == tr[i]);
    lemma_state_count(tr.take(i));
}

proof fn lemma_open_task(tr: Seq<PipeEvent>, i: int, a: u64)
    requires
        pipe_valid(tr),
        0 <= i < tr.len(),
        tr[i] == PipeEvent::Started(a),
        forall|k: int| i < k < tr.len() ==> tr[k] != PipeEvent::Finished(a),
    ensures
        i == tr.len() - 1,
        pipe_state(tr)->Some_0.0 == Some(a),
    decreases tr.len(),
{
    if i == tr.len() - 1 {
    } else {
        assert(tr.drop_last()[i] == tr[i]);
        lemma_open_task(tr.drop_last(), i, a);
        match tr.last() {
            PipeEvent::Started(c) => {
                assert(false);
            },
            PipeEvent::Finished(c) => {
                assert(c == a);
                assert(tr[tr.len() - 1] == PipeEvent::Finished(a));
                assert(false);
            },
        }
    }
}

/// In any valid pipeline history, transactions start in submission
/// order and never overlap: when one starts after another, the earlier
/// one has finished strictly in between.
pub proof fn lemma_publishes_serialized(tr: Seq<PipeEvent>, i: int, j: int, a: u64, b: u64)
    requires
        pipe_valid(tr),
        0 <= i < j < tr.len(),
        tr[i] == PipeEvent::Started(a),
        tr[j] == PipeEvent::Started(b),
    ensures
        a < b,
        exists|k: int| i < k < j && tr[k] == PipeEvent::Finished(a),
{
    lemma_started_id(tr, i, a);
    lemma_started_id(tr, j, b);
    assert(tr.take(i + 1).drop_last() =~= tr.take(i));
    assert(tr.take(i + 1).last() == tr[i]);
    assert(count_started(tr.take(i + 1)) == a + 1);
    lemma_count_mono(tr, i + 1, j);
    if !(exists|k: int| i < k < j && tr[k] == PipeEvent::Finished(a)) {
        lemma_prefix_valid(tr, j);
        lemma_prefix_valid(tr, j + 1);
        assert(tr.take(j)[i] == tr[i]);
        assert(forall|k: int|
            i < k < j ==> #[trigger] tr.take(j)[k] == tr[k] && tr[k] != PipeEvent::Finished(a));
        lemma_open_task(tr.take(j), i, a);
        assert(tr.take(j + 1).drop_last() =~= tr.take(j));
        assert(tr.take(j + 1).last() == tr[j]);
        assert(false);
    }
}

/// The single slot that serializes fire-and-forget publishes: at most
/// one transaction is outstanding; a new one may be started only once
/// the previous one has been awaited and retired.
pub struct PublishSlot {
    in_flight: Option<u64>,
    next_id: u64,
    trace: Ghost<Seq<PipeEvent>>,
}

impl PublishSlot {
    /// Every start and finish this slot has recorded, in order.
    pub closed spec fn history(&self) -> Seq<PipeEvent> {
        self.trace@
    }

    /// The outstanding transaction's id, if one is in flight.
    pub closed spec fn spec_pending(&self) -> Option<u64> {
        self.in_flight
    }

    pub closed spec fn spec_next_id(&self) -> u64 {
        self.next_id
    }

    /// The recorded history is a valid serial one and matches the
    /// slot's fields.
    pub open spec fn wf(&self) -> bool {
        pipe_state(self.history()) == Some((self.spec_pending(), self.spec_next_id() as nat))
    }

    /// A slot with no history and nothing in flight.
    pub fn new() -> (r: PublishSlot)
        ensures
            r.wf(),
            r.history() == Seq::<PipeEvent>::empty(),
            r.spec_pending() is None,
            r.spec_next_id() == 0,
    {
        PublishSlot { in_flight: None, next_id: 0, trace: Ghost(Seq::empty()) }
    }

    /// The handle the caller must await before scheduling anew.
    pub fn pending(&self) -> (r: Option<u64>)
        ensures
            r == self.spec_pending(),
    {
        self.in_flight
    }

    /// Retires the outstanding transaction once its handle has been
    /// awaited.
    pub fn on_finished(&mut self, t: u64)
        requires
            old(self).wf(),
            old(self).spec_pending() == Some(t),
        ensures
            final(self).wf(),
            final(self).history() == old(self).history().push(PipeEvent::Finished(t)),
            final(self).spec_pending() is None,
            final(self).spec_next_id() == old(self).spec_next_id(),
    {
        self.in_flight = None;
        proof {
            self.trace@ = self.trace@.push(PipeEvent::Finished(t));
            assert(self.trace@.drop_last() =~= old(self).history());
        }
    }

    /// Hands out the next transaction's id and marks it in flight.  The
    /// previous transaction must have been retired first: that is what
    /// serializes the pipeline.
    pub fn start_next(&mut self) -> (id: u64)
        requires
            old(self).wf(),
            old(self).spec_pending() is None,
            old(self).spec_next_id() < u64::MAX,
        ensures
            final(self).wf(),
            id == old(self).spec_next_id(),
            final(self).history() == old(self).history().push(PipeEvent::Started(id)),
            final(self).spec_pending() == Some(id),
            final(self).spec_next_id() == old(self).spec_next_id() + 1,
    {
        let id = self.next_id;
        self.in_flight = Some(id);
        self.next_id = self.next_id + 1;
        proof {
            self.trace@ = self.trace@.push(PipeEvent::Started(id));
            assert(self.trace@.drop_last() =~= old(self).history());
        }
        id
    }
}

/// The first line of the reply is exactly `lit`.
pub open spec fn line_is(s: Seq<char>, lit: Seq<char>) -> bool {
    &&& s.len() >= lit.len()
    &&& s.subrange(0, lit.len() as int) == lit
    &&& (s.len() == lit.len() || s[lit.len() as int] == '\n')
}

/// What the store's transaction reply reports: its first line names the
/// outcome; anything else is unreadable.
pub open spec fn reply_outcome(s: Seq<char>) -> Option<PushOutcome> {
    if line_is(s, "UPDATED"@) {
        Some(PushOutcome::Updated)
    } else if line_is(s, "EQUAL"@) {
        Some(PushOutcome::Equal)
    } else if line_is(s, "SKIPPED"@) {
        Some(PushOutcome::Skipped)
    } else {
        None
    }
}

fn line_matches(s: &str, lit: &str) -> (b: bool)
    ensures
        b == line_is(s@, lit@),
{
    let ln = lit.unicode_len();
    let sn = s.unicode_len();
    if sn < ln {
        return false;
    }
    let mut i: usize = 0;
    while i < ln
        invariant
            i <= ln,
            ln == lit@.len(),
            sn == s@.len(),
            sn >= ln,
            forall|j: int| 0 <= j < i ==> s@[j] == lit@[j],
        decreases ln - i,
    {
        if s.get_char(i) != lit.get_char(i) {
            proof {
                assert(s@.subrange(0, ln as int)[i as int] == s@[i as int]);
            }
            return false;
        }
        i += 1;
    }
    proof {
        assert(s@.subrange(0, ln as int) =~= lit@);
    }
    if sn == ln {
        true
    } else {
        s.get_char(ln) == '\n'
    }
}

/// Reads the outcome out of the store's reply: the first line says
/// whether the entry was written, tied, or skipped.
pub fn parse_outcome(s: &str) -> (r: Option<PushOutcome>)
    ensures
        r == reply_outcome(s@),
{
    if line_matches(s, "UPDATED") {
        Some(PushOutcome::Updated)
    } else if line_matches(s, "EQUAL") {
        Some(PushOutcome::Equal)
    } else if line_matches(s, "SKIPPED") {
        Some(PushOutcome::Skipped)
    } else {
        None
    }
}

} // verus!
