//! The loop that takes in the lines appended to a watched log file: the decisions
//! and the state it keeps, with the waiting and reading left to the caller.
use vstd::prelude::*;

use crate::analysis::{high_lines, verdicts};
use crate::chars::str_views;
use crate::scoring::{analyze_log_and_determine_criticality, Criticality};

verus! {

/// What the file watcher reported about the target log file.
#[derive(Clone, Copy, Debug, PartialEq, Eq, Structural)]
pub enum WatchEvent {
    /// The file was written to; it now holds `total_lines` lines.
    Written { total_lines: usize },
    /// The file was created.
    Created,
    /// Any other notification.
    Other,
}

/// What the watcher does next.
#[derive(Clone, Copy, Debug, PartialEq, Eq, Structural)]
pub enum WatchAction {
    /// Wait for the next notification.
    Idle,
    /// Read lines `from..to` of the file and hand them to `drain`.
    ReadNewLines { from: usize, to: usize },
}

/// The state of the ingestion loop: how many lines of the target file were taken
/// in, the in-memory buffer of those lines, and the label of each line that arrived
/// after startup.
pub struct IngestionState {
    offset: usize,
    base: usize,
    logs: Vec<String>,
    verdicts: Vec<Criticality>,
}

/// Every buffered line past `base` has exactly one label, its own, in order.
pub open spec fn scored_once(
    base: nat,
    logs: Seq<Seq<char>>,
    labels: Seq<Criticality>,
    ds: Seq<Seq<char>>,
    d: Seq<Seq<char>>,
) -> bool {
    &&& base <= logs.len()
    &&& labels == verdicts(logs.skip(base as int), ds, d)
}

impl IngestionState {
    /// Lines taken in from the target file so far.
    pub closed spec fn spec_offset(&self) -> nat {
        self.offset as nat
    }

    /// Lines that were loaded at startup, before any notification.
    pub closed spec fn spec_base(&self) -> nat {
        self.base as nat
    }

    /// The buffered lines.
    pub closed spec fn spec_logs(&self) -> Seq<Seq<char>> {
        str_views(self.logs@)
    }

    /// The labels of the lines that arrived after startup, in order.
    pub closed spec fn spec_verdicts(&self) -> Seq<Criticality> {
        self.verdicts@
    }

    /// The offset counts the buffered lines, and each line after startup was scored
    /// exactly once against `ds` and `d`.
    pub open spec fn wf(&self, ds: Seq<Seq<char>>, d: Seq<Seq<char>>) -> bool {
        &&& self.spec_offset() == self.spec_logs().len()
        &&& scored_once(self.spec_base(), self.spec_logs(), self.spec_verdicts(), ds, d)
    }

    /// The state at startup: the lines already in the target file are taken in
    /// without being scored.
    pub fn new(initial_logs: Vec<String>) -> (r: IngestionState)
        ensures
            r.spec_offset() == initial_logs@.len(),
            r.spec_base() == initial_logs@.len(),
            r.spec_logs() == str_views(initial_logs@),
            r.spec_verdicts() == Seq::<Criticality>::empty(),
            forall|ds: Seq<Seq<char>>, d: Seq<Seq<char>>| #[trigger] r.wf(ds, d),
    {
        let n = initial_logs.len();
        let r = IngestionState { offset: n, base: n, logs: initial_logs, verdicts: Vec::new() };
        assert forall|ds: Seq<Seq<char>>, d: Seq<Seq<char>>| #[trigger] r.wf(ds, d) by {
            assert(r.spec_logs().skip(n as int) =~= Seq::<Seq<char>>::empty());
            assert(verdicts(r.spec_logs().skip(n as int), ds, d) =~= Seq::<Criticality>::empty());
        }
        r
    }

    /// Lines taken in so far.
    pub fn offset(&self) -> (r: usize)
        ensures
            r == self.spec_offset(),
    {
        self.offset
    }

    /// The buffered lines.
    pub fn logs(&self) -> (r: &Vec<String>)
        ensures
            str_views(r@) == self.spec_logs(),
    {
        &self.logs
    }

    /// The labels of the lines that arrived after startup.
    pub fn verdicts(&self) -> (r: &Vec<Criticality>)
        ensures
            r@ == self.spec_verdicts(),
    {
        &self.verdicts
    }

    /// Decides what to do on a notification: when the file has grown past the
    /// recorded offset, read the new lines; otherwise stay idle.
    pub fn on_event(&self, event: WatchEvent) -> (r: WatchAction)
        ensures
            r == next_action(self.spec_offset(), event),
    {
        match event {
            WatchEvent::Written { total_lines } => if total_lines > self.offset {
                WatchAction::ReadNewLines { from: self.offset, to: total_lines }
            } else {
                WatchAction::Idle
            },
            _ => WatchAction::Idle,
        }
    }

    /// Takes in a batch of newly appended lines: they join the buffer, exactly they
    /// are scored, and the offset moves past them. Returns the lines of the batch
    /// labelled High, in order, for the flagged-log store.
    pub fn drain(&mut self, new_lines: &[String], delimiters: &[String], dictionary: &[String]) -> (r: Vec<String>)
        requires
            old(self).wf(str_views(delimiters@), str_views(dictionary@)),
            old(self).spec_offset() + new_lines@.len() <= usize::MAX,
        ensures
            final(self).wf(str_views(delimiters@), str_views(dictionary@)),
            final(self).spec_offset() == old(self).spec_offset() + new_lines@.len(),
            final(self).spec_base() == old(self).spec_base(),
            final(self).spec_logs() == old(self).spec_logs() + str_views(new_lines@),
            final(self).spec_verdicts() == old(self).spec_verdicts() + verdicts(
                str_views(new_lines@),
                str_views(delimiters@),
                str_views(dictionary@),
            ),
            str_views(r@) == high_lines(str_views(new_lines@), str_views(delimiters@), str_views(dictionary@)),
    {
        let ghost ds = str_views(delimiters@);
        let ghost d = str_views(dictionary@);
        let ghost old_logs = str_views(self.logs@);
        let ghost old_verdicts = self.verdicts@;
        let ghost nv = str_views(new_lines@);
        let n = new_lines.len();
        let mut flagged: Vec<String> = Vec::new();
        let mut i: usize = 0;
        while i < n
            invariant
                0 <= i <= n,
                n == new_lines@.len(),
                nv == str_views(new_lines@),
                ds == str_views(delimiters@),
                d == str_views(dictionary@),
                str_views(self.logs@) == old_logs + nv.take(i as int),
                self.verdicts@ == old_verdicts + verdicts(nv.take(i as int), ds, d),
                str_views(flagged@) == high_lines(nv.take(i as int), ds, d),
                self.offset == old(self).offset,
                self.base == old(self).base,
            decreases n - i,
        {
            let ghost pre = nv.take(i + 1);
            assert(pre.drop_last() =~= nv.take(i as int));
            assert(pre.last() == nv[i as int]);
            let label = analyze_log_and_determine_criticality(new_lines[i].as_str(), delimiters, dictionary).criticality;
            let ghost logs_before = self.logs@;
            let ghost flagged_before = flagged@;
            self.logs.push(new_lines[i].clone());
            self.verdicts.push(label);
            if label == Criticality::High {
                flagged.push(new_lines[i].clone());
                assert(str_views(flagged@) =~= str_views(flagged_before).push(nv[i as int]));
            }
            assert(str_views(self.logs@) =~= str_views(logs_before).push(nv[i as int]));
            assert(nv.take(i + 1) =~= nv.take(i as int).push(nv[i as int]));
            assert(verdicts(pre, ds, d) =~= verdicts(nv.take(i as int), ds, d).push(label));
            i = i + 1;
        }
        assert(nv.take(n as int) =~= nv);
        self.offset = self.offset + n;
        let ghost base = self.base as int;
        assert(str_views(self.logs@).skip(base) =~= old_logs.skip(base) + nv);
        assert(verdicts(old_logs.skip(base) + nv, ds, d) =~= verdicts(old_logs.skip(base), ds, d) + verdicts(
            nv,
            ds,
            d,
        ));
        flagged
    }

    /// One cycle of the watcher. On a write that grew the file past the offset, the
    /// lines from the offset up to the reported total are taken from `tail` (the
    /// lines of the file from the offset on, as read by the caller) and drained;
    /// otherwise nothing changes. Returns the lines of the batch labelled High.
    pub fn ingest(&mut self, event: WatchEvent, tail: &[String], delimiters: &[String], dictionary: &[String]) -> (r: Vec<String>)
        requires
            old(self).wf(str_views(delimiters@), str_views(dictionary@)),
            reported_total(event) > old(self).spec_offset() ==> tail@.len() >= reported_total(event)
                - old(self).spec_offset(),
        ensures
            final(self).wf(str_views(delimiters@), str_views(dictionary@)),
            final(self).spec_base() == old(self).spec_base(),
            final(self).spec_logs() == after_cycle(
                old(self).spec_logs(),
                old(self).spec_logs() + str_views(tail@),
                reported_total(event),
            ),
            final(self).spec_verdicts() == old(self).spec_verdicts() + verdicts(
                final(self).spec_logs().skip(old(self).spec_offset() as int),
                str_views(delimiters@),
                str_views(dictionary@),
            ),
            str_views(r@) == high_lines(
                final(self).spec_logs().skip(old(self).spec_offset() as int),
                str_views(delimiters@),
                str_views(dictionary@),
            ),
            forall|file: Seq<Seq<char>>|
                file.skip(old(self).spec_logs().len() as int) == str_views(tail@) ==> #[trigger] ingest_step(
                    *old(self),
                    *final(self),
                    event,
                    file,
                    str_views(delimiters@),
                    str_views(dictionary@),
                ),
    {
        let ghost logs0 = self.spec_logs();
        let ghost tv = str_views(tail@);
        match self.on_event(event) {
            WatchAction::ReadNewLines { from, to } => {
                let count = to - from;
                let mut batch: Vec<String> = Vec::new();
                let mut k: usize = 0;
                while k < count
                    invariant
                        0 <= k <= count,
                        count <= tail@.len(),
                        tv == str_views(tail@),
                        str_views(batch@) == tv.take(k as int),
                    decreases count - k,
                {
                    let ghost before = batch@;
                    batch.push(tail[k].clone());
                    assert(str_views(batch@) =~= str_views(before).push(tv[k as int]));
                    assert(tv.take(k + 1) =~= tv.take(k as int).push(tv[k as int]));
                    k = k + 1;
                }
                assert((logs0 + tv).subrange(logs0.len() as int, to as int) =~= tv.take(count as int));
                let flagged = self.drain(&batch, delimiters, dictionary);
                assert(self.spec_logs().skip(logs0.len() as int) =~= str_views(batch@));
                flagged
            },
            WatchAction::Idle => {
                assert(self.spec_logs().skip(logs0.len() as int) =~= Seq::<Seq<char>>::empty());
                assert(verdicts(Seq::<Seq<char>>::empty(), str_views(delimiters@), str_views(dictionary@))
                    =~= Seq::<Criticality>::empty());
                assert(self.spec_verdicts() =~= self.spec_verdicts() + Seq::<Criticality>::empty());
                Vec::new()
            },
        }
    }
}

/// The line count that `event` reports for the file: its total on a write, 0
/// otherwise.
pub open spec fn reported_total(event: WatchEvent) -> nat {
    match event {
        WatchEvent::Written { total_lines } => total_lines as nat,
        _ => 0,
    }
}

/// A cycle run on the lines that the caller read from the offset on is the cycle of
/// the model on the file, and the buffer stays the file's first lines. With
/// `lemma_ingestion_cycles`, this carries the model over to any number of calls of
/// `IngestionState::ingest`.
pub proof fn lemma_ingest_reads_file(logs: Seq<Seq<char>>, file: Seq<Seq<char>>, total: nat)
    requires
        logs == file.take(logs.len() as int),
        logs.len() <= file.len(),
        total <= file.len(),
    ensures
        after_cycle(logs, logs + file.skip(logs.len() as int), total) == after_cycle(logs, file, total),
        after_cycle(logs, file, total) == file.take(after_cycle(logs, file, total).len() as int),
        after_cycle(logs, file, total).len() == if total > logs.len() {
            total
        } else {
            logs.len()
        },
{
    assert(logs + file.skip(logs.len() as int) =~= file);
    if total > logs.len() {
        assert(logs + file.subrange(logs.len() as int, total as int) =~= file.take(total as int));
    }
}

/// The line counts that the events report, in order.
pub open spec fn reported_totals(events: Seq<WatchEvent>) -> Seq<nat> {
    events.map_values(|e: WatchEvent| reported_total(e))
}

/// One step of `IngestionState::ingest` on `event`, with the caller reading the
/// lines of `file` past the offset, leads from `before` to `after`.
pub open spec fn ingest_step(
    before: IngestionState,
    after: IngestionState,
    event: WatchEvent,
    file: Seq<Seq<char>>,
    ds: Seq<Seq<char>>,
    d: Seq<Seq<char>>,
) -> bool {
    let tail = file.skip(before.spec_logs().len() as int);
    &&& after.wf(ds, d)
    &&& after.spec_base() == before.spec_base()
    &&& after.spec_logs() == after_cycle(before.spec_logs(), before.spec_logs() + tail, reported_total(event))
    &&& after.spec_verdicts() == before.spec_verdicts() + verdicts(
        after.spec_logs().skip(before.spec_offset() as int),
        ds,
        d,
    )
}

/// Over any number of calls of `IngestionState::ingest`, each reading the lines of
/// the file past the current offset, the offset ends at the largest line count
/// reported (the last one, when the counts never decrease and start at or past
/// the initial offset), the buffer is the file's first `offset` lines, and the
/// lines past the initial offset were each scored exactly once, in order.
pub proof fn lemma_ingest_runs(
    states: Seq<IngestionState>,
    events: Seq<WatchEvent>,
    file: Seq<Seq<char>>,
    ds: Seq<Seq<char>>,
    d: Seq<Seq<char>>,
)
    requires
        states.len() == events.len() + 1,
        states[0].wf(ds, d),
        states[0].spec_offset() <= file.len(),
        states[0].spec_logs() == file.take(states[0].spec_offset() as int),
        forall|k: int| 0 <= k < events.len() ==> #[trigger] reported_total(events[k]) <= file.len(),
        forall|k: int|
            0 <= k < events.len() ==> #[trigger] ingest_step(states[k], states[k + 1], events[k], file, ds, d),
    ensures
        states.last().wf(ds, d),
        states.last().spec_offset() == high_water(states[0].spec_offset(), reported_totals(events)),
        states.last().spec_logs() == file.take(states.last().spec_offset() as int),
        events.len() > 0 && reported_total(events.last()) >= states[0].spec_offset() && (forall|a: int, b: int|
            0 <= a < b < events.len() ==> reported_total(events[a]) <= reported_total(events[b]))
            ==> states.last().spec_offset() == reported_total(events.last()),
        states.last().spec_verdicts() == states[0].spec_verdicts() + verdicts(
            states.last().spec_logs().skip(states[0].spec_offset() as int),
            ds,
            d,
        ),
    decreases events.len(),
{
    let totals = reported_totals(events);
    let o0 = states[0].spec_offset();
    if events.len() == 0 {
        assert(states.last() == states[0]);
        assert(states[0].spec_logs().skip(o0 as int) =~= Seq::<Seq<char>>::empty());
        assert(verdicts(Seq::<Seq<char>>::empty(), ds, d) =~= Seq::<Criticality>::empty());
        assert(states[0].spec_verdicts() =~= states[0].spec_verdicts() + Seq::<Criticality>::empty());
    } else {
        let n = events.len();
        let ps = states.drop_last();
        let pe = events.drop_last();
        assert forall|k: int| 0 <= k < pe.len() implies #[trigger] reported_total(pe[k]) <= file.len() by {
            assert(pe[k] == events[k]);
        }
        assert forall|k: int| 0 <= k < pe.len() implies #[trigger] ingest_step(ps[k], ps[k + 1], pe[k], file, ds, d) by {
            assert(ingest_step(states[k], states[k + 1], events[k], file, ds, d));
        }
        lemma_ingest_runs(ps, pe, file, ds, d);
        let prev = states[n - 1];
        let last = states[n as int];
        assert(ps.last() == prev);
        assert(ingest_step(states[n - 1], states[n as int], events[n - 1], file, ds, d));
        let total = reported_total(events[n - 1]);
        assert(reported_totals(pe) =~= totals.drop_last());
        assert(totals.last() == total);
        assert forall|k: int| 0 <= k < reported_totals(pe).len() implies #[trigger] reported_totals(pe)[k] <= file.len() by {
            assert(reported_total(pe[k]) <= file.len());
        }
        lemma_high_water_bound(o0, reported_totals(pe), file.len());
        lemma_ingest_reads_file(prev.spec_logs(), file, total);
        lemma_high_water_grows(o0, reported_totals(pe));
        if events.len() > 0 && total >= o0 && (forall|a: int, b: int|
            0 <= a < b < events.len() ==> reported_total(events[a]) <= reported_total(events[b])) {
            assert forall|a: int, b: int| 0 <= a < b < totals.len() implies totals[a] <= totals[b] by {
                assert(reported_total(events[a]) <= reported_total(events[b]));
            }
            lemma_high_water_sorted(o0, totals);
        }
        let pl = prev.spec_logs();
        let ll = last.spec_logs();
        assert(ll.skip(o0 as int) =~= pl.skip(o0 as int) + ll.skip(prev.spec_offset() as int));
        assert(verdicts(pl.skip(o0 as int) + ll.skip(prev.spec_offset() as int), ds, d) =~= verdicts(
            pl.skip(o0 as int),
            ds,
            d,
        ) + verdicts(ll.skip(prev.spec_offset() as int), ds, d));
    }
}

/// What the watcher does on `event` with `offset` lines taken in.
pub open spec fn next_action(offset: nat, event: WatchEvent) -> WatchAction {
    match event {
        WatchEvent::Written { total_lines } => if total_lines > offset {
            WatchAction::ReadNewLines { from: offset as usize, to: total_lines }
        } else {
            WatchAction::Idle
        },
        _ => WatchAction::Idle,
    }
}

/// The buffered lines after one cycle in which the file holds `file` and the
/// watcher reports `total` lines: the lines past the offset up to `total` are
/// taken in.
pub open spec fn after_cycle(logs: Seq<Seq<char>>, file: Seq<Seq<char>>, total: nat) -> Seq<Seq<char>> {
    if total > logs.len() {
        logs + file.subrange(logs.len() as int, total as int)
    } else {
        logs
    }
}

/// The buffered lines after a cycle for each reported total, in order.
pub open spec fn after_cycles(logs: Seq<Seq<char>>, file: Seq<Seq<char>>, totals: Seq<nat>) -> Seq<Seq<char>>
    decreases totals.len(),
{
    if totals.len() == 0 {
        logs
    } else {
        after_cycle(after_cycles(logs, file, totals.drop_last()), file, totals.last())
    }
}

/// Largest of `offset` and the `totals`.
pub open spec fn high_water(offset: nat, totals: Seq<nat>) -> nat
    decreases totals.len(),
{
    if totals.len() == 0 {
        offset
    } else {
        let h = high_water(offset, totals.drop_last());
        if totals.last() > h {
            totals.last()
        } else {
            h
        }
    }
}

/// Over any number of cycles on a growing file, the buffer stays the file's first
/// `offset` lines, the offset ends at the largest total reported (the last one, when
/// the totals never decrease), and every line past the lines loaded at startup has
/// exactly one label, its own.
pub proof fn lemma_ingestion_cycles(
    logs: Seq<Seq<char>>,
    file: Seq<Seq<char>>,
    totals: Seq<nat>,
    base: nat,
    ds: Seq<Seq<char>>,
    d: Seq<Seq<char>>,
)
    requires
        logs == file.take(logs.len() as int),
        logs.len() <= file.len(),
        base <= logs.len(),
        forall|k: int| 0 <= k < totals.len() ==> #[trigger] totals[k] <= file.len(),
    ensures
        after_cycles(logs, file, totals).len() == high_water(logs.len(), totals),
        after_cycles(logs, file, totals) == file.take(high_water(logs.len(), totals) as int),
        totals.len() > 0 && totals.last() >= logs.len() && (forall|a: int, b: int|
            0 <= a < b < totals.len() ==> totals[a] <= totals[b]) ==> high_water(logs.len(), totals)
            == totals.last(),
        verdicts(after_cycles(logs, file, totals).skip(base as int), ds, d) == verdicts(
            logs.skip(base as int),
            ds,
            d,
        ) + verdicts(after_cycles(logs, file, totals).skip(logs.len() as int), ds, d),
    decreases totals.len(),
{
    let out = after_cycles(logs, file, totals);
    lemma_high_water_grows(logs.len(), totals);
    if totals.len() > 0 {
        let init = totals.drop_last();
        assert forall|k: int| 0 <= k < init.len() implies #[trigger] init[k] <= file.len() by {
            assert(init[k] == totals[k]);
        }
        lemma_ingestion_cycles(logs, file, init, base, ds, d);
        let prev = after_cycles(logs, file, init);
        if totals.last() > prev.len() {
            assert(prev + file.subrange(prev.len() as int, totals.last() as int) =~= file.take(
                totals.last() as int,
            ));
        }
        assert(out =~= file.take(high_water(logs.len(), totals) as int));
        if totals.last() >= logs.len() && (forall|a: int, b: int|
            0 <= a < b < totals.len() ==> totals[a] <= totals[b]) {
            lemma_high_water_sorted(logs.len(), totals);
        }
    }
    lemma_high_water_bound(logs.len(), totals, file.len());
    assert(out.len() >= logs.len());
    assert forall|k: int| 0 <= k < logs.len() implies out[k] == logs[k] by {
        assert(out[k] == file[k]);
    }
    assert(out.skip(base as int) =~= logs.skip(base as int) + out.skip(logs.len() as int));
    assert(verdicts(logs.skip(base as int) + out.skip(logs.len() as int), ds, d) =~= verdicts(
        logs.skip(base as int),
        ds,
        d,
    ) + verdicts(out.skip(logs.len() as int), ds, d));
}

proof fn lemma_high_water_grows(offset: nat, totals: Seq<nat>)
    ensures
        high_water(offset, totals) >= offset,
        forall|k: int| 0 <= k < totals.len() ==> high_water(offset, totals) >= #[trigger] totals[k],
    decreases totals.len(),
{
    if totals.len() > 0 {
        lemma_high_water_grows(offset, totals.drop_last());
        assert forall|k: int| 0 <= k < totals.len() implies high_water(offset, totals) >= #[trigger] totals[k] by {
            if k < totals.len() - 1 {
                assert(totals.drop_last()[k] == totals[k]);
            }
        }
    }
}

proof fn lemma_high_water_sorted(offset: nat, totals: Seq<nat>)
    requires
        totals.len() > 0,
        totals.last() >= offset,
        forall|a: int, b: int| 0 <= a < b < totals.len() ==> totals[a] <= totals[b],
    ensures
        high_water(offset, totals) == totals.last(),
    decreases totals.len(),
{
    if totals.len() > 1 {
        let init = totals.drop_last();
        assert forall|a: int, b: int| 0 <= a < b < init.len() implies init[a] <= init[b] by {
            assert(init[a] == totals[a] && init[b] == totals[b]);
        }
        assert(init.last() <= totals.last()) by {
            assert(totals[totals.len() - 2] <= totals[totals.len() - 1]);
        }
        if init.last() >= offset {
            lemma_high_water_sorted(offset, init);
        } else {
            lemma_high_water_below(offset, init);
        }
    } else {
        assert(high_water(offset, totals.drop_last()) == offset);
    }
}

proof fn lemma_high_water_below(offset: nat, totals: Seq<nat>)
    requires
        forall|a: int, b: int| 0 <= a < b < totals.len() ==> totals[a] <= totals[b],
        totals.len() > 0 ==> totals.last() < offset,
    ensures
        high_water(offset, totals) == offset,
    decreases totals.len(),
{
    if totals.len() > 1 {
        let init = totals.drop_last();
        assert forall|a: int, b: int| 0 <= a < b < init.len() implies init[a] <= init[b] by {
            assert(init[a] == totals[a] && init[b] == totals[b]);
        }
        assert(init.last() <= totals.last()) by {
            assert(totals[totals.len() - 2] <= totals[totals.len() - 1]);
        }
        lemma_high_water_below(offset, init);
    } else if totals.len() == 1 {
        assert(high_water(offset, totals.drop_last()) == offset);
    }
}

proof fn lemma_high_water_bound(offset: nat, totals: Seq<nat>, bound: nat)
    requires
        offset <= bound,
        forall|k: int| 0 <= k < totals.len() ==> #[trigger] totals[k] <= bound,
    ensures
        high_water(offset, totals) <= bound,
    decreases totals.len(),
{
    if totals.len() > 0 {
        let init = totals.drop_last();
        assert forall|k: int| 0 <= k < init.len() implies #[trigger] init[k] <= bound by {
            assert(init[k] == totals[k]);
        }
        lemma_high_water_bound(offset, init, bound);
    }
}

} // verus!
