//! Decisions of the PTY reader loop, and the sniffer state that it carries
//! from one batch to the next.
//!
//! The loop itself (blocking reads, `poll`, the emulator lock, the host
//! callback) runs outside the library; each of its decisions is made here.

use vstd::prelude::*;
use vstd::utf8::{valid_utf8, decode_utf8};
use crate::bytes::utf8_to_string;
use crate::osc::{
    ProgressReport, scan_batch, osc7_introducer, osc94_introducer, osc94_report, payload_ends,
    payload_views, int_views, scan_osc_payloads, parse_osc94_content, introducer_bytes,
    lemma_ends_match_payloads, OscContinuation, MAX_OSC_PAYLOAD,
};

verus! {

/// Bytes gathered into one batch before it is handed to the parser.
pub const BATCH_LIMIT: usize = 1024 * 1024;

/// Whether to read more into the pending batch without blocking: only while
/// the batch is under `BATCH_LIMIT` and the PTY has data ready.
pub fn keep_draining(pending_len: usize, readable: bool) -> (r: bool)
    ensures
        r == (pending_len < BATCH_LIMIT && readable),
{
    pending_len < BATCH_LIMIT && readable
}

/// What a read from the PTY returned.
#[derive(Clone, Copy, Debug, PartialEq, Eq, Structural)]
pub enum ReadOutcome {
    /// `n` bytes were read.
    Data(usize),
    /// End of stream.
    EndOfStream,
    /// The read was interrupted by a signal.
    Interrupted,
    /// Any other error.
    Failed,
}

/// What the loop does after a read.
#[derive(Clone, Copy, Debug, PartialEq, Eq, Structural)]
pub enum ReadStep {
    /// Append this many bytes to the pending batch.
    Append(usize),
    /// Read again.
    Retry,
    /// Stop reading: the stream is over (or, while draining, stop draining).
    Finish,
}

/// Bytes extend the batch, an interrupted read is retried, end of stream
/// and errors end reading.
pub fn read_step(outcome: ReadOutcome) -> (r: ReadStep)
    ensures
        r == match outcome {
            ReadOutcome::Data(n) => if n == 0 {
                ReadStep::Finish
            } else {
                ReadStep::Append(n)
            },
            ReadOutcome::Interrupted => ReadStep::Retry,
            _ => ReadStep::Finish,
        },
{
    match outcome {
        ReadOutcome::Data(n) => if n == 0 {
            ReadStep::Finish
        } else {
            ReadStep::Append(n)
        },
        ReadOutcome::Interrupted => ReadStep::Retry,
        _ => ReadStep::Finish,
    }
}

/// An event sniffed from the PTY output.
#[derive(Debug, PartialEq, Eq)]
pub enum OscEvent {
    /// OSC 7: the new working directory, as a URL.
    DirectoryChange(String),
    /// OSC 9;4: a progress report.
    Progress(ProgressReport),
}

pub enum OscEventView {
    DirectoryChange(Seq<char>),
    Progress(ProgressReport),
}

impl View for OscEvent {
    type V = OscEventView;

    open spec fn view(&self) -> OscEventView {
        match self {
            OscEvent::DirectoryChange(s) => OscEventView::DirectoryChange(s@),
            OscEvent::Progress(r) => OscEventView::Progress(*r),
        }
    }
}

pub open spec fn event_views(v: Seq<OscEvent>) -> Seq<OscEventView> {
    v.map_values(|e: OscEvent| e@)
}

pub open spec fn keyed_views(v: Seq<(OscEvent, i128)>) -> Seq<(OscEventView, int)> {
    v.map_values(|e: (OscEvent, i128)| (e.0@, e.1 as int))
}

/// The directory-change events of the OSC 7 payloads `ps`, each with the
/// position `ends` gives it: the payloads that are valid UTF-8, in order.
pub open spec fn url_events(ps: Seq<Seq<u8>>, ends: Seq<int>) -> Seq<(OscEventView, int)>
    decreases ps.len(),
{
    if ps.len() == 0 {
        seq![]
    } else {
        let earlier = url_events(ps.drop_last(), ends.drop_last());
        if valid_utf8(ps.last()) {
            earlier.push((OscEventView::DirectoryChange(decode_utf8(ps.last())), ends.last()))
        } else {
            earlier
        }
    }
}

/// The progress events of the OSC 9;4 payloads `ps`, each with the position
/// `ends` gives it: the payloads that hold a report, in order.
pub open spec fn report_events(ps: Seq<Seq<u8>>, ends: Seq<int>) -> Seq<(OscEventView, int)>
    decreases ps.len(),
{
    if ps.len() == 0 {
        seq![]
    } else {
        let earlier = report_events(ps.drop_last(), ends.drop_last());
        match osc94_report(ps.last()) {
            Some(rep) => earlier.push((OscEventView::Progress(rep), ends.last())),
            None => earlier,
        }
    }
}

/// Two position-ordered event lists merged by position; on equal positions
/// the first list's event comes first.
pub open spec fn merge_by_position(
    xs: Seq<(OscEventView, int)>,
    ys: Seq<(OscEventView, int)>,
) -> Seq<(OscEventView, int)>
    decreases xs.len() + ys.len(),
{
    if xs.len() == 0 {
        ys
    } else if ys.len() == 0 {
        xs
    } else if xs[0].1 <= ys[0].1 {
        seq![xs[0]] + merge_by_position(xs.drop_first(), ys)
    } else {
        seq![ys[0]] + merge_by_position(xs, ys.drop_first())
    }
}

/// Positions, relative to the start of the batch `d`, of the terminators of
/// a scanner that carried `partial` into it.
pub open spec fn batch_ends(d: Seq<u8>, partial: Seq<u8>, pre: Seq<u8>) -> Seq<int> {
    payload_ends(partial + d, pre, 0).map_values(|e: int| e - partial.len())
}

/// The events of one batch: the OSC 7 and OSC 9;4 events, left to right by
/// where their terminators start in the batch (OSC 7 first where they share
/// a terminator).
pub open spec fn sniffed_events(d: Seq<u8>, p7: Seq<u8>, p94: Seq<u8>) -> Seq<OscEventView> {
    merge_by_position(
        url_events(scan_batch(d, p7, osc7_introducer()).0, batch_ends(d, p7, osc7_introducer())),
        report_events(scan_batch(d, p94, osc94_introducer()).0, batch_ends(d, p94, osc94_introducer())),
    ).map_values(|e: (OscEventView, int)| event_of(e))
}

/// The events of one scanner's batch, each with the position of its
/// terminator relative to the batch start.
fn keyed_events(payloads: &Vec<Vec<u8>>, ends: &Vec<usize>, carried: usize, osc94: bool) -> (r: Vec<(OscEvent, i128)>)
    requires
        payloads@.len() == ends@.len(),
    ensures
        keyed_views(r@) == if osc94 {
            report_events(payload_views(payloads@), int_views(ends@).map_values(|e: int| e - carried))
        } else {
            url_events(payload_views(payloads@), int_views(ends@).map_values(|e: int| e - carried))
        },
{
    let ghost ps = payload_views(payloads@);
    let ghost es = int_views(ends@).map_values(|e: int| e - carried);
    let mut out: Vec<(OscEvent, i128)> = Vec::new();
    let mut i: usize = 0;
    while i < payloads.len()
        invariant
            i <= payloads@.len(),
            payloads@.len() == ends@.len(),
            ps == payload_views(payloads@),
            es == int_views(ends@).map_values(|e: int| e - carried),
            keyed_views(out@) == if osc94 {
                report_events(ps.subrange(0, i as int), es.subrange(0, i as int))
            } else {
                url_events(ps.subrange(0, i as int), es.subrange(0, i as int))
            },
        decreases payloads@.len() - i,
    {
        assert(ps.subrange(0, i + 1).drop_last() =~= ps.subrange(0, i as int));
        assert(es.subrange(0, i + 1).drop_last() =~= es.subrange(0, i as int));
        let key = ends[i] as i128 - carried as i128;
        let ghost before = out@;
        if osc94 {
            match parse_osc94_content(payloads[i].as_slice()) {
                Some(rep) => {
                    out.push((OscEvent::Progress(rep), key));
                    assert(keyed_views(out@) =~= keyed_views(before).push(
                        (OscEventView::Progress(rep), key as int),
                    ));
                },
                None => {},
            }
        } else {
            match utf8_to_string(payloads[i].as_slice()) {
                Some(url) => {
                    let ghost u = url@;
                    out.push((OscEvent::DirectoryChange(url), key));
                    assert(keyed_views(out@) =~= keyed_views(before).push(
                        (OscEventView::DirectoryChange(u), key as int),
                    ));
                },
                None => {},
            }
        }
        i = i + 1;
    }
    assert(ps.subrange(0, ps.len() as int) =~= ps);
    assert(es.subrange(0, es.len() as int) =~= es);
    out
}

pub open spec fn event_of(e: (OscEventView, int)) -> OscEventView {
    e.0
}

pub open spec fn events_only(v: Seq<(OscEventView, int)>) -> Seq<OscEventView> {
    v.map_values(|e: (OscEventView, int)| event_of(e))
}

/// Merges two position-ordered event lists by position.
fn merge_events(xs: Vec<(OscEvent, i128)>, ys: Vec<(OscEvent, i128)>) -> (r: Vec<OscEvent>)
    ensures
        event_views(r@) == events_only(merge_by_position(keyed_views(xs@), keyed_views(ys@))),
{
    let ghost goal = events_only(merge_by_position(keyed_views(xs@), keyed_views(ys@)));
    let mut out: Vec<OscEvent> = Vec::new();
    let mut xs = xs;
    let mut ys = ys;
    assert(event_views(out@) + goal =~= goal);
    while xs.len() > 0 || ys.len() > 0
        invariant
            event_views(out@) + events_only(merge_by_position(keyed_views(xs@), keyed_views(ys@))) == goal,
        decreases xs@.len() + ys@.len(),
    {
        let ghost kx = keyed_views(xs@);
        let ghost ky = keyed_views(ys@);
        let ghost before = out@;
        let take_x = ys.len() == 0 || (xs.len() > 0 && xs[0].1 <= ys[0].1);
        if take_x {
            let (e, _) = xs.remove(0);
            proof {
                assert(keyed_views(xs@) =~= kx.drop_first());
                assert(merge_by_position(kx, ky) == seq![kx[0]] + merge_by_position(kx.drop_first(), ky));
            }
            let ghost ev = e@;
            out.push(e);
            proof {
                let rest = merge_by_position(kx.drop_first(), ky);
                assert(ev == event_of(kx[0]));
                assert(events_only(seq![kx[0]] + rest) =~= seq![ev] + events_only(rest));
                assert(event_views(out@) =~= event_views(before) + seq![ev]);
                assert(event_views(out@) + events_only(rest) =~= event_views(before) + events_only(
                    seq![kx[0]] + rest,
                ));
            }
        } else {
            let (e, _) = ys.remove(0);
            proof {
                assert(keyed_views(ys@) =~= ky.drop_first());
                assert(merge_by_position(kx, ky) == seq![ky[0]] + merge_by_position(kx, ky.drop_first()));
            }
            let ghost ev = e@;
            out.push(e);
            proof {
                let rest = merge_by_position(kx, ky.drop_first());
                assert(ev == event_of(ky[0]));
                assert(events_only(seq![ky[0]] + rest) =~= seq![ev] + events_only(rest));
                assert(event_views(out@) =~= event_views(before) + seq![ev]);
                assert(event_views(out@) + events_only(rest) =~= event_views(before) + events_only(
                    seq![ky[0]] + rest,
                ));
            }
        }
    }
    proof {
        assert(merge_by_position(keyed_views(xs@), keyed_views(ys@)) =~= Seq::<(OscEventView, int)>::empty());
        assert(event_views(out@) + Seq::<OscEventView>::empty() =~= event_views(out@));
    }
    out
}

/// The side-channel OSC scanners of one reader: one continuation for OSC 7
/// and one for OSC 9;4, carried across batches.
pub struct OscSniffer {
    osc7_partial: OscContinuation,
    osc94_partial: OscContinuation,
}

impl OscSniffer {
    /// The bytes of an OSC 7 sequence carried to the next batch, from its ESC on.
    pub closed spec fn osc7_continuation(&self) -> Seq<u8> {
        self.osc7_partial.carried(osc7_introducer())
    }

    /// The bytes of an OSC 9;4 sequence carried to the next batch, from its ESC on.
    pub closed spec fn osc94_continuation(&self) -> Seq<u8> {
        self.osc94_partial.carried(osc94_introducer())
    }

    /// The payload bytes buffered by each scanner.
    pub closed spec fn buffered(&self) -> (Seq<u8>, Seq<u8>) {
        (self.osc7_partial.buffered(), self.osc94_partial.buffered())
    }

    /// Each scanner's state is consistent with its introducer.
    pub closed spec fn wf(&self) -> bool {
        self.osc7_partial.wf(osc7_introducer()) && self.osc94_partial.wf(osc94_introducer())
    }

    /// A sniffer on ground state.
    pub fn new() -> (r: Self)
        ensures
            r.wf(),
            r.osc7_continuation() == Seq::<u8>::empty(),
            r.osc94_continuation() == Seq::<u8>::empty(),
    {
        let r = OscSniffer { osc7_partial: OscContinuation::new(), osc94_partial: OscContinuation::new() };
        proof {
            r.osc7_partial.lemma_ground(osc7_introducer());
            r.osc94_partial.lemma_ground(osc94_introducer());
        }
        r
    }

    /// Runs both scanners over one batch, each with its own continuation,
    /// and returns the events completed in the batch, left to right by
    /// where their terminators start.
    pub fn sniff(&mut self, batch: &[u8]) -> (r: Vec<OscEvent>)
        requires
            old(self).wf(),
        ensures
            final(self).wf(),
            final(self).buffered().0.len() <= MAX_OSC_PAYLOAD,
            final(self).buffered().1.len() <= MAX_OSC_PAYLOAD,
            event_views(r@) == sniffed_events(
                batch@,
                old(self).osc7_continuation(),
                old(self).osc94_continuation(),
            ),
            final(self).osc7_continuation() == scan_batch(
                batch@,
                old(self).osc7_continuation(),
                osc7_introducer(),
            ).1,
            final(self).osc94_continuation() == scan_batch(
                batch@,
                old(self).osc94_continuation(),
                osc94_introducer(),
            ).1,
    {
        let ghost p7 = self.osc7_continuation();
        let ghost p94 = self.osc94_continuation();
        let intro7 = introducer_bytes(false);
        let intro94 = introducer_bytes(true);
        let carried7 = self.osc7_partial.carried_len(Ghost(intro7@));
        let carried94 = self.osc94_partial.carried_len(Ghost(intro94@));
        let (ps7, ends7) = scan_osc_payloads(batch, &mut self.osc7_partial, intro7.as_slice());
        let (ps94, ends94) = scan_osc_payloads(batch, &mut self.osc94_partial, intro94.as_slice());
        proof {
            lemma_ends_match_payloads(p7 + batch@, osc7_introducer(), 0);
            lemma_ends_match_payloads(p94 + batch@, osc94_introducer(), 0);
            assert(int_views(ends7@).map_values(|e: int| e - carried7) =~= batch_ends(batch@, p7, osc7_introducer()));
            assert(int_views(ends94@).map_values(|e: int| e - carried94) =~= batch_ends(
                batch@,
                p94,
                osc94_introducer(),
            ));
        }
        let xs = keyed_events(&ps7, &ends7, carried7, false);
        let ys = keyed_events(&ps94, &ends94, carried94, true);
        merge_events(xs, ys)
    }
}

} // verus!
