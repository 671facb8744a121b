//! Byte-level scanners for the out-of-band OSC notifications that the VT
//! parser does not surface: OSC 7 (working directory) and OSC 9;4 (progress).

use vstd::prelude::*;
use vstd::utf8::{valid_utf8, decode_utf8};
use crate::bytes::utf8_to_string;

verus! {

/// Largest payload, in bytes, that a scanner accepts or carries across batches.
pub const MAX_OSC_PAYLOAD: usize = 4096;

pub const ESC: u8 = 0x1b;

pub const BEL: u8 = 0x07;

pub const BACKSLASH: u8 = 0x5c;

/// A string terminator starts at `i`: BEL, or ESC followed by a backslash.
pub open spec fn is_terminator_at(d: Seq<u8>, i: int) -> bool {
    0 <= i < d.len() && (d[i] == BEL || (d[i] == ESC && i + 1 < d.len() && d[i + 1] == BACKSLASH))
}

/// Length of the terminator that starts at `i`.
pub open spec fn terminator_len_at(d: Seq<u8>, i: int) -> nat {
    if d[i] == BEL { 1 } else { 2 }
}

/// The first terminator at or after `i`, looked for among the first
/// `MAX_OSC_PAYLOAD + 1` positions only.
pub open spec fn first_terminator_from(d: Seq<u8>, i: int) -> Option<int>
    decreases d.len() - i,
{
    if i < 0 || i >= d.len() || i > MAX_OSC_PAYLOAD {
        None
    } else if is_terminator_at(d, i) {
        Some(i)
    } else {
        first_terminator_from(d, i + 1)
    }
}

/// Where the payload at the start of `d` ends and how long its terminator is.
pub open spec fn osc_terminator(d: Seq<u8>) -> Option<(int, int)> {
    match first_terminator_from(d, 0) {
        Some(i) => Some((i, terminator_len_at(d, i) as int)),
        None => None,
    }
}

/// Finds the terminator (BEL or ESC \) of an OSC payload at the start of
/// `data`: the payload's length and the terminator's length. Only payloads
/// of at most `MAX_OSC_PAYLOAD` bytes are looked for.
pub fn find_osc_terminator(data: &[u8]) -> (r: Option<(usize, usize)>)
    ensures
        match r {
            Some((end, len)) => osc_terminator(data@) == Some((end as int, len as int)),
            None => osc_terminator(data@) is None,
        },
{
    let mut i: usize = 0;
    while i < data.len() && i <= MAX_OSC_PAYLOAD
        invariant
            i <= data@.len(),
            i <= MAX_OSC_PAYLOAD + 1,
            first_terminator_from(data@, 0) == first_terminator_from(data@, i as int),
        decreases data@.len() - i,
    {
        let byte = data[i];
        if byte == BEL {
            return Some((i, 1));
        }
        if byte == ESC && i + 1 < data.len() && data[i + 1] == BACKSLASH {
            return Some((i, 2));
        }
        i = i + 1;
    }
    None
}

/// Facts about the first terminator at or after `i`.
pub proof fn lemma_first_terminator_from(d: Seq<u8>, i: int)
    requires
        0 <= i,
    ensures
        match first_terminator_from(d, i) {
            Some(k) => i <= k < d.len() && k <= MAX_OSC_PAYLOAD && is_terminator_at(d, k) && forall|j: int|
                i <= j < k ==> !is_terminator_at(d, j),
            None => forall|j: int| i <= j < d.len() && j <= MAX_OSC_PAYLOAD ==> !is_terminator_at(d, j),
        },
    decreases d.len() - i,
{
    if i < d.len() && i <= MAX_OSC_PAYLOAD && !is_terminator_at(d, i) {
        lemma_first_terminator_from(d, i + 1);
    }
}

/// Bounds of what `osc_terminator` finds.
pub proof fn lemma_osc_terminator(d: Seq<u8>)
    ensures
        match osc_terminator(d) {
            Some((end, len)) => 0 <= end && end <= MAX_OSC_PAYLOAD && 1 <= len && end + len <= d.len()
                && is_terminator_at(d, end) && forall|j: int| 0 <= j < end ==> !is_terminator_at(d, j),
            None => forall|j: int| 0 <= j < d.len() && j <= MAX_OSC_PAYLOAD ==> !is_terminator_at(d, j),
        },
{
    lemma_first_terminator_from(d, 0);
}

/// The bytes of `d` from `pos` on start with `pre`.
pub open spec fn has_prefix_at(d: Seq<u8>, pos: int, pre: Seq<u8>) -> bool {
    0 <= pos && pos + pre.len() <= d.len() && d.subrange(pos, pos + pre.len()) == pre
}

/// The tail `d[pos..]` is a proper, non-empty start of the introducer `pre`:
/// the rest of the introducer may come with the next batch.
pub open spec fn has_partial_prefix_at(d: Seq<u8>, pos: int, pre: Seq<u8>) -> bool {
    0 <= pos < d.len() && d.len() - pos < pre.len() && d.subrange(pos, d.len() as int) == pre.subrange(
        0,
        d.len() - pos,
    )
}

/// An unterminated payload that a terminator in a later batch can still end
/// within `MAX_OSC_PAYLOAD` bytes: it fits, or it is one byte over and that
/// byte is the ESC that starts ESC \\.
pub open spec fn may_still_end(rest: Seq<u8>) -> bool {
    rest.len() <= MAX_OSC_PAYLOAD || (rest.len() == MAX_OSC_PAYLOAD + 1 && rest.last() == ESC)
}

/// The payloads that a scanner in ground state completes in `d` from `pos`
/// on, left to right, and what it carries to the next batch: the bytes of a
/// sequence that `d` ends inside of, from its ESC on (empty when there is
/// none).
///
/// After the introducer `pre`, a payload runs to the first terminator. A
/// payload longer than `MAX_OSC_PAYLOAD` is dropped and scanning resumes in
/// ground state right after its introducer. At the end of `d`, a started
/// introducer is carried, and so is a started sequence whose payload a later
/// terminator can still end within `MAX_OSC_PAYLOAD` bytes.
pub open spec fn scan_ground(d: Seq<u8>, pre: Seq<u8>, pos: int) -> (Seq<Seq<u8>>, Seq<u8>)
    decreases d.len() - pos,
{
    if pos < 0 || pos >= d.len() {
        (seq![], seq![])
    } else if pre.len() > 0 && has_prefix_at(d, pos, pre) {
        let start = pos + pre.len();
        let rest = d.subrange(start, d.len() as int);
        match osc_terminator(rest) {
            Some((end, len)) => {
                let next = start + end + len;
                if next <= pos || next > d.len() {
                    (seq![], seq![])
                } else {
                    let more = scan_ground(d, pre, next);
                    (seq![rest.subrange(0, end)] + more.0, more.1)
                }
            },
            None => if may_still_end(rest) {
                (seq![], d.subrange(pos, d.len() as int))
            } else {
                scan_ground(d, pre, start)
            },
        }
    } else if pre.len() > 0 && has_partial_prefix_at(d, pos, pre) {
        (seq![], d.subrange(pos, d.len() as int))
    } else {
        scan_ground(d, pre, pos + 1)
    }
}

/// Where the terminator of each payload of `scan_ground(d, pre, pos)`
/// starts in `d`, in the same order.
pub open spec fn payload_ends(d: Seq<u8>, pre: Seq<u8>, pos: int) -> Seq<int>
    decreases d.len() - pos,
{
    if pos < 0 || pos >= d.len() {
        seq![]
    } else if pre.len() > 0 && has_prefix_at(d, pos, pre) {
        let start = pos + pre.len();
        let rest = d.subrange(start, d.len() as int);
        match osc_terminator(rest) {
            Some((end, len)) => {
                let next = start + end + len;
                if next <= pos || next > d.len() {
                    seq![]
                } else {
                    seq![start + end] + payload_ends(d, pre, next)
                }
            },
            None => if may_still_end(rest) {
                seq![]
            } else {
                payload_ends(d, pre, start)
            },
        }
    } else if pre.len() > 0 && has_partial_prefix_at(d, pos, pre) {
        seq![]
    } else {
        payload_ends(d, pre, pos + 1)
    }
}

pub open spec fn int_views(v: Seq<usize>) -> Seq<int> {
    v.map_values(|e: usize| e as int)
}

/// One batch through a scanner that carries `partial` from earlier batches:
/// the payloads completed, left to right, and what is carried on. The
/// scanner reads the batch as the continuation of the carried bytes.
pub open spec fn scan_batch(d: Seq<u8>, partial: Seq<u8>, pre: Seq<u8>) -> (Seq<Seq<u8>>, Seq<u8>) {
    scan_ground(partial + d, pre, 0)
}

pub open spec fn payload_views(v: Seq<Vec<u8>>) -> Seq<Seq<u8>> {
    v.map_values(|p: Vec<u8>| p@)
}

/// Skipping bytes that are not ESC does not change what a scanner finds,
/// when its introducer starts with ESC.
pub proof fn lemma_skip_plain(d: Seq<u8>, pre: Seq<u8>, from: int, to: int)
    requires
        0 <= from <= to <= d.len(),
        pre.len() > 0,
        pre[0] == ESC,
        forall|j: int| from <= j < to ==> d[j] != ESC,
    ensures
        scan_ground(d, pre, from) == scan_ground(d, pre, to),
        payload_ends(d, pre, from) == payload_ends(d, pre, to),
    decreases to - from,
{
    if from < to {
        if has_prefix_at(d, from, pre) {
            assert(d.subrange(from, from + pre.len())[0] == d[from]);
        }
        if has_partial_prefix_at(d, from, pre) {
            assert(d.subrange(from, d.len() as int)[0] == d[from]);
            assert(pre.subrange(0, d.len() - from)[0] == pre[0]);
        }
        lemma_skip_plain(d, pre, from + 1, to);
    }
}

/// A scanner on ground at the end of the input completes nothing.
pub proof fn lemma_scan_ground_end(d: Seq<u8>, pre: Seq<u8>)
    ensures
        scan_ground(d, pre, d.len() as int) == (Seq::<Seq<u8>>::empty(), Seq::<u8>::empty()),
{
}

/// Copies `data[from..to]` into a new vector.
fn copy_range(data: &[u8], from: usize, to: usize) -> (r: Vec<u8>)
    requires
        from <= to <= data@.len(),
    ensures
        r@ == data@.subrange(from as int, to as int),
{
    let mut r: Vec<u8> = Vec::new();
    append_range(&mut r, data, from, to);
    r
}

/// Appends `data[from..to]` to `v`.
fn append_range(v: &mut Vec<u8>, data: &[u8], from: usize, to: usize)
    requires
        from <= to <= data@.len(),
    ensures
        final(v)@ == old(v)@ + data@.subrange(from as int, to as int),
{
    let mut i = from;
    while i < to
        invariant
            from <= i <= to,
            to <= data@.len(),
            v@ == old(v)@ + data@.subrange(from as int, i as int),
        decreases to - i,
    {
        v.push(data[i]);
        assert(data@.subrange(from as int, i + 1) =~= data@.subrange(from as int, i as int).push(
            data@[i as int],
        ));
        i = i + 1;
    }
}

/// Whether `data[pos..]` starts with `prefix`.
fn has_prefix(data: &[u8], pos: usize, prefix: &[u8]) -> (r: bool)
    requires
        pos <= data@.len(),
    ensures
        r == has_prefix_at(data@, pos as int, prefix@),
{
    if prefix.len() > data.len() - pos {
        return false;
    }
    let mut k: usize = 0;
    while k < prefix.len()
        invariant
            k <= prefix@.len(),
            pos + prefix@.len() <= data@.len(),
            data@.len() <= usize::MAX,
            forall|j: int| 0 <= j < k ==> data@[pos + j] == prefix@[j],
        decreases prefix@.len() - k,
    {
        if data[pos + k] != prefix[k] {
            assert(data@.subrange(pos as int, pos + prefix@.len())[k as int] != prefix@[k as int]);
            return false;
        }
        k = k + 1;
    }
    assert(data@.subrange(pos as int, pos + prefix@.len()) =~= prefix@);
    true
}

/// Whether `data[pos..]` is a proper, non-empty start of `prefix`.
fn has_partial_prefix(data: &[u8], pos: usize, prefix: &[u8]) -> (r: bool)
    requires
        pos < data@.len(),
    ensures
        r == has_partial_prefix_at(data@, pos as int, prefix@),
{
    let n = data.len() - pos;
    if n >= prefix.len() {
        return false;
    }
    let mut k: usize = 0;
    while k < n
        invariant
            k <= n,
            n == data@.len() - pos,
            n < prefix@.len(),
            data@.len() <= usize::MAX,
            forall|j: int| 0 <= j < k ==> data@[pos + j] == prefix@[j],
        decreases n - k,
    {
        if data[pos + k] != prefix[k] {
            assert(data@.subrange(pos as int, data@.len() as int)[k as int] != prefix@.subrange(0, n as int)[k as int]);
            return false;
        }
        k = k + 1;
    }
    assert(data@.subrange(pos as int, data@.len() as int) =~= prefix@.subrange(0, n as int));
    true
}

/// Scans `data` from `from` on in ground state, pushing each completed
/// payload onto `out`; returns the continuation for the next batch.
fn scan_ground_into(
    data: &[u8],
    prefix: &[u8],
    from: usize,
    out: &mut Vec<Vec<u8>>,
    ends: &mut Vec<usize>,
) -> (cont: Vec<u8>)
    requires
        prefix@.len() > 0,
        prefix@[0] == ESC,
        from <= data@.len(),
    ensures
        payload_views(final(out)@) == payload_views(old(out)@) + scan_ground(data@, prefix@, from as int).0,
        int_views(final(ends)@) == int_views(old(ends)@) + payload_ends(data@, prefix@, from as int),
        cont@ == scan_ground(data@, prefix@, from as int).1,
{
    let ghost d = data@;
    let ghost pre = prefix@;
    let ghost goal = scan_ground(d, pre, from as int);
    let ghost goal_ends = payload_ends(d, pre, from as int);
    let mut pos = from;
    proof {
        assert(payload_views(out@) + goal.0 =~= payload_views(old(out)@) + goal.0);
        assert(int_views(ends@) + goal_ends =~= int_views(old(ends)@) + goal_ends);
    }
    while pos < data.len()
        invariant
            pos <= d.len(),
            d == data@,
            pre == prefix@,
            pre.len() > 0,
            pre[0] == ESC,
            goal == scan_ground(d, pre, from as int),
            payload_views(out@) + scan_ground(d, pre, pos as int).0 == payload_views(old(out)@) + goal.0,
            scan_ground(d, pre, pos as int).1 == goal.1,
            goal_ends == payload_ends(d, pre, from as int),
            int_views(ends@) + payload_ends(d, pre, pos as int) == int_views(old(ends)@) + goal_ends,
        decreases d.len() - pos,
    {
        let hay = &data[pos..data.len()];
        match memchr::memchr(ESC, hay) {
            None => {
                proof {
                    assert forall|j: int| pos <= j < d.len() implies d[j] != ESC by {
                        assert(hay@[j - pos] == d[j]);
                    }
                    lemma_skip_plain(d, pre, pos as int, d.len() as int);
                    assert(payload_views(out@) =~= payload_views(out@) + Seq::<Seq<u8>>::empty());
                    assert(int_views(ends@) =~= int_views(ends@) + Seq::<int>::empty());
                }
                return Vec::new();
            },
            Some(off) => {
                let esc = pos + off;
                proof {
                    assert forall|j: int| pos <= j < esc implies d[j] != ESC by {
                        assert(hay@[j - pos] == d[j]);
                    }
                    assert(hay@[off as int] == d[esc as int]);
                    lemma_skip_plain(d, pre, pos as int, esc as int);
                }
                if has_prefix(data, esc, prefix) {
                    let start = esc + prefix.len();
                    let rest = &data[start..data.len()];
                    match find_osc_terminator(rest) {
                        Some((end, len)) => {
                            proof {
                                lemma_osc_terminator(rest@);
                            }
                            let payload = copy_range(data, start, start + end);
                            proof {
                                assert(payload@ =~= rest@.subrange(0, end as int));
                            }
                            let ghost before = out@;
                            out.push(payload);
                            proof {
                                assert(payload_views(out@) =~= payload_views(before) + seq![payload@]);
                            }
                            let ghost ends_before = ends@;
                            ends.push(start + end);
                            proof {
                                assert(int_views(ends@) =~= int_views(ends_before) + seq![(start + end) as int]);
                            }
                            pos = start + end + len;
                            proof {
                                let more_ends = payload_ends(d, pre, pos as int);
                                assert(payload_ends(d, pre, esc as int) == seq![(start + end) as int] + more_ends);
                                assert(int_views(ends@) + more_ends =~= int_views(ends_before) + (seq![
                                    (start + end) as int] + more_ends));
                                let more = scan_ground(d, pre, pos as int);
                                assert(scan_ground(d, pre, esc as int) == (seq![rest@.subrange(0, end as int)]
                                    + more.0, more.1));
                                assert(payload_views(out@) + more.0 =~= payload_views(before) + (seq![
                                    rest@.subrange(0, end as int)] + more.0));
                            }
                        },
                        None => {
                            let rest_len = data.len() - start;
                            if rest_len <= MAX_OSC_PAYLOAD || (rest_len == MAX_OSC_PAYLOAD + 1 && data[data.len()
                                - 1] == ESC) {
                                proof {
                                    if rest_len > 0 {
                                        assert(rest@.last() == data@[data@.len() - 1]);
                                    }
                                }
                                let cont = copy_range(data, esc, data.len());
                                proof {
                                    assert(payload_views(out@) =~= payload_views(out@) + Seq::<Seq<u8>>::empty());
                                    assert(int_views(ends@) =~= int_views(ends@) + Seq::<int>::empty());
                                }
                                return cont;
                            }
                            pos = start;
                        },
                    }
                } else if has_partial_prefix(data, esc, prefix) {
                    let cont = copy_range(data, esc, data.len());
                    proof {
                        assert(payload_views(out@) =~= payload_views(out@) + Seq::<Seq<u8>>::empty());
                        assert(int_views(ends@) =~= int_views(ends@) + Seq::<int>::empty());
                    }
                    return cont;
                } else {
                    pos = esc + 1;
                }
            },
        }
    }
    proof {
        lemma_scan_ground_end(d, pre);
        assert(payload_ends(d, pre, d.len() as int) =~= Seq::<int>::empty());
        assert(payload_views(out@) =~= payload_views(out@) + Seq::<Seq<u8>>::empty());
        assert(int_views(ends@) =~= int_views(ends@) + Seq::<int>::empty());
    }
    Vec::new()
}

/// A scanner reports one terminator position per payload.
pub proof fn lemma_ends_match_payloads(d: Seq<u8>, pre: Seq<u8>, pos: int)
    ensures
        payload_ends(d, pre, pos).len() == scan_ground(d, pre, pos).0.len(),
    decreases d.len() - pos,
{
    if pos >= 0 && pos < d.len() {
        if pre.len() > 0 && has_prefix_at(d, pos, pre) {
            let start = pos + pre.len();
            let rest = d.subrange(start, d.len() as int);
            match osc_terminator(rest) {
                Some((end, len)) => {
                    let next = start + end + len;
                    if next > pos && next <= d.len() {
                        lemma_ends_match_payloads(d, pre, next);
                    }
                },
                None => {
                    if !may_still_end(rest) {
                        lemma_ends_match_payloads(d, pre, start);
                    }
                },
            }
        } else if !(pre.len() > 0 && has_partial_prefix_at(d, pos, pre)) {
            lemma_ends_match_payloads(d, pre, pos + 1);
        }
    }
}

/// What a scanner carries to the next batch: nothing, a started
/// introducer, or the introducer and an unterminated payload that a later
/// terminator can still end.
pub open spec fn carried_shape(c: Seq<u8>, pre: Seq<u8>) -> bool {
    ||| c.len() == 0
    ||| (c.len() < pre.len() && c == pre.subrange(0, c.len() as int))
    ||| (pre.len() <= c.len() && c.subrange(0, pre.len() as int) == pre && may_still_end(
        c.subrange(pre.len() as int, c.len() as int),
    ))
}

/// Whatever a scanner carries has that shape.
pub proof fn lemma_carried_shape(d: Seq<u8>, pre: Seq<u8>, pos: int)
    ensures
        carried_shape(scan_ground(d, pre, pos).1, pre),
    decreases d.len() - pos,
{
    if pos >= 0 && pos < d.len() {
        if pre.len() > 0 && has_prefix_at(d, pos, pre) {
            let start = pos + pre.len();
            let rest = d.subrange(start, d.len() as int);
            match osc_terminator(rest) {
                Some((end, len)) => {
                    let next = start + end + len;
                    if next > pos && next <= d.len() {
                        lemma_carried_shape(d, pre, next);
                    }
                },
                None => {
                    if may_still_end(rest) {
                        let c = d.subrange(pos, d.len() as int);
                        assert(c.subrange(0, pre.len() as int) =~= d.subrange(pos, start));
                        assert(c.subrange(pre.len() as int, c.len() as int) =~= rest);
                    } else {
                        lemma_carried_shape(d, pre, start);
                    }
                },
            }
        } else if pre.len() > 0 && has_partial_prefix_at(d, pos, pre) {
        } else {
            lemma_carried_shape(d, pre, pos + 1);
        }
    }
}

/// The state a scanner keeps between batches: how many bytes of the
/// introducer it has seen, the payload gathered so far (at most
/// `MAX_OSC_PAYLOAD` bytes), and whether an ESC that may start the ESC \\
/// terminator ended the last batch.
pub struct OscContinuation {
    introducer_seen: usize,
    payload: Vec<u8>,
    esc_pending: bool,
}

impl OscContinuation {
    /// The payload bytes buffered.
    pub closed spec fn buffered(&self) -> Seq<u8> {
        self.payload@
    }

    /// Nothing is carried: the scanner is in ground state.
    pub closed spec fn is_ground(&self) -> bool {
        self.introducer_seen == 0 && self.payload@.len() == 0 && !self.esc_pending
    }

    /// A consistent state for a scanner of introducer `pre`.
    pub closed spec fn wf(&self, pre: Seq<u8>) -> bool {
        &&& self.introducer_seen <= pre.len()
        &&& self.introducer_seen < pre.len() ==> self.payload@.len() == 0 && !self.esc_pending
        &&& self.payload@.len() <= MAX_OSC_PAYLOAD
    }

    /// The bytes of the sequence in progress, as they came: the introducer
    /// bytes seen, the payload, and a pending ESC.
    pub closed spec fn carried(&self, pre: Seq<u8>) -> Seq<u8> {
        pre.subrange(0, self.introducer_seen as int) + self.payload@ + if self.esc_pending {
            seq![ESC]
        } else {
            Seq::<u8>::empty()
        }
    }

    /// A scanner in ground state carries nothing and is consistent for any
    /// introducer.
    pub proof fn lemma_ground(&self, pre: Seq<u8>)
        requires
            self.is_ground(),
        ensures
            self.wf(pre),
            self.carried(pre) == Seq::<u8>::empty(),
    {
        assert(self.carried(pre) =~= Seq::<u8>::empty());
    }

    /// A scanner in ground state.
    pub fn new() -> (r: Self)
        ensures
            r.is_ground(),
    {
        OscContinuation { introducer_seen: 0, payload: Vec::new(), esc_pending: false }
    }

    /// Whether nothing is carried.
    pub fn is_empty(&self) -> (r: bool)
        ensures
            r == self.is_ground(),
    {
        self.introducer_seen == 0 && self.payload.len() == 0 && !self.esc_pending
    }

    /// The payload bytes buffered so far.
    pub fn payload(&self) -> (r: &Vec<u8>)
        ensures
            r@ == self.buffered(),
    {
        &self.payload
    }

    /// Number of bytes carried.
    pub(crate) fn carried_len(&self, Ghost(pre): Ghost<Seq<u8>>) -> (r: usize)
        requires
            self.wf(pre),
            pre.len() <= 16,
        ensures
            r == self.carried(pre).len(),
    {
        let pending: usize = if self.esc_pending {
            1
        } else {
            0
        };
        self.introducer_seen + self.payload.len() + pending
    }

    /// The carried bytes followed by `data`.
    fn joined_with(&self, prefix: &[u8], data: &[u8]) -> (r: Vec<u8>)
        requires
            self.wf(prefix@),
        ensures
            r@ == self.carried(prefix@) + data@,
    {
        let mut r = copy_range(prefix, 0, self.introducer_seen);
        append_range(&mut r, self.payload.as_slice(), 0, self.payload.len());
        if self.esc_pending {
            r.push(ESC);
        }
        append_range(&mut r, data, 0, data.len());
        proof {
            assert(self.payload@.subrange(0, self.payload@.len() as int) =~= self.payload@);
            assert(data@.subrange(0, data@.len() as int) =~= data@);
            assert(r@ =~= self.carried(prefix@) + data@);
        }
        r
    }

    /// The state that carries `c`.
    fn from_carried(c: &Vec<u8>, prefix: &[u8]) -> (r: Self)
        requires
            carried_shape(c@, prefix@),
            prefix@.len() > 0,
        ensures
            r.wf(prefix@),
            r.carried(prefix@) == c@,
            r.is_ground() == (c@.len() == 0),
    {
        let n = c.len();
        let p = prefix.len();
        if n < p {
            let r = OscContinuation { introducer_seen: n, payload: Vec::new(), esc_pending: false };
            assert(r.carried(prefix@) =~= c@);
            r
        } else {
            let rest_len = n - p;
            let pending = rest_len > MAX_OSC_PAYLOAD;
            let end = if pending {
                n - 1
            } else {
                n
            };
            let payload = copy_range(c.as_slice(), p, end);
            let r = OscContinuation { introducer_seen: p, payload, esc_pending: pending };
            proof {
                let rest = c@.subrange(p as int, n as int);
                if pending {
                    assert(rest.last() == c@[n - 1]);
                }
                assert(prefix@.subrange(0, p as int) =~= prefix@);
                assert(r.carried(prefix@) =~= c@);
            }
            r
        }
    }
}

/// Runs one batch through a scanner for the introducer `prefix`, whose
/// state between batches is `cont`; returns the payloads completed in the
/// batch, left to right, and where each one's terminator starts in the
/// carried bytes followed by the batch.
pub fn scan_osc_payloads(data: &[u8], cont: &mut OscContinuation, prefix: &[u8]) -> (r: (Vec<Vec<u8>>, Vec<usize>))
    requires
        prefix@.len() > 0,
        prefix@[0] == ESC,
        old(cont).wf(prefix@),
    ensures
        payload_views(r.0@) == scan_batch(data@, old(cont).carried(prefix@), prefix@).0,
        int_views(r.1@) == payload_ends(old(cont).carried(prefix@) + data@, prefix@, 0),
        final(cont).wf(prefix@),
        final(cont).carried(prefix@) == scan_batch(data@, old(cont).carried(prefix@), prefix@).1,
        final(cont).buffered().len() <= MAX_OSC_PAYLOAD,
{
    let mut out: Vec<Vec<u8>> = Vec::new();
    let mut ends: Vec<usize> = Vec::new();
    proof {
        assert(payload_views(out@) =~= Seq::<Seq<u8>>::empty());
        assert(int_views(ends@) =~= Seq::<int>::empty());
    }
    let joined = if cont.is_empty() {
        proof {
            cont.lemma_ground(prefix@);
            assert(cont.carried(prefix@) + data@ =~= data@);
        }
        copy_range(data, 0, data.len())
    } else {
        cont.joined_with(prefix, data)
    };
    proof {
        assert(data@.subrange(0, data@.len() as int) =~= data@);
    }
    let carried = scan_ground_into(joined.as_slice(), prefix, 0, &mut out, &mut ends);
    proof {
        assert(payload_views(out@) =~= Seq::<Seq<u8>>::empty() + scan_ground(joined@, prefix@, 0).0);
        assert(int_views(ends@) =~= Seq::<int>::empty() + payload_ends(joined@, prefix@, 0));
        lemma_carried_shape(joined@, prefix@, 0);
    }
    *cont = OscContinuation::from_carried(&carried, prefix);
    (out, ends)
}

/// The introducer of OSC 7: `ESC ] 7 ;`.
pub open spec fn osc7_introducer() -> Seq<u8> {
    seq![ESC, 0x5du8, 0x37u8, 0x3bu8]
}

/// The introducer of OSC 9;4: `ESC ] 9 ; 4 ;`.
pub open spec fn osc94_introducer() -> Seq<u8> {
    seq![ESC, 0x5du8, 0x39u8, 0x3bu8, 0x34u8, 0x3bu8]
}

pub(crate) fn introducer_bytes(osc94: bool) -> (r: Vec<u8>)
    ensures
        r@ == if osc94 { osc94_introducer() } else { osc7_introducer() },
{
    let mut r: Vec<u8> = Vec::new();
    r.push(ESC);
    r.push(0x5d);
    if osc94 {
        r.push(0x39);
        r.push(0x3b);
        r.push(0x34);
        r.push(0x3b);
        assert(r@ =~= osc94_introducer());
    } else {
        r.push(0x37);
        r.push(0x3b);
        assert(r@ =~= osc7_introducer());
    }
    r
}

/// The directory URLs among `payloads`: those that are valid UTF-8, decoded,
/// in order.
pub open spec fn decoded_urls(payloads: Seq<Seq<u8>>) -> Seq<Seq<char>>
    decreases payloads.len(),
{
    if payloads.len() == 0 {
        seq![]
    } else {
        let earlier = decoded_urls(payloads.drop_last());
        if valid_utf8(payloads.last()) {
            earlier.push(decode_utf8(payloads.last()))
        } else {
            earlier
        }
    }
}

pub open spec fn string_views(v: Seq<String>) -> Seq<Seq<char>> {
    v.map_values(|s: String| s@)
}

/// Scans one batch for OSC 7 directory-change sequences; `partial` keeps
/// the state of a sequence split between batches. Returns the URLs completed in the batch.
pub fn scan_osc7(data: &[u8], partial: &mut OscContinuation) -> (r: Vec<String>)
    requires
        old(partial).wf(osc7_introducer()),
    ensures
        final(partial).wf(osc7_introducer()),
        final(partial).buffered().len() <= MAX_OSC_PAYLOAD,
        string_views(r@) == decoded_urls(scan_batch(data@, old(partial).carried(osc7_introducer()), osc7_introducer()).0),
        final(partial).carried(osc7_introducer()) == scan_batch(data@, old(partial).carried(osc7_introducer()), osc7_introducer()).1,
{
    let prefix = introducer_bytes(false);
    let (payloads, _) = scan_osc_payloads(data, partial, prefix.as_slice());
    let ghost ps = payload_views(payloads@);
    let mut urls: Vec<String> = Vec::new();
    let mut i: usize = 0;
    while i < payloads.len()
        invariant
            i <= payloads@.len(),
            ps == payload_views(payloads@),
            string_views(urls@) == decoded_urls(ps.subrange(0, i as int)),
        decreases payloads@.len() - i,
    {
        assert(ps.subrange(0, i + 1).drop_last() =~= ps.subrange(0, i as int));
        match utf8_to_string(payloads[i].as_slice()) {
            Some(url) => {
                let ghost before = urls@;
                urls.push(url);
                assert(string_views(urls@) =~= string_views(before).push(url@));
            },
            None => {},
        }
        i = i + 1;
    }
    assert(ps.subrange(0, ps.len() as int) =~= ps);
    urls
}

/// A parsed OSC 9;4 progress report.
#[derive(Clone, Copy, Debug, PartialEq, Eq)]
pub struct ProgressReport {
    /// 0 through 4.
    pub state: u8,
    /// The reported progress, or -1 when none was given.
    pub progress: i32,
}

pub open spec fn is_digit(b: u8) -> bool {
    0x30 <= b <= 0x39
}

/// The number that the decimal digits `s` spell.
pub open spec fn digits_value(s: Seq<u8>) -> int
    decreases s.len(),
{
    if s.len() == 0 {
        0
    } else {
        digits_value(s.drop_last()) * 10 + (s.last() - 0x30)
    }
}

/// One or more decimal digits, and what they spell.
pub open spec fn unsigned_decimal(s: Seq<u8>) -> Option<int> {
    if s.len() > 0 && forall|i: int| 0 <= i < s.len() ==> is_digit(#[trigger] s[i]) {
        Some(digits_value(s))
    } else {
        None
    }
}

/// An integer written in decimal: an optional `+` (or, when `signed`, `-`)
/// followed by one or more digits. No bound on the magnitude.
pub open spec fn decimal(s: Seq<u8>, signed: bool) -> Option<int> {
    if s.len() > 0 && s[0] == 0x2b {
        unsigned_decimal(s.subrange(1, s.len() as int))
    } else if signed && s.len() > 0 && s[0] == 0x2d {
        match unsigned_decimal(s.subrange(1, s.len() as int)) {
            Some(v) => Some(-v),
            None => None,
        }
    } else {
        unsigned_decimal(s)
    }
}

/// `s` read as an `i32` in decimal, as `str::parse::<i32>` reads it.
pub open spec fn decimal_i32(s: Seq<u8>, signed: bool) -> Option<i32> {
    match decimal(s, signed) {
        Some(v) => if i32::MIN <= v <= i32::MAX {
            Some(v as i32)
        } else {
            None
        },
        None => None,
    }
}

/// The index of the first `b` in `s` at or after `i`, or `s.len()`.
pub open spec fn find_byte_from(s: Seq<u8>, b: u8, i: nat) -> nat
    decreases s.len() - i,
{
    if i >= s.len() {
        s.len()
    } else if s[i as int] == b {
        i
    } else {
        find_byte_from(s, b, i + 1)
    }
}

pub const SEMICOLON: u8 = 0x3b;

/// The report that an OSC 9;4 payload `c` holds: `<state>` or
/// `<state>;<progress>` (fields after a second `;` are ignored). `state` is
/// 0 through 4; a missing or empty `progress` is -1. Anything else, or bytes
/// that are not UTF-8, hold no report.
pub open spec fn osc94_report(c: Seq<u8>) -> Option<ProgressReport> {
    let semi = find_byte_from(c, SEMICOLON, 0);
    let state = decimal(c.subrange(0, semi as int), false);
    if !valid_utf8(c) || state is None || state.unwrap() > 4 {
        None
    } else if semi >= c.len() {
        Some(ProgressReport { state: state.unwrap() as u8, progress: -1i32 })
    } else {
        let end = find_byte_from(c, SEMICOLON, semi + 1);
        let field = c.subrange(semi + 1 as int, end as int);
        if field.len() == 0 {
            Some(ProgressReport { state: state.unwrap() as u8, progress: -1i32 })
        } else {
            match decimal_i32(field, true) {
                Some(p) => Some(ProgressReport { state: state.unwrap() as u8, progress: p }),
                None => None,
            }
        }
    }
}

proof fn lemma_find_byte_from(s: Seq<u8>, b: u8, i: nat)
    ensures
        i <= s.len() ==> i <= find_byte_from(s, b, i) <= s.len(),
        find_byte_from(s, b, i) < s.len() ==> s[find_byte_from(s, b, i) as int] == b,
        forall|j: int| i <= j < find_byte_from(s, b, i) ==> s[j] != b,
    decreases s.len() - i,
{
    if i < s.len() && s[i as int] != b {
        lemma_find_byte_from(s, b, i + 1);
    }
}

proof fn lemma_digits_value_nonneg(s: Seq<u8>)
    requires
        forall|i: int| 0 <= i < s.len() ==> is_digit(#[trigger] s[i]),
    ensures
        digits_value(s) >= 0,
    decreases s.len(),
{
    if s.len() > 0 {
        lemma_digits_value_nonneg(s.drop_last());
    }
}

/// A longer run of digits spells at least as much as its start.
proof fn lemma_digits_value_grows(s: Seq<u8>, k: int)
    requires
        0 <= k <= s.len(),
        forall|i: int| 0 <= i < s.len() ==> is_digit(#[trigger] s[i]),
    ensures
        digits_value(s) >= digits_value(s.subrange(0, k)),
    decreases s.len(),
{
    if k < s.len() {
        lemma_digits_value_nonneg(s.drop_last());
        lemma_digits_value_grows(s.drop_last(), k);
        assert(s.drop_last().subrange(0, k) =~= s.subrange(0, k));
    } else {
        assert(s.subrange(0, k) =~= s);
    }
}

/// Without `-`, a decimal is never negative.
proof fn lemma_decimal_unsigned_nonneg(s: Seq<u8>)
    ensures
        decimal(s, false) is Some ==> decimal(s, false).unwrap() >= 0,
{
    if s.len() > 0 && s[0] == 0x2b {
        let t = s.subrange(1, s.len() as int);
        if unsigned_decimal(t) is Some {
            lemma_digits_value_nonneg(t);
        }
    } else if unsigned_decimal(s) is Some {
        lemma_digits_value_nonneg(s);
    }
}

/// Index of the first `b` in `s[from..]`, or `s.len()`.
fn find_byte(s: &[u8], b: u8, from: usize) -> (r: usize)
    requires
        from <= s@.len(),
    ensures
        r == find_byte_from(s@, b, from as nat),
{
    let mut i = from;
    while i < s.len()
        invariant
            from <= i <= s@.len(),
            find_byte_from(s@, b, i as nat) == find_byte_from(s@, b, from as nat),
        decreases s@.len() - i,
    {
        if s[i] == b {
            return i;
        }
        i = i + 1;
    }
    i
}

/// Reads `s[from..to]` as a decimal `i32`, with an optional sign (`-` only
/// when `signed`).
fn parse_decimal_i32(s: &[u8], from: usize, to: usize, signed: bool) -> (r: Option<i32>)
    requires
        from <= to <= s@.len(),
    ensures
        r == decimal_i32(s@.subrange(from as int, to as int), signed),
{
    let ghost f = s@.subrange(from as int, to as int);
    let mut negative = false;
    let mut begin = from;
    if from < to && s[from] == 0x2b {
        begin = from + 1;
    } else if signed && from < to && s[from] == 0x2d {
        negative = true;
        begin = from + 1;
    }
    let ghost digits = s@.subrange(begin as int, to as int);
    proof {
        if begin > from {
            assert(digits =~= f.subrange(1, f.len() as int));
            assert(f[0] == s@[from as int]);
        } else {
            assert(digits =~= f);
            if f.len() > 0 {
                assert(f[0] == s@[from as int]);
            }
        }
        assert(decimal(f, signed) == if negative {
            match unsigned_decimal(digits) {
                Some(v) => Some(-v),
                None => None,
            }
        } else {
            unsigned_decimal(digits)
        });
    }
    if begin == to {
        return None;
    }
    let limit: i64 = 0x8000_0000;
    let mut acc: i64 = 0;
    let mut i = begin;
    while i < to
        invariant
            begin <= i <= to <= s@.len(),
            digits == s@.subrange(begin as int, to as int),
            forall|j: int| begin <= j < i ==> is_digit(#[trigger] s@[j]),
            acc == digits_value(s@.subrange(begin as int, i as int)),
            0 <= acc <= limit,
            limit == 0x8000_0000,
            f == s@.subrange(from as int, to as int),
            decimal(f, signed) == if negative {
                match unsigned_decimal(digits) {
                    Some(v) => Some(-v),
                    None => None,
                }
            } else {
                unsigned_decimal(digits)
            },
        decreases to - i,
    {
        let c = s[i];
        if c < 0x30 || c > 0x39 {
            proof {
                assert(!is_digit(digits[i - begin]));
                assert(unsigned_decimal(digits) is None);
            }
            return None;
        }
        assert(s@.subrange(begin as int, i + 1).drop_last() =~= s@.subrange(begin as int, i as int));
        acc = acc * 10 + (c - 0x30) as i64;
        i = i + 1;
        if acc > limit {
            proof {
                assert(s@.subrange(begin as int, i as int) =~= digits.subrange(0, i - begin));
                if forall|j: int| 0 <= j < digits.len() ==> is_digit(#[trigger] digits[j]) {
                    lemma_digits_value_grows(digits, i - begin);
                    assert(digits_value(digits) > 0x8000_0000);
                    assert(unsigned_decimal(digits) == Some(digits_value(digits)));
                } else {
                    assert(unsigned_decimal(digits) is None);
                }
            }
            return None;
        }
    }
    assert(s@.subrange(begin as int, i as int) =~= digits);
    assert forall|j: int| 0 <= j < digits.len() implies is_digit(#[trigger] digits[j]) by {
        assert(digits[j] == s@[begin + j]);
    }
    if negative {
        Some((-acc) as i32)
    } else if acc <= 0x7fff_ffff {
        Some(acc as i32)
    } else {
        None
    }
}

/// Parses the payload of an OSC 9;4 sequence (what follows `ESC ] 9 ; 4 ;`).
pub fn parse_osc94_content(content: &[u8]) -> (r: Option<ProgressReport>)
    ensures
        r == osc94_report(content@),
{
    let c = content;
    if utf8_to_string(c).is_none() {
        return None;
    }
    let semi = find_byte(c, SEMICOLON, 0);
    proof {
        lemma_find_byte_from(c@, SEMICOLON, 0);
    }
    let state = match parse_decimal_i32(c, 0, semi, false) {
        Some(v) => v,
        None => {
            proof {
                let f = c@.subrange(0, semi as int);
                lemma_decimal_unsigned_nonneg(f);
                assert(decimal_i32(f, false) is None);
                assert(decimal(f, false) is None || decimal(f, false).unwrap() > 4);
            }
            return None;
        },
    };
    proof {
        lemma_decimal_unsigned_nonneg(c@.subrange(0, semi as int));
    }
    if state < 0 || state > 4 {
        return None;
    }
    if semi >= c.len() {
        return Some(ProgressReport { state: state as u8, progress: -1i32 });
    }
    let end = find_byte(c, SEMICOLON, semi + 1);
    proof {
        lemma_find_byte_from(c@, SEMICOLON, (semi + 1) as nat);
    }
    if end == semi + 1 {
        return Some(ProgressReport { state: state as u8, progress: -1i32 });
    }
    match parse_decimal_i32(c, semi + 1, end, true) {
        Some(p) => Some(ProgressReport { state: state as u8, progress: p }),
        None => None,
    }
}

/// The progress reports among `payloads`, in order.
pub open spec fn reports_of(payloads: Seq<Seq<u8>>) -> Seq<ProgressReport>
    decreases payloads.len(),
{
    if payloads.len() == 0 {
        seq![]
    } else {
        let earlier = reports_of(payloads.drop_last());
        match osc94_report(payloads.last()) {
            Some(rep) => earlier.push(rep),
            None => earlier,
        }
    }
}

/// Scans one batch for OSC 9;4 progress reports; `partial` keeps the state
/// of a sequence split between batches. Returns the reports completed in the
/// batch.
pub fn scan_osc94(data: &[u8], partial: &mut OscContinuation) -> (r: Vec<ProgressReport>)
    requires
        old(partial).wf(osc94_introducer()),
    ensures
        final(partial).wf(osc94_introducer()),
        final(partial).buffered().len() <= MAX_OSC_PAYLOAD,
        r@ == reports_of(scan_batch(data@, old(partial).carried(osc94_introducer()), osc94_introducer()).0),
        final(partial).carried(osc94_introducer()) == scan_batch(data@, old(partial).carried(osc94_introducer()), osc94_introducer()).1,
{
    let prefix = introducer_bytes(true);
    let (payloads, _) = scan_osc_payloads(data, partial, prefix.as_slice());
    let ghost ps = payload_views(payloads@);
    let mut reports: Vec<ProgressReport> = Vec::new();
    let mut i: usize = 0;
    while i < payloads.len()
        invariant
            i <= payloads@.len(),
            ps == payload_views(payloads@),
            reports@ == reports_of(ps.subrange(0, i as int)),
        decreases payloads@.len() - i,
    {
        assert(ps.subrange(0, i + 1).drop_last() =~= ps.subrange(0, i as int));
        match parse_osc94_content(payloads[i].as_slice()) {
            Some(rep) => reports.push(rep),
            None => {},
        }
        i = i + 1;
    }
    assert(ps.subrange(0, ps.len() as int) =~= ps);
    reports
}

/// No terminator among positions `i..k` leaves the search where it was.
proof fn lemma_first_terminator_skip(d: Seq<u8>, i: int, k: int)
    requires
        0 <= i <= k <= d.len(),
        k <= MAX_OSC_PAYLOAD + 1,
        forall|j: int| i <= j < k ==> !is_terminator_at(d, j),
    ensures
        first_terminator_from(d, i) == first_terminator_from(d, k),
    decreases k - i,
{
    if i < k {
        lemma_first_terminator_skip(d, i + 1, k);
    }
}

/// Bytes that cannot occur inside a payload that a terminator ends cleanly.
pub open spec fn is_plain_payload(s: Seq<u8>) -> bool {
    forall|j: int| 0 <= j < s.len() ==> #[trigger] s[j] != BEL && s[j] != ESC
}

/// A whole sequence `pre`, payload of `n` plain bytes, terminator, at `pos`:
/// the scanner emits the payload and goes on after the terminator.
proof fn lemma_complete_at(d: Seq<u8>, pre: Seq<u8>, pos: int, n: int, st: bool)
    requires
        pre.len() > 0,
        has_prefix_at(d, pos, pre),
        0 <= n <= MAX_OSC_PAYLOAD,
        pos + pre.len() + n + (if st { 2int } else { 1int }) <= d.len(),
        forall|j: int| pos + pre.len() <= j < pos + pre.len() + n ==> #[trigger] d[j] != BEL && d[j] != ESC,
        if st {
            d[pos + pre.len() + n] == ESC && d[pos + pre.len() + n + 1] == BACKSLASH
        } else {
            d[pos + pre.len() + n] == BEL
        },
    ensures
        ({
            let start = pos + pre.len();
            let next = start + n + if st { 2int } else { 1int };
            scan_ground(d, pre, pos) == (seq![d.subrange(start, start + n)] + scan_ground(d, pre, next).0,
            scan_ground(d, pre, next).1)
        }),
{
    let start = pos + pre.len();
    let rest = d.subrange(start, d.len() as int);
    assert forall|j: int| 0 <= j < n implies !is_terminator_at(rest, j) by {
        assert(rest[j] == d[start + j]);
    }
    lemma_first_terminator_skip(rest, 0, n);
    assert(rest[n] == d[start + n]);
    if st {
        assert(rest[n + 1] == d[start + n + 1]);
    }
    assert(is_terminator_at(rest, n));
    assert(rest.subrange(0, n) =~= d.subrange(start, start + n));
}

/// The bytes of an OSC 7 sequence for `url`, ended by ESC \\ when `st`,
/// else by BEL.
pub open spec fn osc7_sequence(url: Seq<u8>, st: bool) -> Seq<u8> {
    osc7_introducer() + url + if st {
        seq![ESC, BACKSLASH]
    } else {
        seq![BEL]
    }
}

/// OSC 7 ended by BEL and OSC 7 ended by ESC \\ give the same result for a
/// URL of plain bytes: exactly that URL when it fits in `MAX_OSC_PAYLOAD`,
/// nothing when it does not, and nothing carried over either way.
pub proof fn lemma_osc7_bel_and_st_agree(url: Seq<u8>)
    requires
        is_plain_payload(url),
    ensures
        scan_batch(osc7_sequence(url, false), seq![], osc7_introducer()) == scan_batch(
            osc7_sequence(url, true),
            seq![],
            osc7_introducer(),
        ),
        scan_batch(osc7_sequence(url, false), seq![], osc7_introducer()) == if url.len()
            <= MAX_OSC_PAYLOAD {
            (seq![url], Seq::<u8>::empty())
        } else {
            (Seq::<Seq<u8>>::empty(), Seq::<u8>::empty())
        },
{
    let pre = osc7_introducer();
    let d1 = osc7_sequence(url, false);
    let d2 = osc7_sequence(url, true);
    assert(Seq::<u8>::empty() + d1 =~= d1);
    assert(Seq::<u8>::empty() + d2 =~= d2);
    let n = url.len() as int;
    assert(d1.subrange(0, 4) =~= pre);
    assert(d2.subrange(0, 4) =~= pre);
    lemma_scan_ground_end(d1, pre);
    lemma_scan_ground_end(d2, pre);
    if n <= MAX_OSC_PAYLOAD {
        assert(d1.subrange(4, 4 + n) =~= url);
        assert(d2.subrange(4, 4 + n) =~= url);
        lemma_complete_at(d1, pre, 0, n, false);
        lemma_complete_at(d2, pre, 0, n, true);
        assert(seq![url] + Seq::<Seq<u8>>::empty() =~= seq![url]);
    } else {
        let r1 = d1.subrange(4, d1.len() as int);
        let r2 = d2.subrange(4, d2.len() as int);
        assert forall|j: int| 0 <= j < MAX_OSC_PAYLOAD + 1 implies !is_terminator_at(r1, j) && !is_terminator_at(
            r2,
            j,
        ) by {
            assert(r1[j] == url[j]);
            assert(r2[j] == url[j]);
        }
        lemma_first_terminator_skip(r1, 0, MAX_OSC_PAYLOAD + 1);
        lemma_first_terminator_skip(r2, 0, MAX_OSC_PAYLOAD + 1);
        assert forall|j: int| 4 <= j < 4 + n implies d1[j] != ESC && d2[j] != ESC by {
            assert(d1[j] == url[j - 4]);
            assert(d2[j] == url[j - 4]);
        }
        lemma_skip_plain(d1, pre, 4, 4 + n + 1);
        lemma_skip_plain(d2, pre, 4, 4 + n);
        assert(!has_prefix_at(d2, 4 + n, pre));
        assert(d2.subrange(4 + n, d2.len() as int)[1] != pre.subrange(0, 2)[1]);
        assert(!has_partial_prefix_at(d2, 4 + n, pre));
        assert(d2[4 + n + 1] != ESC);
        lemma_skip_plain(d2, pre, 4 + n + 1, 4 + n + 2);
    }
}

/// An OSC 7 split between two batches at any byte, inside the introducer,
/// inside the URL, or between the ESC and the backslash of ESC \\: the first
/// batch emits nothing and carries what it has, the second emits exactly the
/// URL and carries nothing.
pub proof fn lemma_osc7_split_across_batches(url: Seq<u8>, st: bool, k: int)
    requires
        is_plain_payload(url),
        url.len() <= MAX_OSC_PAYLOAD,
        1 <= k < osc7_sequence(url, st).len(),
    ensures
        ({
            let whole = osc7_sequence(url, st);
            let a = whole.subrange(0, k);
            let b = whole.subrange(k, whole.len() as int);
            &&& scan_batch(a, seq![], osc7_introducer()) == (Seq::<Seq<u8>>::empty(), a)
            &&& scan_batch(b, a, osc7_introducer()) == (seq![url], Seq::<u8>::empty())
        }),
{
    let pre = osc7_introducer();
    let whole = osc7_sequence(url, st);
    let a = whole.subrange(0, k);
    let b = whole.subrange(k, whole.len() as int);
    let n = url.len() as int;
    assert(Seq::<u8>::empty() + a =~= a);
    assert(a + b =~= whole);
    if k < 4 {
        assert(a.subrange(0, a.len() as int) =~= pre.subrange(0, k));
        assert(has_partial_prefix_at(a, 0, pre));
        assert(a.subrange(0, a.len() as int) =~= a);
    } else {
        assert(a.subrange(0, 4) =~= pre);
        let rest = a.subrange(4, a.len() as int);
        assert forall|j: int| 0 <= j < rest.len() implies !is_terminator_at(rest, j) by {
            assert(rest[j] == whole[4 + j]);
            if j < n {
                assert(whole[4 + j] == url[j]);
            } else {
                assert(j == n && st && j + 1 == rest.len());
            }
        }
        lemma_first_terminator_skip(rest, 0, rest.len() as int);
        if rest.len() > n {
            assert(rest.last() == ESC);
        }
        assert(may_still_end(rest));
        assert(a.subrange(0, a.len() as int) =~= a);
    }
    assert(whole.subrange(0, 4) =~= pre);
    assert forall|j: int| 4 <= j < 4 + n implies #[trigger] whole[j] != BEL && whole[j] != ESC by {
        assert(whole[j] == url[j - 4]);
    }
    assert(whole.subrange(4, 4 + n) =~= url);
    lemma_complete_at(whole, pre, 0, n, st);
    lemma_scan_ground_end(whole, pre);
    assert(seq![url] + Seq::<Seq<u8>>::empty() =~= seq![url]);
}

/// The bytes of a sequence with introducer `pre` and payload `payload`,
/// ended by BEL.
pub open spec fn bel_sequence(pre: Seq<u8>, payload: Seq<u8>) -> Seq<u8> {
    pre + payload + seq![BEL]
}

/// A sequence whose payload exceeds `MAX_OSC_PAYLOAD` is dropped, and a
/// sequence that follows it, after any bytes without ESC, is still found;
/// for either introducer (or any that starts with ESC and holds no other
/// ESC).
#[verifier::rlimit(50)]
pub proof fn lemma_oversized_payload_dropped(pre: Seq<u8>, big: Seq<u8>, mid: Seq<u8>, payload: Seq<u8>)
    requires
        pre.len() > 0,
        pre[0] == ESC,
        forall|j: int| 1 <= j < pre.len() ==> #[trigger] pre[j] != ESC,
        is_plain_payload(big),
        big.len() > MAX_OSC_PAYLOAD,
        forall|j: int| 0 <= j < mid.len() ==> #[trigger] mid[j] != ESC,
        is_plain_payload(payload),
        payload.len() <= MAX_OSC_PAYLOAD,
    ensures
        scan_batch(bel_sequence(pre, big) + mid + bel_sequence(pre, payload), seq![], pre) == (seq![payload], Seq::<
            u8,
        >::empty()),
{
    let d = bel_sequence(pre, big) + mid + bel_sequence(pre, payload);
    let n = pre.len() as int;
    assert(Seq::<u8>::empty() + d =~= d);
    let p2: int = n + big.len() as int + 1 + mid.len() as int;
    assert(d.subrange(0, n) =~= pre);
    let rest = d.subrange(n, d.len() as int);
    assert forall|j: int| 0 <= j < MAX_OSC_PAYLOAD + 1 implies !is_terminator_at(rest, j) by {
        assert(rest[j] == big[j]);
    }
    lemma_first_terminator_skip(rest, 0, MAX_OSC_PAYLOAD + 1);
    assert(!may_still_end(rest));
    assert forall|j: int| n <= j < p2 implies d[j] != ESC by {
        if j < n + big.len() {
            assert(d[j] == big[j - n]);
        } else if j > n + big.len() {
            assert(d[j] == mid[j - n - 1 - big.len()]);
        }
    }
    lemma_skip_plain(d, pre, n, p2);
    assert(d.subrange(p2, p2 + n) =~= pre);
    assert(d.subrange(p2 + n, p2 + n + payload.len() as int) =~= payload);
    lemma_complete_at(d, pre, p2, payload.len() as int, false);
    lemma_scan_ground_end(d, pre);
    assert(seq![payload] + Seq::<Seq<u8>>::empty() =~= seq![payload]);
}

/// An OSC 7 whose URL exceeds `MAX_OSC_PAYLOAD` is dropped, and an OSC 7
/// that follows it, after any bytes without ESC, is still found.
pub proof fn lemma_oversized_osc7_dropped(big: Seq<u8>, mid: Seq<u8>, url: Seq<u8>)
    requires
        is_plain_payload(big),
        big.len() > MAX_OSC_PAYLOAD,
        forall|j: int| 0 <= j < mid.len() ==> #[trigger] mid[j] != ESC,
        is_plain_payload(url),
        url.len() <= MAX_OSC_PAYLOAD,
    ensures
        scan_batch(
            osc7_sequence(big, false) + mid + osc7_sequence(url, false),
            seq![],
            osc7_introducer(),
        ) == (seq![url], Seq::<u8>::empty()),
{
    let pre = osc7_introducer();
    assert(osc7_sequence(big, false) == bel_sequence(pre, big));
    assert(osc7_sequence(url, false) == bel_sequence(pre, url));
    lemma_oversized_payload_dropped(pre, big, mid, url);
}

/// The same for OSC 9;4: an oversized payload is dropped and the report
/// that follows is still found.
pub proof fn lemma_oversized_osc94_dropped(big: Seq<u8>, mid: Seq<u8>, content: Seq<u8>)
    requires
        is_plain_payload(big),
        big.len() > MAX_OSC_PAYLOAD,
        forall|j: int| 0 <= j < mid.len() ==> #[trigger] mid[j] != ESC,
        is_plain_payload(content),
        content.len() <= MAX_OSC_PAYLOAD,
    ensures
        scan_batch(
            bel_sequence(osc94_introducer(), big) + mid + bel_sequence(osc94_introducer(), content),
            seq![],
            osc94_introducer(),
        ) == (seq![content], Seq::<u8>::empty()),
{
    lemma_oversized_payload_dropped(osc94_introducer(), big, mid, content);
}

proof fn lemma_ground_bounded(d: Seq<u8>, pre: Seq<u8>, pos: int)
    ensures
        scan_ground(d, pre, pos).1.len() <= pre.len() + MAX_OSC_PAYLOAD + 1,
        forall|i: int|
            0 <= i < scan_ground(d, pre, pos).0.len() ==> (#[trigger] scan_ground(d, pre, pos).0[i]).len()
                <= MAX_OSC_PAYLOAD,
    decreases d.len() - pos,
{
    if pos >= 0 && pos < d.len() {
        if pre.len() > 0 && has_prefix_at(d, pos, pre) {
            let start = pos + pre.len();
            let rest = d.subrange(start, d.len() as int);
            lemma_osc_terminator(rest);
            match osc_terminator(rest) {
                Some((end, len)) => {
                    let next = start + end + len;
                    if next > pos && next <= d.len() {
                        lemma_ground_bounded(d, pre, next);
                        let more = scan_ground(d, pre, next);
                        assert forall|i: int| 0 <= i < scan_ground(d, pre, pos).0.len() implies (
                        #[trigger] scan_ground(d, pre, pos).0[i]).len() <= MAX_OSC_PAYLOAD by {
                            if i > 0 {
                                assert(scan_ground(d, pre, pos).0[i] == more.0[i - 1]);
                            }
                        }
                    }
                },
                None => {
                    if !may_still_end(rest) {
                        lemma_ground_bounded(d, pre, start);
                    }
                },
            }
        } else if !(pre.len() > 0 && has_partial_prefix_at(d, pos, pre)) {
            lemma_ground_bounded(d, pre, pos + 1);
        }
    }
}

/// Whatever the stream, a scanner never emits a payload longer than
/// `MAX_OSC_PAYLOAD`, and what it carries to the next batch is at most the
/// introducer, `MAX_OSC_PAYLOAD` bytes and the ESC of a split ESC \\.
pub proof fn lemma_continuation_bounded(d: Seq<u8>, partial: Seq<u8>, pre: Seq<u8>)
    ensures
        scan_batch(d, partial, pre).1.len() <= pre.len() + MAX_OSC_PAYLOAD + 1,
        forall|i: int|
            0 <= i < scan_batch(d, partial, pre).0.len() ==> (#[trigger] scan_batch(d, partial, pre).0[i]).len()
                <= MAX_OSC_PAYLOAD,
{
    lemma_ground_bounded(partial + d, pre, 0);
}

/// An OSC 9;4 payload whose state is above 4 holds no report.
pub proof fn lemma_osc94_state_out_of_range(c: Seq<u8>)
    requires
        ({
            let state = decimal(c.subrange(0, find_byte_from(c, SEMICOLON, 0) as int), false);
            state is Some && state.unwrap() > 4
        }),
    ensures
        osc94_report(c) is None,
{
}

} // verus!
