//! Replay planning: which records to send, in what order, after what delay;
//! and the `channel=port` mappings that select the channels.

use vstd::prelude::*;
use crate::log_format::{lemma_min_timestamp_is_min, min_timestamp, timestamps, CaptureLog, PacketRecordView};
use crate::sorting::{is_stable_order, stable_order};
use crate::text::str_eq;

verus! {

/// The text of `s` as `{:?}` formats a string: quoted and escaped.
pub uninterp spec fn debug_quoted(s: Seq<char>) -> Seq<char>;

/// `format!("{:?}", s)` (std): the string quoted and escaped as Rust's
/// `Debug` writes it; the result is named by [`debug_quoted`].
#[verifier::external_body]
fn debug_str(s: &str) -> (r: String)
    ensures
        r@ == debug_quoted(s@),
{
    format!("{:?}", s)
}

/// Why the `channel=port` mappings are refused.
#[derive(Debug, Clone, PartialEq, Eq)]
pub enum ReplayError {
    /// A value that is not `channel=port` with both parts non-empty.
    InvalidMapping(String),
    /// A channel mapped twice.
    DuplicateMapping(String),
}

pub enum MappingFault {
    InvalidMapping(Seq<char>),
    DuplicateMapping(Seq<char>),
}

impl ReplayError {
    pub open spec fn fault(&self) -> MappingFault {
        match self {
            ReplayError::InvalidMapping(v) => MappingFault::InvalidMapping(v@),
            ReplayError::DuplicateMapping(c) => MappingFault::DuplicateMapping(c@),
        }
    }

    /// The error's text, as the command line prints it.
    pub fn message(&self) -> (r: String)
        ensures
            r@ == match self.fault() {
                MappingFault::InvalidMapping(v) => "invalid --map value "@ + debug_quoted(v)
                    + ", expected channel=port"@,
                MappingFault::DuplicateMapping(c) => "duplicate replay mapping for channel "@ + c,
            },
    {
        match self {
            ReplayError::InvalidMapping(v) => {
                let mut s = String::from_str("invalid --map value ");
                s.append(debug_str(v.as_str()).as_str());
                s.append(", expected channel=port");
                s
            },
            ReplayError::DuplicateMapping(c) => {
                let mut s = String::from_str("duplicate replay mapping for channel ");
                s.append(c.as_str());
                s
            },
        }
    }
}

/// The index of the first `=` in `s` at or after `i`.
pub open spec fn first_equals(s: Seq<char>, i: nat) -> Option<nat>
    decreases s.len() - i,
{
    if i >= s.len() {
        None
    } else if s[i as int] == '=' {
        Some(i)
    } else {
        first_equals(s, i + 1)
    }
}

/// `channel=port` split at its first `=`, when both parts are non-empty.
pub open spec fn split_mapping(v: Seq<char>) -> Option<(Seq<char>, Seq<char>)> {
    match first_equals(v, 0) {
        None => None,
        Some(i) => if i == 0 || i + 1 == v.len() {
            None
        } else {
            Some((v.take(i as int), v.skip((i + 1) as int)))
        },
    }
}

/// The mappings in the order given, or the first value that is refused.
pub open spec fn parse_mappings(vs: Seq<Seq<char>>) -> Result<Seq<(Seq<char>, Seq<char>)>, MappingFault>
    decreases vs.len(),
{
    if vs.len() == 0 {
        Ok(Seq::empty())
    } else {
        match parse_mappings(vs.drop_last()) {
            Err(f) => Err(f),
            Ok(ms) => match split_mapping(vs.last()) {
                None => Err(MappingFault::InvalidMapping(vs.last())),
                Some((c, p)) => if exists|i: int| 0 <= i < ms.len() && (#[trigger] ms[i]).0 == c {
                    Err(MappingFault::DuplicateMapping(c))
                } else {
                    Ok(ms.push((c, p)))
                },
            },
        }
    }
}

proof fn lemma_parse_mappings_err_stays(vs: Seq<Seq<char>>, n: nat)
    requires
        n <= vs.len(),
        parse_mappings(vs.take(n as int)) is Err,
    ensures
        parse_mappings(vs) == parse_mappings(vs.take(n as int)),
    decreases vs.len() - n,
{
    if n < vs.len() {
        assert(vs.take((n + 1) as int).drop_last() =~= vs.take(n as int));
        lemma_parse_mappings_err_stays(vs, n + 1);
    } else {
        assert(vs.take(n as int) =~= vs);
    }
}

/// Splits one `channel=port` value.
fn split_value(value: &str) -> (r: Option<(String, String)>)
    ensures
        match split_mapping(value@) {
            None => r is None,
            Some((c, p)) => r matches Some(pair) && pair.0@ == c && pair.1@ == p,
        },
{
    let n = value.unicode_len();
    let mut i: usize = 0;
    while i < n
        invariant
            n == value@.len(),
            i <= n,
            first_equals(value@, 0) == first_equals(value@, i as nat),
        decreases n - i,
    {
        if value.get_char(i) == '=' {
            if i == 0 || i + 1 == n {
                return None;
            }
            let channel = value.substring_char(0, i);
            let port = value.substring_char(i + 1, n);
            return Some((String::from_str(channel), String::from_str(port)));
        }
        i = i + 1;
    }
    None
}

/// Parses `channel=port` values: each splits at its first `=` into a
/// non-empty channel name and a non-empty port, and no channel is mapped
/// twice. The mappings keep the order given.
pub fn parse_channel_mappings(values: &[String]) -> (r: Result<Vec<(String, String)>, ReplayError>)
    ensures
        ({
            let vs = values@.map_values(|v: String| v@);
            match parse_mappings(vs) {
                Ok(ms) => r matches Ok(out) && out@.map_values(|m: (String, String)| (m.0@, m.1@))
                    == ms,
                Err(f) => r matches Err(e) && e.fault() == f,
            }
        }),
{
    let ghost vs = values@.map_values(|v: String| v@);
    let mut out: Vec<(String, String)> = Vec::new();
    let mut k: usize = 0;
    assert(vs.take(0) =~= Seq::<Seq<char>>::empty());
    assert(out@.map_values(|m: (String, String)| (m.0@, m.1@)) =~= Seq::<(Seq<char>, Seq<char>)>::empty());
    while k < values.len()
        invariant
            vs == values@.map_values(|v: String| v@),
            k <= values@.len(),
            parse_mappings(vs.take(k as int)) == Ok::<Seq<(Seq<char>, Seq<char>)>, MappingFault>(
                out@.map_values(|m: (String, String)| (m.0@, m.1@)),
            ),
        decreases values@.len() - k,
    {
        let ghost ms = out@.map_values(|m: (String, String)| (m.0@, m.1@));
        let value = &values[k];
        assert(vs.take(k + 1).drop_last() =~= vs.take(k as int));
        assert(vs.take(k + 1).last() == value@);
        match split_value(value.as_str()) {
            None => {
                proof {
                    lemma_parse_mappings_err_stays(vs, (k + 1) as nat);
                }
                return Err(ReplayError::InvalidMapping(value.clone()));
            },
            Some((channel, port)) => {
                let mut j: usize = 0;
                while j < out.len()
                    invariant
                        j <= out@.len(),
                        k < values@.len(),
                        vs == values@.map_values(|v: String| v@),
                        vs.take(k + 1).drop_last() == vs.take(k as int),
                        vs.take(k + 1).last() == value@,
                        parse_mappings(vs.take(k as int)) == Ok::<Seq<(Seq<char>, Seq<char>)>, MappingFault>(ms),
                        split_mapping(value@) == Some((channel@, port@)),
                        ms == out@.map_values(|m: (String, String)| (m.0@, m.1@)),
                        forall|i: int| 0 <= i < j ==> (#[trigger] ms[i]).0 != channel@,
                    decreases out@.len() - j,
                {
                    assert(ms[j as int].0 == out@[j as int].0@);
                    if str_eq(out[j].0.as_str(), channel.as_str()) {
                        proof {
                            assert(ms[j as int].0 == channel@);
                            lemma_parse_mappings_err_stays(vs, (k + 1) as nat);
                        }
                        return Err(ReplayError::DuplicateMapping(channel));
                    }
                    j = j + 1;
                }
                let ghost c = channel@;
                let ghost p = port@;
                out.push((channel, port));
                assert(out@.map_values(|m: (String, String)| (m.0@, m.1@)) =~= ms.push((c, p)));
            },
        }
        k = k + 1;
    }
    assert(vs.take(values@.len() as int) =~= vs);
    Ok(out)
}

/// Which records belong to one of the selected channels.
pub open spec fn selected_mask(rs: Seq<PacketRecordView>, selected: Seq<u16>) -> Seq<bool> {
    rs.map_values(|r: PacketRecordView| selected.contains(r.channel_id))
}

/// The records of the selected channels, as indices into the log, in
/// timestamp order; records with equal timestamps keep their log order.
pub fn selected_order(log: &CaptureLog, selected: &[u16]) -> (order: Vec<usize>)
    ensures
        is_stable_order(timestamps(log@.records), selected_mask(log@.records, selected@), order@),
{
    let ghost rs = log@.records;
    let mut keys: Vec<u64> = Vec::new();
    let mut chosen: Vec<bool> = Vec::new();
    let mut i: usize = 0;
    while i < log.records.len()
        invariant
            rs == log@.records,
            i <= rs.len(),
            keys@ == timestamps(rs).take(i as int),
            chosen@ == selected_mask(rs, selected@).take(i as int),
        decreases rs.len() - i,
    {
        let record = &log.records[i];
        assert(rs[i as int] == record@);
        keys.push(record.timestamp_unix_ns);
        let mut hit = false;
        let mut j: usize = 0;
        while j < selected.len()
            invariant
                j <= selected@.len(),
                hit == exists|m: int| 0 <= m < j && selected@[m] == record.channel_id,
            decreases selected@.len() - j,
        {
            if selected[j] == record.channel_id {
                hit = true;
            }
            j = j + 1;
        }
        assert(hit == selected@.contains(record.channel_id));
        chosen.push(hit);
        assert(keys@ =~= timestamps(rs).take(i + 1));
        assert(chosen@ =~= selected_mask(rs, selected@).take(i + 1));
        i = i + 1;
    }
    assert(timestamps(rs).take(rs.len() as int) =~= timestamps(rs));
    assert(selected_mask(rs, selected@).take(rs.len() as int) =~= selected_mask(rs, selected@));
    stable_order(&keys, &chosen)
}

/// One send of a replay: wait `delay_ns`, then write the packet of record
/// `record_index`.
#[derive(Debug, Clone, Copy, PartialEq, Eq, Structural)]
pub struct ReplayStep {
    pub record_index: usize,
    pub delay_ns: u64,
}

/// Time from `a` to `b`, or zero when `b` is not later.
pub open spec fn gap(a: u64, b: u64) -> u64 {
    if b > a {
        (b - a) as u64
    } else {
        0
    }
}

/// Distance between two timestamps.
pub open spec fn abs_diff(a: u64, b: u64) -> u64 {
    if a >= b {
        (a - b) as u64
    } else {
        (b - a) as u64
    }
}

/// The first of `ts` that is closest to `target`.
pub open spec fn nearest(ts: Seq<u64>, target: u64) -> Option<u64>
    decreases ts.len(),
{
    if ts.len() == 0 {
        None
    } else {
        match nearest(ts.drop_last(), target) {
            None => Some(ts.last()),
            Some(best) => if abs_diff(ts.last(), target) < abs_diff(best, target) {
                Some(ts.last())
            } else {
                Some(best)
            },
        }
    }
}

/// Timestamps of the records that `order` lists, in that order.
pub open spec fn ordered_timestamps(rs: Seq<PacketRecordView>, order: Seq<usize>) -> Seq<u64> {
    order.map_values(|i: usize| rs[i as int].timestamp_unix_ns)
}

/// Where the replay's clock starts: the listed timestamp nearest to the
/// requested start, or else the first timestamp of the whole log (0 for a
/// log without records).
pub open spec fn replay_start(rs: Seq<PacketRecordView>, order: Seq<usize>, from_ns: Option<u64>) -> u64 {
    let default = match min_timestamp(rs) {
        Some(t) => t,
        None => 0,
    };
    match from_ns {
        Some(t) => match nearest(ordered_timestamps(rs, order), t) {
            Some(n) => n,
            None => default,
        },
        None => default,
    }
}

/// Where the replay stops: the listed timestamp nearest to the requested
/// end, if one is requested.
pub open spec fn replay_end(rs: Seq<PacketRecordView>, order: Seq<usize>, to_ns: Option<u64>) -> Option<u64> {
    match to_ns {
        Some(t) => match nearest(ordered_timestamps(rs, order), t) {
            Some(n) => Some(n),
            None => Some(t),
        },
        None => None,
    }
}

/// A timestamp within the replay window.
pub open spec fn in_window(t: u64, start: u64, end: Option<u64>) -> bool {
    t >= start && match end {
        Some(e) => t <= e,
        None => true,
    }
}

/// The steps of a replay: the listed records within the window, in the
/// listed order; the first waits from the start of the window, each other
/// from the record before it.
pub open spec fn replay_steps(rs: Seq<PacketRecordView>, order: Seq<usize>, start: u64, end: Option<u64>) -> Seq<ReplayStep>
    decreases order.len(),
{
    if order.len() == 0 {
        Seq::empty()
    } else {
        let prev = replay_steps(rs, order.drop_last(), start, end);
        let idx = order.last();
        let t = rs[idx as int].timestamp_unix_ns;
        if in_window(t, start, end) {
            let delay = if prev.len() == 0 {
                gap(start, t)
            } else {
                gap(rs[prev.last().record_index as int].timestamp_unix_ns, t)
            };
            prev.push(ReplayStep { record_index: idx, delay_ns: delay })
        } else {
            prev
        }
    }
}

fn nearest_timestamp(log: &CaptureLog, order: &Vec<usize>, target: u64) -> (r: Option<u64>)
    requires
        forall|i: int| 0 <= i < order@.len() ==> (#[trigger] order@[i]) < log@.records.len(),
    ensures
        r == nearest(ordered_timestamps(log@.records, order@), target),
{
    let ghost ts = ordered_timestamps(log@.records, order@);
    let mut best: Option<u64> = None;
    let mut i: usize = 0;
    while i < order.len()
        invariant
            ts == ordered_timestamps(log@.records, order@),
            forall|i: int| 0 <= i < order@.len() ==> (#[trigger] order@[i]) < log@.records.len(),
            i <= order@.len(),
            best == nearest(ts.take(i as int), target),
        decreases order@.len() - i,
    {
        let idx = order[i];
        let t = log.records[idx].timestamp_unix_ns;
        assert(log@.records[idx as int] == log.records@[idx as int]@);
        assert(ts.take(i + 1).drop_last() =~= ts.take(i as int));
        assert(ts.take(i + 1).last() == t);
        let d = if t >= target { t - target } else { target - t };
        best = match best {
            None => Some(t),
            Some(b) => {
                let db = if b >= target { b - target } else { target - b };
                if d < db {
                    Some(t)
                } else {
                    Some(b)
                }
            },
        };
        i = i + 1;
    }
    assert(ts.take(order@.len() as int) =~= ts);
    best
}

/// The replay of the records that `order` lists (see [`replay_steps`]),
/// with the window taken from the requested start and end, in nanoseconds.
pub fn schedule_replay(log: &CaptureLog, order: &Vec<usize>, from_ns: Option<u64>, to_ns: Option<u64>) -> (steps: Vec<ReplayStep>)
    requires
        forall|i: int| 0 <= i < order@.len() ==> (#[trigger] order@[i]) < log@.records.len(),
    ensures
        steps@ == replay_steps(
            log@.records,
            order@,
            replay_start(log@.records, order@, from_ns),
            replay_end(log@.records, order@, to_ns),
        ),
{
    let ghost rs = log@.records;
    let default_start = match log.first_timestamp() {
        Some(t) => t,
        None => 0,
    };
    let start = match from_ns {
        Some(t) => match nearest_timestamp(log, order, t) {
            Some(n) => n,
            None => default_start,
        },
        None => default_start,
    };
    let end = match to_ns {
        Some(t) => match nearest_timestamp(log, order, t) {
            Some(n) => Some(n),
            None => Some(t),
        },
        None => None,
    };
    let mut steps: Vec<ReplayStep> = Vec::new();
    let mut previous: u64 = start;
    let mut i: usize = 0;
    while i < order.len()
        invariant
            rs == log@.records,
            forall|i: int| 0 <= i < order@.len() ==> (#[trigger] order@[i]) < log@.records.len(),
            i <= order@.len(),
            steps@ == replay_steps(rs, order@.take(i as int), start, end),
            steps@.len() == 0 ==> previous == start,
            steps@.len() > 0 ==> previous == rs[steps@.last().record_index as int].timestamp_unix_ns,
        decreases order@.len() - i,
    {
        let idx = order[i];
        let t = log.records[idx].timestamp_unix_ns;
        assert(rs[idx as int] == log.records@[idx as int]@);
        assert(order@.take(i + 1).drop_last() =~= order@.take(i as int));
        assert(order@.take(i + 1).last() == idx);
        let inside = t >= start && match end {
            Some(e) => t <= e,
            None => true,
        };
        if inside {
            let delay = if t > previous { t - previous } else { 0 };
            steps.push(ReplayStep { record_index: idx, delay_ns: delay });
            previous = t;
        }
        i = i + 1;
    }
    assert(order@.take(order@.len() as int) =~= order@);
    steps
}


/// Sum of the delays of the steps.
pub open spec fn total_delay(steps: Seq<ReplayStep>) -> nat
    decreases steps.len(),
{
    if steps.len() == 0 {
        0
    } else {
        total_delay(steps.drop_last()) + steps.last().delay_ns as nat
    }
}

proof fn lemma_steps_come_from_order(rs: Seq<PacketRecordView>, order: Seq<usize>, start: u64, end: Option<u64>)
    ensures
        ({
            let steps = replay_steps(rs, order, start, end);
            &&& steps.len() <= order.len()
            &&& forall|k: int| 0 <= k < steps.len() ==> exists|j: int|
                0 <= j < order.len() && (#[trigger] steps[k]).record_index == order[j]
            &&& forall|k: int|
                0 <= k < steps.len() ==> in_window(
                    rs[(#[trigger] steps[k]).record_index as int].timestamp_unix_ns,
                    start,
                    end,
                )
            &&& forall|j: int|
                0 <= j < order.len() && in_window(rs[order[j] as int].timestamp_unix_ns, start, end)
                    ==> exists|k: int| 0 <= k < steps.len() && (#[trigger] steps[k]).record_index == order[j]
        }),
    decreases order.len(),
{
    if order.len() > 0 {
        let init = order.drop_last();
        lemma_steps_come_from_order(rs, init, start, end);
        let prev = replay_steps(rs, init, start, end);
        let steps = replay_steps(rs, order, start, end);
        assert forall|k: int| 0 <= k < steps.len() implies exists|j: int|
            0 <= j < order.len() && (#[trigger] steps[k]).record_index == order[j] by {
            if k < prev.len() {
                assert(steps[k] == prev[k]);
                let j = choose|j: int| 0 <= j < init.len() && prev[k].record_index == init[j];
                assert(order[j] == init[j]);
            } else {
                assert(steps[k].record_index == order[order.len() - 1]);
            }
        }
        assert forall|k: int|
            0 <= k < steps.len() implies in_window(
            rs[(#[trigger] steps[k]).record_index as int].timestamp_unix_ns,
            start,
            end,
        ) by {
            if k < prev.len() {
                assert(steps[k] == prev[k]);
            }
        }
        assert forall|j: int|
            0 <= j < order.len() && in_window(rs[order[j] as int].timestamp_unix_ns, start, end)
            implies exists|k: int| 0 <= k < steps.len() && (#[trigger] steps[k]).record_index == order[j] by {
            if j < init.len() {
                assert(order[j] == init[j]);
                let k = choose|k: int| 0 <= k < prev.len() && (#[trigger] prev[k]).record_index == init[j];
                assert(steps[k] == prev[k]);
            } else {
                assert(steps[steps.len() - 1].record_index == order[j]);
            }
        }
    }
}

/// The listed records are in timestamp order.
pub open spec fn in_time_order(rs: Seq<PacketRecordView>, order: Seq<usize>) -> bool {
    forall|i: int, j: int|
        0 <= i < j < order.len() ==> rs[order[i] as int].timestamp_unix_ns <= rs[order[j] as int].timestamp_unix_ns
}

#[verifier::spinoff_prover]
proof fn lemma_delay_at(rs: Seq<PacketRecordView>, order: Seq<usize>, start: u64, end: Option<u64>, k: int)
    requires
        in_time_order(rs, order),
        0 <= k < replay_steps(rs, order, start, end).len(),
    ensures
        start + total_delay(replay_steps(rs, order, start, end).take(k + 1))
            == rs[replay_steps(rs, order, start, end)[k].record_index as int].timestamp_unix_ns,
    decreases order.len(),
{
    let init = order.drop_last();
    assert(in_time_order(rs, init)) by {
        assert forall|i: int, j: int| 0 <= i < j < init.len() implies rs[init[i] as int].timestamp_unix_ns
            <= rs[init[j] as int].timestamp_unix_ns by {
            assert(init[i] == order[i] && init[j] == order[j]);
        }
    }
    let prev = replay_steps(rs, init, start, end);
    let steps = replay_steps(rs, order, start, end);
    if k < prev.len() {
        assert(steps.take(k + 1) =~= prev.take(k + 1));
        assert(steps[k] == prev[k]);
        lemma_delay_at(rs, init, start, end, k);
    } else {
        let idx = order.last();
        let t = rs[idx as int].timestamp_unix_ns;
        assert(in_window(t, start, end));
        assert(steps.len() == prev.len() + 1);
        assert(k == prev.len());
        assert(steps[k].record_index == idx);
        assert(steps.take(k + 1) =~= steps);
        assert(steps.drop_last() =~= prev);
        assert(total_delay(steps) == total_delay(prev) + steps.last().delay_ns);
        assert(steps.last() == steps[k]);
        if prev.len() == 0 {
            assert(total_delay(prev) == 0);
            assert(steps[k].delay_ns == gap(start, t));
        } else {
            let last = prev.len() - 1;
            assert(steps[k].delay_ns == gap(rs[prev.last().record_index as int].timestamp_unix_ns, t));
            lemma_delay_at(rs, init, start, end, last);
            assert(prev.take(last + 1) =~= prev);
            lemma_steps_come_from_order(rs, init, start, end);
            assert(exists|j: int| 0 <= j < init.len() && (#[trigger] prev[last]).record_index == init[j]);
            let j = choose|j: int| 0 <= j < init.len() && (#[trigger] prev[last]).record_index == init[j];
            assert(init[j] == order[j]);
            assert(rs[order[j] as int].timestamp_unix_ns <= rs[order[order.len() - 1] as int].timestamp_unix_ns);
        }
    }
}

/// Replay keeps the capture's time axis: the records it sends are exactly
/// the listed records inside the window, each sent once, and the delays up
/// to and including any step add up to the time from the start of the
/// window to that step's record (for a list in timestamp order, as
/// [`selected_order`] gives).
pub proof fn lemma_replay_keeps_timing(rs: Seq<PacketRecordView>, order: Seq<usize>, start: u64, end: Option<u64>)
    requires
        in_time_order(rs, order),
    ensures
        ({
            let steps = replay_steps(rs, order, start, end);
            &&& forall|k: int|
                0 <= k < steps.len() ==> start + total_delay(#[trigger] steps.take(k + 1))
                    == rs[steps[k].record_index as int].timestamp_unix_ns
            &&& forall|k: int|
                0 <= k < steps.len() ==> in_window(
                    rs[(#[trigger] steps[k]).record_index as int].timestamp_unix_ns,
                    start,
                    end,
                )
            &&& forall|j: int|
                0 <= j < order.len() && in_window(rs[order[j] as int].timestamp_unix_ns, start, end)
                    ==> exists|k: int| 0 <= k < steps.len() && (#[trigger] steps[k]).record_index == order[j]
            &&& forall|k: int| 0 <= k < steps.len() ==> exists|j: int|
                0 <= j < order.len() && (#[trigger] steps[k]).record_index == order[j]
        }),
{
    lemma_steps_come_from_order(rs, order, start, end);
    let steps = replay_steps(rs, order, start, end);
    assert forall|k: int|
        0 <= k < steps.len() implies start + total_delay(#[trigger] steps.take(k + 1))
        == rs[steps[k].record_index as int].timestamp_unix_ns by {
        lemma_delay_at(rs, order, start, end, k);
    }
}


/// The order that [`selected_order`] gives lists only records of selected
/// channels, every one of them, in timestamp order.
pub proof fn lemma_selected_order(rs: Seq<PacketRecordView>, selected: Seq<u16>, order: Seq<usize>)
    requires
        is_stable_order(timestamps(rs), selected_mask(rs, selected), order),
    ensures
        in_time_order(rs, order),
        forall|i: int| 0 <= i < order.len() ==> selected.contains(rs[(#[trigger] order[i]) as int].channel_id),
        forall|r: int| 0 <= r < rs.len() && selected.contains(#[trigger] rs[r].channel_id) ==> exists|i: int|
            0 <= i < order.len() && order[i] == r,
{
    assert forall|i: int, j: int| 0 <= i < j < order.len() implies rs[order[i] as int].timestamp_unix_ns
        <= rs[order[j] as int].timestamp_unix_ns by {
        assert(crate::sorting::key_before(timestamps(rs), order[i] as int, order[j] as int));
    }
    assert forall|i: int| 0 <= i < order.len() implies selected.contains(rs[(#[trigger] order[i]) as int].channel_id) by {
        assert(selected_mask(rs, selected)[order[i] as int]);
    }
    assert forall|r: int| 0 <= r < rs.len() && selected.contains(#[trigger] rs[r].channel_id) implies exists|i: int|
        0 <= i < order.len() && order[i] == r by {
        assert(selected_mask(rs, selected)[r]);
    }
}

/// The first of `ts` closest to `target` is what [`nearest`] picks.
proof fn lemma_nearest_first_closest(ts: Seq<u64>, target: u64) -> (k: int)
    requires
        ts.len() > 0,
    ensures
        0 <= k < ts.len(),
        nearest(ts, target) == Some(ts[k]),
        forall|j: int|
            0 <= j < ts.len() ==> (if ts[k] >= target { ts[k] - target } else { target - ts[k] })
                <= (if ts[j] >= target { ts[j] - target } else { target - ts[j] }),
        forall|j: int|
            0 <= j < k ==> (if ts[j] >= target { ts[j] - target } else { target - ts[j] }) > (if ts[k]
                >= target { ts[k] - target } else { target - ts[k] }),
    decreases ts.len(),
{
    let init = ts.drop_last();
    if init.len() == 0 {
        0
    } else {
        let k0 = lemma_nearest_first_closest(init, target);
        assert(forall|j: int| 0 <= j < init.len() ==> init[j] == ts[j]);
        let last = ts.len() - 1;
        if abs_diff(ts[last], target) < abs_diff(init[k0], target) {
            last
        } else {
            k0
        }
    }
}

/// A requested start or end of a replay of a non-empty list of records is
/// moved to the timestamp of a listed record: one at least as close to the
/// request as every other listed record, and the first such in the list.
/// Every listed record whose timestamp lies from that start up to that end
/// is sent.
pub proof fn lemma_window_snaps_to_nearest(
    rs: Seq<PacketRecordView>,
    order: Seq<usize>,
    from_ns: Option<u64>,
    to_ns: Option<u64>,
)
    requires
        order.len() > 0,
        forall|i: int| 0 <= i < order.len() ==> (#[trigger] order[i]) < rs.len(),
    ensures
        ({
            let ts = ordered_timestamps(rs, order);
            let start = replay_start(rs, order, from_ns);
            let end = replay_end(rs, order, to_ns);
            &&& forall|t: u64|
                to_ns == Some(t) ==> exists|k: int|
                    0 <= k < order.len() && end == Some(#[trigger] ts[k]) && (forall|j: int|
                        0 <= j < order.len() ==> (if ts[k] >= t { ts[k] - t } else { t - ts[k] })
                            <= (if ts[j] >= t { ts[j] - t } else { t - ts[j] })) && (forall|j: int|
                        0 <= j < k ==> (if ts[j] >= t { ts[j] - t } else { t - ts[j] }) > (if ts[k]
                            >= t { ts[k] - t } else { t - ts[k] }))
            &&& forall|t: u64|
                from_ns == Some(t) ==> exists|k: int|
                    0 <= k < order.len() && start == #[trigger] ts[k] && (forall|j: int|
                        0 <= j < order.len() ==> (if ts[k] >= t { ts[k] - t } else { t - ts[k] })
                            <= (if ts[j] >= t { ts[j] - t } else { t - ts[j] })) && (forall|j: int|
                        0 <= j < k ==> (if ts[j] >= t { ts[j] - t } else { t - ts[j] }) > (if ts[k]
                            >= t { ts[k] - t } else { t - ts[k] }))
            &&& to_ns is None ==> end is None
            &&& from_ns is None ==> (exists|i: int|
                0 <= i < rs.len() && start == #[trigger] rs[i].timestamp_unix_ns) && (forall|i: int|
                0 <= i < rs.len() ==> start <= #[trigger] rs[i].timestamp_unix_ns)
            &&& forall|s: int|
                0 <= s < replay_steps(rs, order, start, end).len() ==> {
                    let t = rs[(#[trigger] replay_steps(rs, order, start, end)[s]).record_index as int].timestamp_unix_ns;
                    &&& start <= t
                    &&& forall|e: u64| end == Some(e) ==> t <= e
                }
            &&& forall|j: int|
                0 <= j < order.len() && start <= rs[order[j] as int].timestamp_unix_ns && (forall|
                    e: u64,
                | end == Some(e) ==> rs[order[j] as int].timestamp_unix_ns <= e) ==> exists|s: int|
                    0 <= s < replay_steps(rs, order, start, end).len() && (#[trigger] replay_steps(
                        rs,
                        order,
                        start,
                        end,
                    )[s]).record_index == order[j]
        }),
{
    let ts = ordered_timestamps(rs, order);
    let start = replay_start(rs, order, from_ns);
    let end = replay_end(rs, order, to_ns);
    assert(ts.len() == order.len());
    if let Some(t) = to_ns {
        let k = lemma_nearest_first_closest(ts, t);
        assert(end == Some(ts[k]));
    }
    if let Some(t) = from_ns {
        let k = lemma_nearest_first_closest(ts, t);
        assert(start == ts[k]);
    }
    lemma_min_timestamp_is_min(rs);
    assert(rs.len() > 0) by {
        assert(order[0] < rs.len());
    }
    lemma_steps_come_from_order(rs, order, start, end);
    assert forall|j: int|
        0 <= j < order.len() && start <= rs[order[j] as int].timestamp_unix_ns && (forall|e: u64|
            end == Some(e) ==> rs[order[j] as int].timestamp_unix_ns <= e) implies in_window(
        rs[order[j] as int].timestamp_unix_ns,
        start,
        end,
    ) by {
        if let Some(e) = end {
            assert(rs[order[j] as int].timestamp_unix_ns <= e);
        }
    }
}

} // verus!
