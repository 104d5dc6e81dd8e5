//! Simulator driver.
//!
//! Replays the records of a trace, in file order, against a classifier.
//! A sub-sampling stride picks every `trace_skip + 1`-th record; the time
//! span of the processed records is reported at the end.

use vstd::prelude::*;
use crate::hemem::{spec_handle, Config, HeMem, HeMemError, SimState};
use crate::pin_trace::Record;

verus! {

/// One trace record handed to a classifier.
#[derive(Clone, Copy, Debug, PartialEq, Eq, Structural)]
pub struct Trace {
    /// The record that originated this trace.
    pub record: Record,
}

/// A classifier consumes trace records one at a time.
pub trait Classifier {
    /// Whether the classifier is ready to take another record.
    spec fn inv(&self) -> bool;

    /// Handles one trace record.
    fn handle_trace(&mut self, trace: Trace) -> (r: Result<(), HeMemError>)
        requires
            old(self).inv(),
    ;
}

impl Classifier for HeMem {
    open spec fn inv(&self) -> bool {
        self.wf() && self.st().clock < u64::MAX
    }

    fn handle_trace(&mut self, trace: Trace) -> (r: Result<(), HeMemError>) {
        self.handle_trace(trace)
    }
}

/// The classifier state and first error after replaying `records` from
/// index `i` on, stepping by `step`.
pub open spec fn spec_replay(
    s: SimState,
    c: Config,
    records: Seq<Record>,
    i: int,
    step: int,
) -> (SimState, Result<(), HeMemError>)
    decreases records.len() - i,
{
    if step < 1 || i < 0 || i >= records.len() {
        (s, Ok(()))
    } else {
        let stepped = spec_handle(s, c, records[i]);
        if stepped.1 is Err {
            stepped
        } else if i + step <= records.len() {
            spec_replay(stepped.0, c, records, i + step, step)
        } else {
            (stepped.0, Ok(()))
        }
    }
}

/// The timestamp of the last record selected from index `i` on, stepping
/// by `step`; `cur` when none is.
pub open spec fn selected_last_time(records: Seq<Record>, i: int, step: int, cur: u64) -> u64
    decreases records.len() - i,
{
    if step < 1 || i < 0 || i >= records.len() {
        cur
    } else if i + step <= records.len() {
        selected_last_time(records, i + step, step, records[i].time)
    } else {
        records[i].time
    }
}

/// The half-open time span `[first, last + 1)` of the selected records,
/// or `None` for an empty trace.
pub open spec fn spec_time_span(records: Seq<Record>, step: int) -> Option<(u64, u64)> {
    if records.len() == 0 {
        None
    } else {
        Some((records[0].time, (selected_last_time(records, 0, step, 0) + 1) as u64))
    }
}

/// Law: when the input records' timestamps are non-decreasing, so are the
/// timestamps of the journalled accesses after a replay, provided the
/// journal already respected the order and ended no later than the input
/// starts.
pub proof fn lemma_replay_access_times_sorted(
    s: SimState,
    c: Config,
    rs: Seq<Record>,
    i: int,
    step: int,
)
    requires
        forall|a: int, b: int| 0 <= a <= b < rs.len() ==> (#[trigger] rs[a]).time <= (#[trigger] rs[b]).time,
        forall|a: int, b: int|
            0 <= a <= b < s.accesses.len() ==> (#[trigger] s.accesses[a]).time <= (
            #[trigger] s.accesses[b]).time,
        forall|a: int, j: int|
            0 <= a < s.accesses.len() && i <= j < rs.len() ==> (#[trigger] s.accesses[a]).time
                <= (#[trigger] rs[j]).time,
    ensures
        ({
            let f = spec_replay(s, c, rs, i, step).0.accesses;
            forall|a: int, b: int|
                0 <= a <= b < f.len() ==> (#[trigger] f[a]).time <= (#[trigger] f[b]).time
        }),
    decreases rs.len() - i,
{
    if step < 1 || i < 0 || i >= rs.len() {
    } else {
        let stepped = crate::hemem::spec_handle(s, c, rs[i]);
        crate::hemem::lemma_handle_journal(s, c, rs[i]);
        if stepped.1 is Err {
        } else {
            let s2 = stepped.0;
            assert forall|a: int, b: int| 0 <= a <= b < s2.accesses.len() implies (
            #[trigger] s2.accesses[a]).time <= (#[trigger] s2.accesses[b]).time by {
                if b == s2.accesses.len() - 1 && a < b {
                    assert(s2.accesses[a] == s.accesses[a]);
                    assert(s.accesses[a].time <= rs[i].time);
                }
            }
            assert forall|a: int, j: int|
                0 <= a < s2.accesses.len() && i + step <= j < rs.len() implies (
            #[trigger] s2.accesses[a]).time <= (#[trigger] rs[j]).time by {
                if a < s2.accesses.len() - 1 {
                    assert(s2.accesses[a] == s.accesses[a]);
                }
                assert(rs[i].time <= rs[j].time);
            }
            if i + step <= rs.len() {
                lemma_replay_access_times_sorted(s2, c, rs, i + step, step);
            }
        }
    }
}

/// Law: a replay is a function of the starting state, the configuration,
/// the records and the stride: two runs over identical inputs leave
/// identical classifier states and journals, which is what makes the
/// output snapshot of a run byte-deterministic.
pub proof fn lemma_replay_deterministic(
    s1: SimState,
    s2: SimState,
    c1: Config,
    c2: Config,
    rs1: Seq<Record>,
    rs2: Seq<Record>,
    step1: int,
    step2: int,
)
    requires
        s1 == s2,
        c1 == c2,
        rs1 == rs2,
        step1 == step2,
    ensures
        spec_replay(s1, c1, rs1, 0, step1) == spec_replay(s2, c2, rs2, 0, step2),
{
}

/// What a finished run reports: the half-open time span of the processed
/// records, or `None` when none was processed.
#[derive(Clone, Copy, Debug, PartialEq, Eq)]
pub struct RunOutput {
    /// Time span `[start, end)` of the processed records.
    pub time_span: Option<(u64, u64)>,
}

/// The simulator driver: replays every `trace_skip + 1`-th record of a
/// trace against a classifier.
pub struct Simulator {
    /// How many records are skipped after each processed one; `0` means
    /// every record is processed.
    trace_skip: usize,
    /// Wall-clock period of progress reports, in nanoseconds. Reporting
    /// itself is wall-clock driven and sits outside the replay core.
    debug_output_period_nanos: u64,
}

impl Simulator {
    /// The configured sub-sampling stride.
    pub closed spec fn spec_trace_skip(&self) -> int {
        self.trace_skip as int
    }

    /// Creates a simulator with the given stride and reporting period.
    pub fn new(trace_skip: usize, debug_output_period_nanos: u64) -> (r: Simulator)
        ensures
            r.spec_trace_skip() == trace_skip,
    {
        Simulator { trace_skip, debug_output_period_nanos }
    }

    /// Replays `records` against the classifier, in file order, stepping by
    /// `trace_skip + 1`. Returns the time span of the processed records, or
    /// the classifier's error on the record that caused it, with all
    /// records before it processed.
    pub fn run(&mut self, records: &Vec<Record>, classifier: &mut HeMem) -> (r: Result<
        RunOutput,
        HeMemError,
    >)
        requires
            old(classifier).wf(),
            old(classifier).st().clock + records@.len() <= u64::MAX,
            old(self).spec_trace_skip() < usize::MAX,
            forall|i: int| 0 <= i < records@.len() ==> (#[trigger] records@[i]).time < u64::MAX,
        ensures
            final(classifier).wf(),
            final(classifier).spec_config() == old(classifier).spec_config(),
            ({
                let stepped = spec_replay(
                    old(classifier).st(),
                    old(classifier).spec_config(),
                    records@,
                    0,
                    old(self).spec_trace_skip() + 1,
                );
                final(classifier).st() == stepped.0 && (match stepped.1 {
                    Ok(()) => r == Result::<RunOutput, HeMemError>::Ok(
                        (RunOutput {
                            time_span: spec_time_span(records@, old(self).spec_trace_skip() + 1),
                        }),
                    ),
                    Err(e) => r == Result::<RunOutput, HeMemError>::Err(e),
                })
            }),
    {
        let ghost s0 = classifier.st();
        let ghost cfg = classifier.spec_config();
        let ghost rs = records@;
        let step = self.trace_skip + 1;
        let n = records.len();
        if n == 0 {
            return Ok(RunOutput { time_span: None });
        }
        let mut last_time: u64 = 0;
        let mut i: usize = 0;
        while i < n
            invariant
                classifier.wf(),
                classifier.spec_config() == cfg,
                s0 == old(classifier).st(),
                cfg == old(classifier).spec_config(),
                rs == records@,
                n == rs.len(),
                n > 0,
                1 <= step,
                step == old(self).spec_trace_skip() + 1,
                0 <= i <= n,
                s0.clock + n <= u64::MAX,
                classifier.st().clock <= s0.clock + i,
                forall|j: int| 0 <= j < rs.len() ==> (#[trigger] rs[j]).time < u64::MAX,
                spec_replay(s0, cfg, rs, 0, step as int) == spec_replay(
                    classifier.st(),
                    cfg,
                    rs,
                    i as int,
                    step as int,
                ),
                selected_last_time(rs, 0, step as int, 0) == selected_last_time(
                    rs,
                    i as int,
                    step as int,
                    last_time,
                ),
                i > 0 ==> last_time < u64::MAX,
            decreases n - i,
        {
            let rec = records[i];
            let ghost st_pre = classifier.st();
            match classifier.handle_trace(Trace { record: rec }) {
                Ok(()) => {},
                Err(e) => {
                    proof {
                        assert(spec_replay(st_pre, cfg, rs, i as int, step as int) == (
                        classifier.st(),
                        Result::<(), HeMemError>::Err(e),
                        ));
                    }
                    return Err(e);
                },
            }
            last_time = rec.time;
            proof {
                assert(spec_replay(st_pre, cfg, rs, i as int, step as int) == spec_replay(
                    classifier.st(),
                    cfg,
                    rs,
                    i + step,
                    step as int,
                ));
                assert(selected_last_time(rs, i as int, step as int, 0) == selected_last_time(
                    rs,
                    i + step,
                    step as int,
                    rec.time,
                ));
            }
            if n - i <= step {
                proof {
                    assert(spec_replay(classifier.st(), cfg, rs, i + step, step as int) == (
                    classifier.st(),
                    Result::<(), HeMemError>::Ok(()),
                    ));
                    assert(spec_replay(classifier.st(), cfg, rs, n as int, step as int) == (
                    classifier.st(),
                    Result::<(), HeMemError>::Ok(()),
                    ));
                    assert(selected_last_time(rs, i + step, step as int, rec.time) == rec.time);
                    assert(selected_last_time(rs, n as int, step as int, rec.time) == rec.time);
                }
                i = n;
            } else {
                i = i + step;
            }
        }
        Ok(RunOutput { time_span: Some((records[0].time, last_time + 1)) })
    }
}

} // verus!
