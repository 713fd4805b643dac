//! Blocks of uninterrupted work.

use crate::clock;
use crate::clock::{nanos_since, parse_rfc3339, Instant};
use crate::lists;
use crate::order;
use crate::order::Order;
use crate::session;
use crate::session::{RawSession, SessionView};
use crate::text;
use crate::text::{same_text, text_at_or_before};
use vstd::prelude::*;

verus! {

// ---------------------------------------------------------------------------
// The span of a session
// ---------------------------------------------------------------------------

/// A span that reaches to `x` too.
pub open spec fn extended(span: Option<(Instant, Instant)>, x: Instant) -> (Instant, Instant) {
    match span {
        None => (x, x),
        Some((start, end)) => (
            if start.leq(x) {
                start
            } else {
                x
            },
            if x.leq(end) {
                end
            } else {
                x
            },
        ),
    }
}

/// The first and the last of some instants; `None` where there are none.
pub open spec fn span_of(instants: Seq<Instant>) -> Option<(Instant, Instant)>
    decreases instants.len(),
{
    if instants.len() == 0 {
        None
    } else {
        Some(extended(span_of(instants.drop_last()), instants.last()))
    }
}

/// Extends `span` so that it reaches to `at` too.
pub fn extend_span(span: Option<(Instant, Instant)>, at: Instant) -> (wider: (Instant, Instant))
    requires
        span matches Some(s) ==> s.0.leq(s.1),
    ensures
        wider == extended(span, at),
        wider.0.leq(wider.1),
{
    match span {
        None => (at, at),
        Some((start, end)) => {
            if at.is_before(&start) {
                (at, end)
            } else if end.is_before(&at) {
                (start, at)
            } else {
                (start, end)
            }
        },
    }
}

/// The instants that the timestamps name; `None` where one of them is no RFC 3339 time.
pub open spec fn instants_of(timestamps: Seq<Seq<char>>) -> Option<Seq<Instant>> {
    if forall|i: int|
        0 <= i < timestamps.len() ==> clock::rfc3339_instant(#[trigger] timestamps[i]) is Some {
        Some(timestamps.map_values(|t: Seq<char>| clock::rfc3339_instant(t)->0))
    } else {
        None
    }
}

/// The first and the last instant of a session. A session with a timestamp that cannot be read has
/// none, and neither has one without timestamps.
pub open spec fn session_span(session: SessionView) -> Option<(Instant, Instant)> {
    match instants_of(session::timestamps(session)) {
        Some(instants) => span_of(instants),
        None => None,
    }
}

/// Reads `timestamp` and extends the span of the timestamps `seen` by it; `None` where it cannot be
/// read.
fn widen_span(
    span: Option<(Instant, Instant)>,
    timestamp: &str,
    Ghost(seen): Ghost<Seq<Seq<char>>>,
) -> (wider: Option<(Instant, Instant)>)
    requires
        instants_of(seen) matches Some(instants) && span == span_of(instants),
        span matches Some(s) ==> s.0.in_calendar() && s.1.in_calendar() && s.0.leq(s.1),
    ensures
        match wider {
            Some(s) => {
                &&& instants_of(seen.push(timestamp@)) matches Some(instants)
                &&& wider == span_of(instants)
                &&& s.0.in_calendar()
                &&& s.1.in_calendar()
                &&& s.0.leq(s.1)
            },
            None => clock::rfc3339_instant(timestamp@) is None,
        },
{
    let ghost all = seen.push(timestamp@);
    match parse_rfc3339(timestamp) {
        None => None,
        Some(parsed) => {
            proof {
                assert forall|i: int| 0 <= i < all.len() implies clock::rfc3339_instant(
                    #[trigger] all[i],
                ) is Some by {
                    if i < seen.len() {
                        assert(all[i] == seen[i]);
                    }
                }
                assert(instants_of(all)->0.drop_last() =~= instants_of(seen)->0);
                assert(instants_of(all)->0.last() == parsed);
            }
            Some(extend_span(span, parsed))
        },
    }
}

/// The first and the last instant of `session`.
pub fn parsed_session_range(session: &RawSession) -> (span: Option<(Instant, Instant)>)
    ensures
        span == session_span(session.deep_view()),
        span matches Some(s) ==> s.0.in_calendar() && s.1.in_calendar() && s.0.leq(s.1),
{
    let ghost all = session::timestamps(session.deep_view());
    let ghost prompts = session.deep_view().prompts;
    let ghost turns = session.deep_view().turns;
    let mut span: Option<(Instant, Instant)> = None;
    let mut i: usize = 0;
    assert(instants_of(all.take(0))->0 =~= Seq::<Instant>::empty());
    while i < session.user_entries.len()
        invariant
            i <= session.user_entries.len(),
            all == session::timestamps(session.deep_view()),
            instants_of(all.take(i as int)) matches Some(instants) && span == span_of(instants),
            span matches Some(s) ==> s.0.in_calendar() && s.1.in_calendar() && s.0.leq(s.1),
        decreases session.user_entries.len() - i,
    {
        let timestamp: &str = session.user_entries[i].timestamp.as_str();
        proof {
            assert(session.deep_view().prompts[i as int].timestamp == timestamp@);
            assert(all[i as int] == timestamp@);
            assert(all.take(i as int).push(timestamp@) =~= all.take(i + 1));
        }
        match widen_span(span, timestamp, Ghost(all.take(i as int))) {
            Some(wider) => {
                span = Some(wider);
            },
            None => {
                return None;
            },
        }
        i = i + 1;
    }
    let mut j: usize = 0;
    while j < session.assistant_entries.len()
        invariant
            i == session.user_entries.len(),
            j <= session.assistant_entries.len(),
            all == session::timestamps(session.deep_view()),
            instants_of(all.take(i + j)) matches Some(instants) && span == span_of(instants),
            span matches Some(s) ==> s.0.in_calendar() && s.1.in_calendar() && s.0.leq(s.1),
        decreases session.assistant_entries.len() - j,
    {
        let timestamp: &str = session.assistant_entries[j].timestamp.as_str();
        proof {
            assert(session.deep_view().turns[j as int].timestamp == timestamp@);
            assert(all[i + j] == timestamp@);
            assert(all.take(i + j).push(timestamp@) =~= all.take(i + j + 1));
        }
        match widen_span(span, timestamp, Ghost(all.take(i + j))) {
            Some(wider) => {
                span = Some(wider);
            },
            None => {
                return None;
            },
        }
        j = j + 1;
    }
    assert(all.take(i + j) =~= all);
    span
}

// ---------------------------------------------------------------------------
// Intervals
// ---------------------------------------------------------------------------

/// The span of a session, with its project and its name.
pub struct FocusInterval<'a> {
    pub start: Instant,
    pub end: Instant,
    pub project: &'a str,
    pub session_id: &'a str,
}

/// The span of a session, with its project and its name.
pub struct IntervalView {
    pub start: Instant,
    pub end: Instant,
    pub project: Seq<char>,
    pub session_id: Seq<char>,
}

impl<'a> DeepView for FocusInterval<'a> {
    type V = IntervalView;

    open spec fn deep_view(&self) -> IntervalView {
        IntervalView {
            start: self.start,
            end: self.end,
            project: self.project@,
            session_id: self.session_id@,
        }
    }
}

/// The span of a session that has one.
pub open spec fn interval_of(session: SessionView) -> IntervalView {
    let span = session_span(session)->0;
    IntervalView {
        start: span.0,
        end: span.1,
        project: session.project,
        session_id: session.session_id,
    }
}

/// The spans of the sessions that have one.
pub open spec fn intervals_of(sessions: Seq<SessionView>) -> Seq<IntervalView>
    decreases sessions.len(),
{
    if sessions.len() == 0 {
        Seq::empty()
    } else if session_span(sessions.last()) is Some {
        intervals_of(sessions.drop_last()).push(interval_of(sessions.last()))
    } else {
        intervals_of(sessions.drop_last())
    }
}

/// Intervals by their start; those with one start by the name of the session.
pub struct ByStart;

impl<'a> Order<FocusInterval<'a>> for ByStart {
    open spec fn leq(a: IntervalView, b: IntervalView) -> bool {
        !b.start.leq(a.start) || (a.start == b.start && text::text_leq(a.session_id, b.session_id))
    }

    fn at_or_before(a: &FocusInterval<'a>, b: &FocusInterval<'a>) -> (answer: bool) {
        a.start.is_before(&b.start) || (a.start == b.start && text_at_or_before(
            a.session_id,
            b.session_id,
        ))
    }

    proof fn total(a: IntervalView, b: IntervalView) {
        text::text_leq_total(a.session_id, b.session_id);
    }

    proof fn transitive(a: IntervalView, b: IntervalView, c: IntervalView) {
        if a.start == b.start && b.start == c.start {
            text::text_leq_transitive(a.session_id, b.session_id, c.session_id);
        }
    }
}

/// The intervals by their start.
pub open spec fn by_start(intervals: Seq<IntervalView>) -> Seq<IntervalView> {
    order::sorted(intervals, order::order_of::<FocusInterval<'static>, ByStart>())
}

/// The intervals of the sessions, by their start.
pub open spec fn ordered_intervals(sessions: Seq<SessionView>) -> Seq<IntervalView> {
    by_start(intervals_of(sessions))
}

/// Whether both ends of all intervals are in the calendar.
pub open spec fn in_calendar(intervals: Seq<IntervalView>) -> bool {
    forall|i: int|
        0 <= i < intervals.len() ==> (#[trigger] intervals[i]).start.in_calendar()
            && intervals[i].end.in_calendar()
}

/// Whether no interval ends before it starts.
pub open spec fn run_forward(intervals: Seq<IntervalView>) -> bool {
    forall|i: int|
        0 <= i < intervals.len() ==> (#[trigger] intervals[i]).start.leq(intervals[i].end)
}

/// The intervals of `sessions`.
fn collect_intervals<'a>(sessions: &'a Vec<RawSession>) -> (intervals: Vec<FocusInterval<'a>>)
    ensures
        intervals.deep_view() == intervals_of(sessions.deep_view()),
        in_calendar(intervals.deep_view()),
        run_forward(intervals.deep_view()),
{
    let ghost all = sessions.deep_view();
    let mut intervals: Vec<FocusInterval<'a>> = Vec::new();
    let mut i: usize = 0;
    assert(intervals.deep_view() =~= intervals_of(all.take(0)));
    while i < sessions.len()
        invariant
            i <= sessions.len(),
            all == sessions.deep_view(),
            intervals.deep_view() == intervals_of(all.take(i as int)),
            in_calendar(intervals.deep_view()),
            run_forward(intervals.deep_view()),
        decreases sessions.len() - i,
    {
        let ghost before = intervals.deep_view();
        let session: &'a RawSession = &sessions[i];
        proof {
            assert(all.take(i + 1).drop_last() =~= all.take(i as int));
            assert(all.take(i + 1).last() == session.deep_view());
        }
        if let Some((start, end)) = parsed_session_range(session) {
            let interval = FocusInterval {
                start,
                end,
                project: session.project.as_str(),
                session_id: session.session_id.as_str(),
            };
            intervals.push(interval);
            assert(intervals.deep_view() =~= before.push(interval.deep_view()));
        }
        i = i + 1;
    }
    assert(all.take(i as int) =~= all);
    intervals
}

// ---------------------------------------------------------------------------
// Blocks
// ---------------------------------------------------------------------------

/// The pause that ends a block: 30 minutes, in nanoseconds.
pub const FOCUS_GAP_NANOS: i128 = 1_800_000_000_000;

/// Whether work that starts at `start` goes on with a block that ends at `end`.
pub open spec fn continues(end: Instant, start: Instant) -> bool {
    clock::nanos_between(start, end) < FOCUS_GAP_NANOS
}

/// The later of two instants.
pub open spec fn later(a: Instant, b: Instant) -> Instant {
    if b.leq(a) {
        a
    } else {
        b
    }
}

/// The blocks that intervals, given by their start, form: an interval that starts less than 30
/// minutes behind the end of the block so far goes on with it, and any other starts a block.
pub open spec fn blocks_of(intervals: Seq<IntervalView>) -> Seq<(Instant, Instant)>
    decreases intervals.len(),
{
    if intervals.len() == 0 {
        Seq::empty()
    } else {
        let before = blocks_of(intervals.drop_last());
        let next = intervals.last();
        if before.len() > 0 && continues(before.last().1, next.start) {
            before.drop_last().push((before.last().0, later(before.last().1, next.end)))
        } else {
            before.push((next.start, next.end))
        }
    }
}

/// How often the project changes from one interval to the next within a block.
pub open spec fn switches_in(intervals: Seq<IntervalView>) -> nat
    decreases intervals.len(),
{
    if intervals.len() <= 1 {
        0
    } else {
        let front = intervals.drop_last();
        let next = intervals.last();
        switches_in(front) + if continues(blocks_of(front).last().1, next.start) && next.project
            != front.last().project {
            1nat
        } else {
            0
        }
    }
}

/// The length of a block in nanoseconds.
pub open spec fn length_of(block: (Instant, Instant)) -> int {
    clock::nanos_between(block.1, block.0)
}

/// The first of the longest among `first` and `blocks`.
pub open spec fn longest_of(
    first: (Instant, Instant),
    blocks: Seq<(Instant, Instant)>,
) -> (Instant, Instant)
    decreases blocks.len(),
{
    if blocks.len() == 0 {
        first
    } else {
        let best = longest_of(first, blocks.drop_last());
        if length_of(blocks.last()) > length_of(best) {
            blocks.last()
        } else {
            best
        }
    }
}

/// Of a single block that block is the longest.
proof fn longest_of_one(block: (Instant, Instant))
    ensures
        longest_of(block, seq![block]) == block,
{
    reveal_with_fuel(longest_of, 2);
    assert(seq![block].drop_last() =~= Seq::empty());
}

/// Whole minutes in `nanos`; what is left over is dropped.
pub open spec fn whole_minutes(nanos: int) -> int {
    if nanos >= 0 {
        nanos / 60_000_000_000
    } else {
        -((-nanos) / 60_000_000_000)
    }
}

/// How focused the work was.
#[derive(Clone, Copy, Debug, PartialEq, Eq, Structural)]
pub struct FocusStats {
    pub context_switches: usize,
    pub longest_focus_minutes: i64,
    pub focus_blocks: usize,
}

impl Default for FocusStats {
    /// The focus of no work.
    fn default() -> (stats: FocusStats)
        ensures
            stats.context_switches == 0,
            stats.longest_focus_minutes == 0,
            stats.focus_blocks == 0,
    {
        FocusStats { context_switches: 0, longest_focus_minutes: 0, focus_blocks: 0 }
    }
}

/// How focused the work was, and from when to when its longest block went.
pub struct FocusCalculation {
    pub stats: FocusStats,
    pub main_work_window: Option<(Instant, Instant)>,
}

/// How focused the work was.
pub struct FocusView {
    pub context_switches: nat,
    pub longest_focus_minutes: int,
    pub focus_blocks: nat,
}

impl DeepView for FocusStats {
    type V = FocusView;

    open spec fn deep_view(&self) -> FocusView {
        FocusView {
            context_switches: self.context_switches as nat,
            longest_focus_minutes: self.longest_focus_minutes as int,
            focus_blocks: self.focus_blocks as nat,
        }
    }
}

/// The longest block of work in intervals that are given by their start; `None` where there is no
/// interval.
pub open spec fn window_in(ordered: Seq<IntervalView>) -> Option<(Instant, Instant)> {
    if ordered.len() == 0 {
        None
    } else {
        Some(longest_of(blocks_of(ordered)[0], blocks_of(ordered)))
    }
}

/// How focused the work was in intervals that are given by their start.
pub open spec fn focus_in(ordered: Seq<IntervalView>) -> FocusView {
    FocusView {
        context_switches: switches_in(ordered),
        longest_focus_minutes: match window_in(ordered) {
            Some(window) => whole_minutes(length_of(window)),
            None => 0,
        },
        focus_blocks: blocks_of(ordered).len(),
    }
}

/// The longest block of work in the sessions; `None` where no session has a span.
pub open spec fn main_window(sessions: Seq<SessionView>) -> Option<(Instant, Instant)> {
    window_in(ordered_intervals(sessions))
}

/// How focused the work in the sessions was.
pub open spec fn focus_of(sessions: Seq<SessionView>) -> FocusView {
    focus_in(ordered_intervals(sessions))
}

/// The length of a block in nanoseconds.
fn length(block: (Instant, Instant)) -> (nanos: i128)
    requires
        block.0.in_calendar(),
        block.1.in_calendar(),
    ensures
        nanos == length_of(block),
{
    nanos_since(block.1, block.0)
}

/// Finds the blocks of uninterrupted work in intervals. A pause of 30 minutes or more starts a new
/// block, and a change of the project counts only between neighbours in one block.
pub fn measure_focus<'a>(found: Vec<FocusInterval<'a>>) -> (focus: FocusCalculation)
    requires
        in_calendar(found.deep_view()),
    ensures
        focus.stats.deep_view() == focus_in(by_start(found.deep_view())),
        focus.main_work_window == window_in(by_start(found.deep_view())),
        focus.main_work_window matches Some(window) ==> window.0.in_calendar()
            && window.1.in_calendar(),
        run_forward(found.deep_view()) ==> focus.stats.longest_focus_minutes >= 0,
{
    let ghost given = found.deep_view();
    let ghost ordered = by_start(given);
    let intervals: Vec<FocusInterval<'a>> = order::stable_sort::<FocusInterval<'a>, ByStart>(found);
    proof {
        let leq = order::order_of::<FocusInterval<'static>, ByStart>();
        assert(intervals.deep_view() == ordered);
        assert forall|i: int| 0 <= i < ordered.len() implies (#[trigger] ordered[i]).start.in_calendar()
            && ordered[i].end.in_calendar() by {
            assert(ordered.contains(ordered[i]));
            order::sorted_contains(given, leq, ordered[i]);
            let k = choose|k: int| 0 <= k < given.len() && given[k] == ordered[i];
            assert(given[k].start.in_calendar());
        }
    }
    if intervals.len() == 0 {
        return FocusCalculation {
            stats: FocusStats::default(),
            main_work_window: None,
        };
    }
    let mut context_switches: usize = 0;
    let mut focus_blocks: usize = 1;
    let mut block: (Instant, Instant) = (intervals[0].start, intervals[0].end);
    let mut longest: (Instant, Instant) = block;
    let mut i: usize = 1;
    proof {
        assert(ordered[0] == intervals[0].deep_view());
        assert(ordered.take(1).drop_last() =~= ordered.take(0));
        assert(blocks_of(ordered.take(0)) =~= Seq::<(Instant, Instant)>::empty());
        assert(blocks_of(ordered.take(1)) =~= seq![block]);
        assert(blocks_of(ordered.take(1)).drop_last() =~= Seq::<(Instant, Instant)>::empty());
    }
    while i < intervals.len()
        invariant
            1 <= i <= intervals.len(),
            intervals.deep_view() == ordered,
            in_calendar(ordered),
            blocks_of(ordered.take(i as int)).len() == focus_blocks,
            1 <= focus_blocks <= i,
            blocks_of(ordered.take(i as int)).last() == block,
            block.0.in_calendar(),
            block.1.in_calendar(),
            longest.0.in_calendar(),
            longest.1.in_calendar(),
            focus_blocks > 1 ==> longest == longest_of(
                blocks_of(ordered.take(i as int))[0],
                blocks_of(ordered.take(i as int)).drop_last(),
            ),
            context_switches == switches_in(ordered.take(i as int)),
            context_switches < i,
        decreases intervals.len() - i,
    {
        let interval = &intervals[i];
        let ghost so_far = ordered.take(i as int);
        let ghost before = blocks_of(so_far);
        proof {
            assert(ordered[i as int] == interval.deep_view());
            assert(ordered[i - 1] == intervals[i - 1].deep_view());
            assert(ordered.take(i + 1).drop_last() =~= so_far);
            assert(ordered.take(i + 1).last() == interval.deep_view());
            assert(so_far.last() == ordered[i - 1]);
        }
        let gap: i128 = nanos_since(interval.start, block.1);
        if gap < FOCUS_GAP_NANOS {
            if !same_text(interval.project, intervals[i - 1].project) {
                context_switches = context_switches + 1;
            }
            if block.1.is_before(&interval.end) {
                block = (block.0, interval.end);
            }
            proof {
                let now = blocks_of(ordered.take(i + 1));
                assert(now =~= before.drop_last().push(block));
                assert(now.drop_last() =~= before.drop_last());
            }
        } else {
            if focus_blocks == 1 || length(block) > length(longest) {
                longest = block;
            }
            proof {
                longest_of_one(before[0]);
                if focus_blocks == 1 {
                    assert(before =~= seq![before[0]]);
                }
            }
            focus_blocks = focus_blocks + 1;
            block = (interval.start, interval.end);
            proof {
                let now = blocks_of(ordered.take(i + 1));
                assert(now =~= before.push(block));
                assert(now.drop_last() =~= before);
            }
        }
        i = i + 1;
    }
    proof {
        assert(ordered.take(i as int) =~= ordered);
        let blocks = blocks_of(ordered);
        longest_of_one(blocks[0]);
        if focus_blocks == 1 {
            assert(blocks =~= seq![blocks[0]]);
        }
    }
    if focus_blocks == 1 || length(block) > length(longest) {
        longest = block;
    }
    let nanos: i128 = length(longest);
    proof {
        if run_forward(given) {
            by_start_runs_forward(given);
            blocks_run_forward(ordered);
            let b = longest_of_place(blocks_of(ordered));
            assert(blocks_of(ordered)[b] == longest);
            clock::time_runs_forward(longest.1, longest.0);
        }
    }
    let minutes: i128 = if nanos >= 0 {
        nanos / 60_000_000_000
    } else {
        -((-nanos) / 60_000_000_000)
    };
    FocusCalculation {
        stats: FocusStats {
            context_switches,
            longest_focus_minutes: minutes as i64,
            focus_blocks,
        },
        main_work_window: Some(longest),
    }
}

/// Finds the blocks of uninterrupted work in `sessions`. Sessions with a timestamp that cannot be
/// read are left out.
pub fn compute_focus(sessions: &Vec<RawSession>) -> (focus: FocusCalculation)
    ensures
        focus.stats.deep_view() == focus_of(sessions.deep_view()),
        focus.main_work_window == main_window(sessions.deep_view()),
        focus.main_work_window matches Some(window) ==> window.0.in_calendar()
            && window.1.in_calendar(),
        focus.stats.longest_focus_minutes >= 0,
{
    measure_focus(collect_intervals(sessions))
}

// ---------------------------------------------------------------------------
// Laws
// ---------------------------------------------------------------------------

/// Between the end of a block and the start of the next there are 30 minutes or more.
pub proof fn blocks_are_apart(intervals: Seq<IntervalView>, b: int)
    requires
        0 <= b < blocks_of(intervals).len() - 1,
    ensures
        clock::nanos_between(blocks_of(intervals)[b + 1].0, blocks_of(intervals)[b].1)
            >= FOCUS_GAP_NANOS,
    decreases intervals.len(),
{
    let before = blocks_of(intervals.drop_last());
    if b < before.len() - 1 {
        blocks_are_apart(intervals.drop_last(), b);
    }
}

/// A block starts where an interval starts and ends where one ends.
pub proof fn blocks_are_made_of_intervals(intervals: Seq<IntervalView>, b: int)
    requires
        0 <= b < blocks_of(intervals).len(),
    ensures
        exists|i: int|
            0 <= i < intervals.len() && (#[trigger] intervals[i]).start == blocks_of(
                intervals,
            )[b].0,
        exists|i: int|
            0 <= i < intervals.len() && (#[trigger] intervals[i]).end == blocks_of(intervals)[b].1,
    decreases intervals.len(),
{
    let front = intervals.drop_last();
    let before = blocks_of(front);
    let n = intervals.len() - 1;
    assert(intervals[n] == intervals.last());
    if b < before.len() {
        blocks_are_made_of_intervals(front, b);
        let i = choose|i: int| 0 <= i < front.len() && (#[trigger] front[i]).start == before[b].0;
        let j = choose|j: int| 0 <= j < front.len() && (#[trigger] front[j]).end == before[b].1;
        assert(intervals[i].start == before[b].0);
        assert(intervals[j].end == before[b].1);
    }
}

/// Whether the block reaches from the start of the interval or earlier to its end or later.
pub open spec fn spans(block: (Instant, Instant), interval: IntervalView) -> bool {
    block.0.leq(interval.start) && interval.end.leq(block.1)
}

/// Every interval lies in a block.
pub proof fn intervals_lie_in_blocks(intervals: Seq<IntervalView>, k: int)
    requires
        0 <= k < intervals.len(),
        forall|i: int, j: int|
            0 <= i < j < intervals.len() ==> (#[trigger] intervals[i]).start.leq(
                (#[trigger] intervals[j]).start,
            ),
    ensures
        exists|b: int|
            0 <= b < blocks_of(intervals).len() && spans(
                #[trigger] blocks_of(intervals)[b],
                intervals[k],
            ),
    decreases intervals.len(),
{
    let front = intervals.drop_last();
    let before = blocks_of(front);
    let now = blocks_of(intervals);
    let next = intervals.last();
    if k < front.len() {
        intervals_lie_in_blocks(front, k);
        let b = choose|b: int|
            0 <= b < before.len() && spans(#[trigger] before[b], front[k]);
        assert(spans(now[b], intervals[k]));
    } else if before.len() > 0 && continues(before.last().1, next.start) {
        blocks_are_made_of_intervals(front, before.len() - 1);
        let i = choose|i: int|
            0 <= i < front.len() && (#[trigger] front[i]).start == before.last().0;
        assert(intervals[i].start.leq(intervals[k].start));
        assert(spans(now[now.len() - 1], intervals[k]));
    } else {
        assert(spans(now[now.len() - 1], intervals[k]));
    }
}

proof fn ordered_by_start(sessions: Seq<SessionView>, i: int, j: int)
    requires
        0 <= i < j < ordered_intervals(sessions).len(),
    ensures
        ordered_intervals(sessions)[i].start.leq(ordered_intervals(sessions)[j].start),
{
    let leq = order::order_of::<FocusInterval<'static>, ByStart>();
    order::sorted_is_ascending::<FocusInterval<'static>, ByStart>(intervals_of(sessions));
    assert(leq(ordered_intervals(sessions)[i], ordered_intervals(sessions)[j]));
}

proof fn intervals_of_session(sessions: Seq<SessionView>, k: int)
    requires
        0 <= k < sessions.len(),
        session_span(sessions[k]) is Some,
    ensures
        intervals_of(sessions).contains(interval_of(sessions[k])),
    decreases sessions.len(),
{
    let front = sessions.drop_last();
    let x = interval_of(sessions[k]);
    let all = intervals_of(sessions);
    if k < front.len() {
        intervals_of_session(front, k);
        let i = choose|i: int| 0 <= i < intervals_of(front).len() && intervals_of(front)[i] == x;
        assert(all[i] == x);
    } else {
        assert(all[all.len() - 1] == x);
    }
}

/// Every session whose timestamps can be read lies in a block of work.
pub proof fn sessions_lie_in_blocks(sessions: Seq<SessionView>, k: int)
    requires
        0 <= k < sessions.len(),
        session_span(sessions[k]) is Some,
    ensures
        exists|b: int|
            0 <= b < blocks_of(ordered_intervals(sessions)).len() && spans(
                #[trigger] blocks_of(ordered_intervals(sessions))[b],
                interval_of(sessions[k]),
            ),
{
    let ordered = ordered_intervals(sessions);
    let x = interval_of(sessions[k]);
    intervals_of_session(sessions, k);
    order::sorted_contains(
        intervals_of(sessions),
        order::order_of::<FocusInterval<'static>, ByStart>(),
        x,
    );
    let i = choose|i: int| 0 <= i < ordered.len() && ordered[i] == x;
    assert forall|i: int, j: int| 0 <= i < j < ordered.len() implies (#[trigger] ordered[i]).start.leq(
        (#[trigger] ordered[j]).start,
    ) by {
        ordered_by_start(sessions, i, j);
    }
    intervals_lie_in_blocks(ordered, i);
}

/// The longest block is the first of those that no block surpasses.
proof fn longest_of_place(blocks: Seq<(Instant, Instant)>) -> (b: int)
    requires
        blocks.len() > 0,
    ensures
        0 <= b < blocks.len(),
        longest_of(blocks[0], blocks) == blocks[b],
        forall|c: int|
            0 <= c < blocks.len() ==> length_of(#[trigger] blocks[c]) <= length_of(blocks[b]),
        forall|c: int| 0 <= c < b ==> length_of(#[trigger] blocks[c]) < length_of(blocks[b]),
    decreases blocks.len(),
{
    if blocks.len() == 1 {
        longest_of_one(blocks[0]);
        assert(blocks =~= seq![blocks[0]]);
        0
    } else {
        let front = blocks.drop_last();
        let k = longest_of_place(front);
        assert(forall|c: int| 0 <= c < front.len() ==> #[trigger] blocks[c] == front[c]);
        if length_of(blocks.last()) > length_of(front[k]) {
            blocks.len() - 1
        } else {
            k
        }
    }
}

/// There is a main window exactly where a session can be placed in time. It is a block, no block is
/// longer, and every earlier one is shorter.
pub proof fn main_window_is_longest(sessions: Seq<SessionView>)
    ensures
        main_window(sessions) is Some <==> intervals_of(sessions).len() > 0,
        main_window(sessions) is None ==> focus_of(sessions) == (FocusView {
            context_switches: 0,
            longest_focus_minutes: 0,
            focus_blocks: 0,
        }),
        main_window(sessions) matches Some(window) ==> {
            let blocks = blocks_of(ordered_intervals(sessions));
            exists|b: int|
                0 <= b < blocks.len() && #[trigger] blocks[b] == window && (forall|c: int|
                    0 <= c < blocks.len() ==> length_of(#[trigger] blocks[c]) <= length_of(window))
                    && (forall|c: int|
                    0 <= c < b ==> length_of(#[trigger] blocks[c]) < length_of(window))
        },
{
    let ordered = ordered_intervals(sessions);
    order::sorted_keeps_items(
        intervals_of(sessions),
        order::order_of::<FocusInterval<'static>, ByStart>(),
    );
    switches_and_blocks(ordered);
    if ordered.len() > 0 {
        let b = longest_of_place(blocks_of(ordered));
        assert(blocks_of(ordered)[b] == main_window(sessions)->0);
    }
}

proof fn by_start_runs_forward(intervals: Seq<IntervalView>)
    requires
        run_forward(intervals),
    ensures
        run_forward(by_start(intervals)),
{
    let ordered = by_start(intervals);
    let leq = order::order_of::<FocusInterval<'static>, ByStart>();
    assert forall|i: int| 0 <= i < ordered.len() implies (#[trigger] ordered[i]).start.leq(
        ordered[i].end,
    ) by {
        assert(ordered.contains(ordered[i]));
        order::sorted_contains(intervals, leq, ordered[i]);
        let k = choose|k: int| 0 <= k < intervals.len() && intervals[k] == ordered[i];
        assert(intervals[k].start.leq(intervals[k].end));
    }
}

/// Where no interval ends before it starts, no block does.
pub proof fn blocks_run_forward(intervals: Seq<IntervalView>)
    requires
        run_forward(intervals),
    ensures
        forall|b: int|
            0 <= b < blocks_of(intervals).len() ==> (#[trigger] blocks_of(intervals)[b]).0.leq(
                blocks_of(intervals)[b].1,
            ),
    decreases intervals.len(),
{
    if intervals.len() > 0 {
        let front = intervals.drop_last();
        assert forall|i: int| 0 <= i < front.len() implies (#[trigger] front[i]).start.leq(
            front[i].end,
        ) by {
            assert(front[i] == intervals[i]);
        }
        blocks_run_forward(front);
        assert(intervals[intervals.len() - 1].start.leq(intervals.last().end));
        let before = blocks_of(front);
        let now = blocks_of(intervals);
        assert forall|b: int| 0 <= b < now.len() implies (#[trigger] now[b]).0.leq(now[b].1) by {
            if b < before.len() {
                assert(before[b].0.leq(before[b].1));
            }
        }
    }
}

/// An interval starts a block or switches the project or does neither, never both; there is a block
/// as soon as there is an interval, and its first one switches nothing.
pub proof fn switches_and_blocks(intervals: Seq<IntervalView>)
    ensures
        switches_in(intervals) + blocks_of(intervals).len() <= intervals.len(),
        blocks_of(intervals).len() == 0 <==> intervals.len() == 0,
    decreases intervals.len(),
{
    if intervals.len() > 0 {
        switches_and_blocks(intervals.drop_last());
    }
}

/// Work on one project alone switches nothing.
pub proof fn one_project_switches_nothing(intervals: Seq<IntervalView>)
    requires
        forall|i: int, j: int|
            0 <= i < intervals.len() && 0 <= j < intervals.len() ==> (#[trigger] intervals[i]).project
                == (#[trigger] intervals[j]).project,
    ensures
        switches_in(intervals) == 0,
    decreases intervals.len(),
{
    if intervals.len() > 1 {
        let front = intervals.drop_last();
        assert forall|i: int, j: int| 0 <= i < front.len() && 0 <= j < front.len() implies (
        #[trigger] front[i]).project == (#[trigger] front[j]).project by {
            assert(front[i] == intervals[i] && front[j] == intervals[j]);
        }
        one_project_switches_nothing(front);
        assert(intervals[intervals.len() - 1].project == intervals[intervals.len() - 2].project);
    }
}

/// Leaving out a session leaves out its interval, where it has one.
proof fn intervals_of_removed(sessions: Seq<SessionView>, k: int)
    requires
        0 <= k < sessions.len(),
    ensures
        intervals_of(sessions).to_multiset() == if session_span(sessions[k]) is Some {
            intervals_of(sessions.remove(k)).to_multiset().insert(interval_of(sessions[k]))
        } else {
            intervals_of(sessions.remove(k)).to_multiset()
        },
    decreases sessions.len(),
{
    broadcast use vstd::seq_lib::group_to_multiset_ensures;

    let front = sessions.drop_last();
    if k == sessions.len() - 1 {
        assert(sessions.remove(k) =~= front);
    } else {
        intervals_of_removed(front, k);
        assert(sessions.remove(k).drop_last() =~= front.remove(k));
        assert(sessions.remove(k).last() == sessions.last());
        assert(front[k] == sessions[k]);
        assert(intervals_of(sessions).to_multiset() =~= if session_span(sessions[k]) is Some {
            intervals_of(sessions.remove(k)).to_multiset().insert(interval_of(sessions[k]))
        } else {
            intervals_of(sessions.remove(k)).to_multiset()
        });
    }
}

proof fn intervals_of_permutation(sessions: Seq<SessionView>, others: Seq<SessionView>)
    requires
        sessions.to_multiset() == others.to_multiset(),
    ensures
        intervals_of(sessions).to_multiset() == intervals_of(others).to_multiset(),
    decreases sessions.len(),
{
    broadcast use vstd::seq_lib::group_to_multiset_ensures;

    assert(sessions.len() == sessions.to_multiset().len());
    assert(others.len() == others.to_multiset().len());
    if sessions.len() > 0 {
        let front = sessions.drop_last();
        let x = sessions.last();
        assert(sessions =~= front.push(x));
        assert(sessions[sessions.len() - 1] == x);
        assert(sessions.contains(x));
        assert(sessions.to_multiset().count(x) > 0);
        assert(others.contains(x));
        let k = choose|k: int| 0 <= k < others.len() && others[k] == x;
        let rest = others.remove(k);
        vstd::seq_lib::to_multiset_remove(others, k);
        assert(front.to_multiset() =~= rest.to_multiset());
        intervals_of_permutation(front, rest);
        intervals_of_removed(others, k);
        assert(intervals_of(sessions).to_multiset() =~= intervals_of(others).to_multiset());
    } else {
        assert(sessions =~= others);
    }
}

proof fn interval_has_session(sessions: Seq<SessionView>, x: IntervalView)
    requires
        intervals_of(sessions).contains(x),
    ensures
        exists|k: int|
            0 <= k < sessions.len() && session_span(#[trigger] sessions[k]) is Some && interval_of(
                sessions[k],
            ) == x,
    decreases sessions.len(),
{
    if sessions.len() > 0 {
        let front = sessions.drop_last();
        let all = intervals_of(sessions);
        let i = choose|i: int| 0 <= i < all.len() && all[i] == x;
        if i < intervals_of(front).len() {
            assert(intervals_of(front)[i] == x);
            interval_has_session(front, x);
            let k = choose|k: int|
                0 <= k < front.len() && session_span(#[trigger] front[k]) is Some && interval_of(
                    front[k],
                ) == x;
            assert(sessions[k] == front[k]);
        } else {
            assert(sessions[sessions.len() - 1] == sessions.last());
        }
    }
}

proof fn intervals_of_unplaced(sessions: Seq<SessionView>, unplaced: Seq<SessionView>)
    requires
        forall|i: int| 0 <= i < unplaced.len() ==> session_span(#[trigger] unplaced[i]) is None,
    ensures
        intervals_of(sessions + unplaced) == intervals_of(sessions),
    decreases unplaced.len(),
{
    if unplaced.len() == 0 {
        assert(sessions + unplaced =~= sessions);
    } else {
        let front = unplaced.drop_last();
        assert forall|i: int| 0 <= i < front.len() implies session_span(#[trigger] front[i]) is None by {
            assert(front[i] == unplaced[i]);
        }
        intervals_of_unplaced(sessions, front);
        assert((sessions + unplaced).drop_last() =~= sessions + front);
        assert(session_span(unplaced[unplaced.len() - 1]) is None);
    }
}

/// The focus of sessions with different names does not depend on the order in which they are given,
/// nor on whether sessions that cannot be placed in time are given with them.
pub proof fn focus_ignores_order_and_unplaced_sessions(
    sessions: Seq<SessionView>,
    unplaced: Seq<SessionView>,
    others: Seq<SessionView>,
)
    requires
        others.to_multiset() == (sessions + unplaced).to_multiset(),
        forall|i: int| 0 <= i < unplaced.len() ==> session_span(#[trigger] unplaced[i]) is None,
        forall|i: int, j: int|
            0 <= i < sessions.len() && 0 <= j < sessions.len() && (#[trigger] sessions[i]).session_id
                == (#[trigger] sessions[j]).session_id ==> i == j,
    ensures
        focus_of(others) == focus_of(sessions),
        main_window(others) == main_window(sessions),
{
    let leq = order::order_of::<FocusInterval<'static>, ByStart>();
    let given = intervals_of(sessions);
    intervals_of_unplaced(sessions, unplaced);
    intervals_of_permutation(others, sessions + unplaced);
    assert forall|a: IntervalView, b: IntervalView|
        given.contains(a) && given.contains(b) && #[trigger] leq(a, b) && leq(b, a) implies a == b by {
        interval_has_session(sessions, a);
        interval_has_session(sessions, b);
        text::text_leq_antisymmetric(a.session_id, b.session_id);
        let i = choose|k: int|
            0 <= k < sessions.len() && session_span(#[trigger] sessions[k]) is Some && interval_of(
                sessions[k],
            ) == a;
        let j = choose|k: int|
            0 <= k < sessions.len() && session_span(#[trigger] sessions[k]) is Some && interval_of(
                sessions[k],
            ) == b;
        assert(sessions[i].session_id == sessions[j].session_id);
    }
    order::sorted_of_permutation::<FocusInterval<'static>, ByStart>(given, intervals_of(others));
}

// ---------------------------------------------------------------------------
// What blocks, switches and windows are
// ---------------------------------------------------------------------------

/// Whether interval `k` is one of `from` to `i`, and none of those ends later.
pub open spec fn ends_last(intervals: Seq<IntervalView>, from: int, k: int, i: int) -> bool {
    &&& from <= k <= i
    &&& forall|j: int|
        from <= j <= i ==> (#[trigger] intervals[j]).end.secs < intervals[k].end.secs || (
        intervals[j].end.secs == intervals[k].end.secs && intervals[j].end.nanos
            <= intervals[k].end.nanos)
}

/// Whether `end` is the latest end of the intervals `from` to `i`.
pub open spec fn is_latest_end(
    end: Instant,
    intervals: Seq<IntervalView>,
    from: int,
    i: int,
) -> bool {
    exists|k: int| #[trigger] ends_last(intervals, from, k, i) && intervals[k].end == end
}

/// Whether work pauses for half an hour or more behind interval `i`: from the latest end of the
/// intervals up to it to the start of the next.
pub open spec fn long_pause(intervals: Seq<IntervalView>, i: int) -> bool {
    forall|k: int| #[trigger]
        ends_last(intervals, 0, k, i) ==> clock::nanos_between(
            intervals[i + 1].start,
            intervals[k].end,
        ) >= 1_800_000_000_000
}

/// The last of the intervals that begin with number `firsts[b]` and end before the next of `firsts`,
/// or with the last of `n`.
pub open spec fn stop_of(firsts: Seq<int>, n: int, b: int) -> int {
    if b + 1 < firsts.len() {
        firsts[b + 1] - 1
    } else {
        n - 1
    }
}

/// Whether the blocks start with the intervals at the places `firsts`, these being the first
/// interval and each one behind a long pause, and each block ends with the latest end of the
/// intervals in it.
pub open spec fn divides(firsts: Seq<int>, intervals: Seq<IntervalView>) -> bool {
    let blocks = blocks_of(intervals);
    &&& firsts.len() == blocks.len()
    &&& firsts.len() > 0 && firsts[0] == 0
    &&& forall|b: int, c: int| 0 <= b < c < firsts.len() ==> #[trigger] firsts[b] < #[trigger] firsts[c]
    &&& forall|b: int| 0 <= b < firsts.len() ==> 0 <= #[trigger] firsts[b] < intervals.len()
    &&& forall|i: int|
        0 <= i < intervals.len() - 1 ==> (#[trigger] long_pause(intervals, i) <==> firsts.contains(
            i + 1,
        ))
    &&& forall|b: int|
        0 <= b < firsts.len() ==> (#[trigger] blocks[b]).0 == intervals[firsts[b]].start
    &&& forall|b: int|
        0 <= b < firsts.len() ==> is_latest_end(
            (#[trigger] blocks[b]).1,
            intervals,
            firsts[b],
            stop_of(firsts, intervals.len() as int, b),
        )
}

proof fn ends_last_of_front(intervals: Seq<IntervalView>, from: int, k: int, i: int)
    requires
        0 <= from,
        i < intervals.len() - 1,
    ensures
        ends_last(intervals.drop_last(), from, k, i) == ends_last(intervals, from, k, i),
{
    let front = intervals.drop_last();
    assert(forall|j: int| 0 <= j <= i ==> front[j] == intervals[j]);
    if ends_last(front, from, k, i) {
        assert forall|j: int| from <= j <= i implies (#[trigger] intervals[j]).end.secs
            < intervals[k].end.secs || (intervals[j].end.secs == intervals[k].end.secs
            && intervals[j].end.nanos <= intervals[k].end.nanos) by {
            assert(front[j] == intervals[j]);
        }
    }
    if ends_last(intervals, from, k, i) {
        assert forall|j: int| from <= j <= i implies (#[trigger] front[j]).end.secs
            < front[k].end.secs || (front[j].end.secs == front[k].end.secs && front[j].end.nanos
            <= front[k].end.nanos) by {
            assert(front[j] == intervals[j]);
        }
    }
}

proof fn long_pause_of_front(intervals: Seq<IntervalView>, i: int)
    requires
        0 <= i < intervals.len() - 2,
    ensures
        long_pause(intervals.drop_last(), i) == long_pause(intervals, i),
{
    let front = intervals.drop_last();
    assert forall|k: int| #[trigger] ends_last(front, 0, k, i) == ends_last(intervals, 0, k, i) by {
        ends_last_of_front(intervals, 0, k, i);
    }
    assert(front[i + 1] == intervals[i + 1]);
    assert forall|k: int| ends_last(intervals, 0, k, i) implies #[trigger] front[k] == intervals[k] by {}
    if long_pause(front, i) {
        assert forall|k: int| #[trigger] ends_last(intervals, 0, k, i) implies clock::nanos_between(
            intervals[i + 1].start,
            intervals[k].end,
        ) >= 1_800_000_000_000 by {
            assert(ends_last(front, 0, k, i));
            assert(front[k] == intervals[k]);
        }
    }
    if long_pause(intervals, i) {
        assert forall|k: int| #[trigger] ends_last(front, 0, k, i) implies clock::nanos_between(
            front[i + 1].start,
            front[k].end,
        ) >= 1_800_000_000_000 by {
            assert(ends_last(intervals, 0, k, i));
            assert(front[k] == intervals[k]);
        }
    }
}

/// The last block ends with the latest end of all intervals.
proof fn last_block_ends_last(intervals: Seq<IntervalView>) -> (k: int)
    requires
        intervals.len() > 0,
        run_forward(intervals),
    ensures
        ends_last(intervals, 0, k, intervals.len() - 1),
        blocks_of(intervals).len() > 0,
        blocks_of(intervals).last().1 == intervals[k].end,
    decreases intervals.len(),
{
    let front = intervals.drop_last();
    let n = intervals.len() - 1;
    let next = intervals[n];
    assert(next == intervals.last());
    reveal_with_fuel(blocks_of, 2);
    if n == 0 {
        0
    } else {
        assert(run_forward(front)) by {
            assert forall|i: int| 0 <= i < front.len() implies (#[trigger] front[i]).start.leq(
                front[i].end,
            ) by {
                assert(front[i] == intervals[i]);
            }
        }
        let k = last_block_ends_last(front);
        ends_last_of_front(intervals, 0, k, n - 1);
        assert(front[k] == intervals[k]);
        assert(next.start.leq(next.end));
        let before = blocks_of(front);
        let best = if continues(before.last().1, next.start) && next.end.leq(before.last().1) {
            k
        } else {
            n
        };
        assert forall|j: int| 0 <= j <= n implies (#[trigger] intervals[j]).end.secs
            < intervals[best].end.secs || (intervals[j].end.secs == intervals[best].end.secs
            && intervals[j].end.nanos <= intervals[best].end.nanos) by {
            if j < n {
                assert(intervals[j].end.secs < intervals[k].end.secs || (intervals[j].end.secs
                    == intervals[k].end.secs && intervals[j].end.nanos <= intervals[k].end.nanos));
            }
        }
        best
    }
}

proof fn continues_or_pauses(intervals: Seq<IntervalView>)
    requires
        intervals.len() > 1,
        run_forward(intervals),
    ensures
        continues(blocks_of(intervals.drop_last()).last().1, intervals.last().start) <==> !long_pause(
            intervals,
            intervals.len() - 2,
        ),
        blocks_of(intervals.drop_last()).len() > 0,
        run_forward(intervals.drop_last()),
{
    let front = intervals.drop_last();
    let i = intervals.len() - 2;
    assert forall|i: int| 0 <= i < front.len() implies (#[trigger] front[i]).start.leq(
        front[i].end,
    ) by {
        assert(front[i] == intervals[i]);
    }
    let k = last_block_ends_last(front);
    ends_last_of_front(intervals, 0, k, i);
    assert(front[k] == intervals[k]);
    assert(ends_last(intervals, 0, k, i));
    if !continues(blocks_of(front).last().1, intervals.last().start) {
        assert forall|j: int| #[trigger] ends_last(intervals, 0, j, i) implies clock::nanos_between(
            intervals[i + 1].start,
            intervals[j].end,
        ) >= 1_800_000_000_000 by {
            assert(intervals[j].end == intervals[k].end);
        }
    }
}

/// A new block starts exactly behind each pause of half an hour or more, so that no block bridges
/// one, and it goes from the start of its first interval to the latest end of those in it.
pub proof fn blocks_end_with_long_pauses(intervals: Seq<IntervalView>) -> (firsts: Seq<int>)
    requires
        intervals.len() > 0,
        run_forward(intervals),
    ensures
        divides(firsts, intervals),
    decreases intervals.len(),
{
    let front = intervals.drop_last();
    let n = intervals.len() - 1;
    let next = intervals[n];
    let now = blocks_of(intervals);
    assert(next == intervals.last());
    reveal_with_fuel(blocks_of, 2);
    if n == 0 {
        let firsts = seq![0int];
        assert(now =~= seq![(next.start, next.end)]);
        assert(ends_last(intervals, firsts[0], 0, stop_of(firsts, 1, 0)));
        assert(is_latest_end(now[0].1, intervals, firsts[0], stop_of(firsts, 1, 0)));
        firsts
    } else {
        continues_or_pauses(intervals);
        let before = blocks_of(front);
        let old_firsts = blocks_end_with_long_pauses(front);
        let going_on = continues(before.last().1, next.start);
        let firsts = if going_on {
            old_firsts
        } else {
            old_firsts.push(n)
        };
        let last = old_firsts.len() - 1;
        assert forall|i: int| 0 <= i < n implies (#[trigger] long_pause(intervals, i)
            <==> firsts.contains(i + 1)) by {
            if i < n - 1 {
                long_pause_of_front(intervals, i);
                assert(long_pause(front, i) <==> old_firsts.contains(i + 1));
                if old_firsts.contains(i + 1) {
                    let b = choose|b: int| 0 <= b < old_firsts.len() && old_firsts[b] == i + 1;
                    assert(firsts[b] == i + 1);
                }
                if firsts.contains(i + 1) {
                    let b = choose|b: int| 0 <= b < firsts.len() && firsts[b] == i + 1;
                    assert(old_firsts[b] == i + 1);
                }
            } else {
                if going_on && firsts.contains(n) {
                    let b = choose|b: int| 0 <= b < firsts.len() && firsts[b] == n;
                    assert(old_firsts[b] < front.len());
                }
                if !going_on {
                    assert(firsts[firsts.len() - 1] == n);
                }
            }
        }
        assert forall|b: int| 0 <= b < firsts.len() implies (#[trigger] now[b]).0
            == intervals[firsts[b]].start by {
            if b < old_firsts.len() {
                assert(before[b].0 == front[old_firsts[b]].start);
            }
        }
        assert forall|b: int| 0 <= b < firsts.len() implies is_latest_end(
            (#[trigger] now[b]).1,
            intervals,
            firsts[b],
            stop_of(firsts, intervals.len() as int, b),
        ) by {
            let stop = stop_of(firsts, intervals.len() as int, b);
            if b < old_firsts.len() {
                let upto = stop_of(old_firsts, front.len() as int, b);
                assert(0 <= old_firsts[b]);
                assert(is_latest_end(before[b].1, front, old_firsts[b], upto));
                let k = choose|k: int| #[trigger]
                    ends_last(front, old_firsts[b], k, upto) && front[k].end == before[b].1;
                if b < last {
                    assert(old_firsts[b + 1] < front.len());
                }
                ends_last_of_front(intervals, old_firsts[b], k, upto);
                assert(front[k] == intervals[k]);
                if b == last && going_on {
                    let best = if next.end.leq(before.last().1) {
                        k
                    } else {
                        n
                    };
                    assert(ends_last(intervals, firsts[b], best, stop));
                    assert(now[b].1 == intervals[best].end);
                } else {
                    assert(ends_last(intervals, firsts[b], k, stop));
                    assert(now[b] == before[b]);
                }
            } else {
                assert(ends_last(intervals, firsts[b], n, stop));
                assert(now[b].1 == intervals[n].end);
            }
        }
        firsts
    }
}

/// There is one block more than there are pauses of half an hour or more, and the project switches
/// as often as neighbours without such a pause between them are of different projects.
pub proof fn pauses_and_switches_are_counted(intervals: Seq<IntervalView>)
    requires
        intervals.len() > 0,
        run_forward(intervals),
    ensures
        blocks_of(intervals).len() == 1 + lists::count_below(
            (intervals.len() - 1) as nat,
            |i: int| long_pause(intervals, i),
        ),
        switches_in(intervals) == lists::count_below(
            (intervals.len() - 1) as nat,
            |i: int|
                !long_pause(intervals, i) && intervals[i].project != intervals[i + 1].project,
        ),
    decreases intervals.len(),
{
    let front = intervals.drop_last();
    let n = (intervals.len() - 1) as nat;
    let pauses = |i: int| long_pause(intervals, i);
    let switches = |i: int|
        !long_pause(intervals, i) && intervals[i].project != intervals[i + 1].project;
    reveal_with_fuel(blocks_of, 2);
    if n == 0 {
        lists::count_below_step(0, pauses);
        lists::count_below_step(0, switches);
    } else {
        continues_or_pauses(intervals);
        pauses_and_switches_are_counted(front);
        let old_pauses = |i: int| long_pause(front, i);
        let old_switches = |i: int|
            !long_pause(front, i) && front[i].project != front[i + 1].project;
        let m = (n - 1) as nat;
        assert forall|i: int| 0 <= i < m implies #[trigger] old_pauses(i) == pauses(i) by {
            long_pause_of_front(intervals, i);
        }
        assert forall|i: int| 0 <= i < m implies #[trigger] old_switches(i) == switches(i) by {
            long_pause_of_front(intervals, i);
            assert(front[i] == intervals[i] && front[i + 1] == intervals[i + 1]);
        }
        lists::count_below_same(m, old_pauses, pauses);
        lists::count_below_same(m, old_switches, switches);
        lists::count_below_step(m, pauses);
        lists::count_below_step(m, switches);
        assert(intervals[m as int] == front.last());
        assert(intervals[m as int + 1] == intervals.last());
    }
}

/// Whether `a` is `b` or an earlier instant: it lies in an earlier second, or in the same one with no
/// more nanoseconds behind it.
pub open spec fn not_after(a: Instant, b: Instant) -> bool {
    a.secs < b.secs || (a.secs == b.secs && a.nanos <= b.nanos)
}

proof fn span_bounds(instants: Seq<Instant>)
    requires
        instants.len() > 0,
    ensures
        span_of(instants) matches Some((start, end)) && not_after(start, end) && instants.contains(
            start,
        ) && instants.contains(end) && forall|i: int|
            0 <= i < instants.len() ==> not_after(start, #[trigger] instants[i]) && not_after(
                instants[i],
                end,
            ),
    decreases instants.len(),
{
    let front = instants.drop_last();
    let x = instants.last();
    let n = instants.len() - 1;
    assert(instants[n] == x);
    reveal_with_fuel(span_of, 2);
    if n > 0 {
        span_bounds(front);
        let (a, b) = span_of(front)->0;
        let i = choose|i: int| 0 <= i < front.len() && front[i] == a;
        let j = choose|j: int| 0 <= j < front.len() && front[j] == b;
        assert(instants[i] == a && instants[j] == b);
        let (start, end) = span_of(instants)->0;
        assert forall|k: int| 0 <= k < instants.len() implies not_after(
            start,
            #[trigger] instants[k],
        ) && not_after(instants[k], end) by {
            if k < n {
                assert(front[k] == instants[k]);
                assert(not_after(a, front[k]) && not_after(front[k], b));
            }
        }
    }
}

/// The times of a session, its prompts' and its turns', all name an instant.
pub open spec fn times_can_be_read(session: SessionView) -> bool {
    &&& forall|i: int|
        0 <= i < session.prompts.len() ==> clock::rfc3339_instant(
            (#[trigger] session.prompts[i]).timestamp,
        ) is Some
    &&& forall|i: int|
        0 <= i < session.turns.len() ==> clock::rfc3339_instant(
            (#[trigger] session.turns[i]).timestamp,
        ) is Some
}

/// Whether a prompt or a turn of the session names the instant `at`.
pub open spec fn has_time(session: SessionView, at: Instant) -> bool {
    ||| exists|i: int|
        0 <= i < session.prompts.len() && clock::rfc3339_instant(
            (#[trigger] session.prompts[i]).timestamp,
        ) == Some(at)
    ||| exists|i: int|
        0 <= i < session.turns.len() && clock::rfc3339_instant(
            (#[trigger] session.turns[i]).timestamp,
        ) == Some(at)
}

/// A session has a span exactly where it has a prompt or a turn and the times of all of them can be
/// read. The span goes from the first of these times to the last.
pub proof fn span_is_first_to_last(session: SessionView)
    ensures
        session_span(session) is Some <==> session.prompts.len() + session.turns.len() > 0
            && times_can_be_read(session),
        session_span(session) matches Some((start, end)) ==> has_time(session, start) && has_time(
            session,
            end,
        ) && not_after(start, end) && forall|at: Instant| #[trigger]
            has_time(session, at) ==> not_after(start, at) && not_after(at, end),
{
    let times = session::timestamps(session);
    let prompts = session.prompts;
    let turns = session.turns;
    assert(times.len() == prompts.len() + turns.len());
    assert forall|i: int| 0 <= i < prompts.len() implies times[i] == (
    #[trigger] prompts[i]).timestamp by {}
    assert forall|i: int| 0 <= i < turns.len() implies times[prompts.len() + i] == (
    #[trigger] turns[i]).timestamp by {}
    if forall|i: int|
        0 <= i < times.len() ==> clock::rfc3339_instant(#[trigger] times[i]) is Some {
        assert forall|i: int| 0 <= i < prompts.len() implies clock::rfc3339_instant(
            (#[trigger] prompts[i]).timestamp,
        ) is Some by {
            assert(clock::rfc3339_instant(times[i]) is Some);
        }
        assert forall|i: int| 0 <= i < turns.len() implies clock::rfc3339_instant(
            (#[trigger] turns[i]).timestamp,
        ) is Some by {
            assert(clock::rfc3339_instant(times[prompts.len() + i]) is Some);
        }
        let instants = instants_of(times)->0;
        if times.len() > 0 {
            span_bounds(instants);
            let (start, end) = span_of(instants)->0;
            assert forall|k: int| 0 <= k < instants.len() implies has_time(
                session,
                #[trigger] instants[k],
            ) by {
                if k < prompts.len() {
                    assert(clock::rfc3339_instant(prompts[k].timestamp) == Some(instants[k]));
                } else {
                    let t = k - prompts.len();
                    assert(clock::rfc3339_instant(turns[t].timestamp) == Some(instants[k]));
                }
            }
            let i = choose|i: int| 0 <= i < instants.len() && instants[i] == start;
            let j = choose|j: int| 0 <= j < instants.len() && instants[j] == end;
            assert(has_time(session, instants[i]) && has_time(session, instants[j]));
            assert forall|at: Instant| #[trigger] has_time(session, at) implies not_after(start, at)
                && not_after(at, end) by {
                if exists|i: int|
                    0 <= i < prompts.len() && clock::rfc3339_instant(
                        (#[trigger] prompts[i]).timestamp,
                    ) == Some(at) {
                    let i = choose|i: int|
                        0 <= i < prompts.len() && clock::rfc3339_instant(
                            (#[trigger] prompts[i]).timestamp,
                        ) == Some(at);
                    assert(instants[i] == at);
                } else {
                    let i = choose|i: int|
                        0 <= i < turns.len() && clock::rfc3339_instant(
                            (#[trigger] turns[i]).timestamp,
                        ) == Some(at);
                    assert(instants[prompts.len() + i] == at);
                }
            }
        }
    } else {
        let i = choose|i: int|
            0 <= i < times.len() && clock::rfc3339_instant(#[trigger] times[i]) is None;
        if i < prompts.len() {
            assert(clock::rfc3339_instant(prompts[i].timestamp) is None);
        } else {
            assert(clock::rfc3339_instant(turns[i - prompts.len()].timestamp) is None);
        }
    }
}

/// Sessions give the intervals of those that have a span, in order: each with the span, the project
/// and the name of its session.
pub proof fn intervals_are_spans(
    sessions: Seq<SessionView>,
    others: Seq<SessionView>,
    session: SessionView,
)
    ensures
        intervals_of(sessions + others) == intervals_of(sessions) + intervals_of(others),
        session_span(session) is None ==> intervals_of(seq![session]).len() == 0,
        session_span(session) matches Some((start, end)) ==> intervals_of(seq![session]) == seq![
            IntervalView {
                start,
                end,
                project: session.project,
                session_id: session.session_id,
            },
        ],
    decreases others.len(),
{
    reveal_with_fuel(intervals_of, 2);
    assert(seq![session].drop_last() =~= Seq::<SessionView>::empty());
    if session_span(session) is Some {
        assert(intervals_of(seq![session]) =~= seq![interval_of(session)]);
    }
    if others.len() > 0 {
        intervals_are_spans(sessions, others.drop_last(), session);
        assert((sessions + others).drop_last() =~= sessions + others.drop_last());
        assert((sessions + others).last() == others.last());
    } else {
        assert(sessions + others =~= sessions);
    }
    assert(intervals_of(sessions + others) =~= intervals_of(sessions) + intervals_of(others));
}

/// Work is looked at in the order in which the sessions start, and where two start at one time in
/// the order of their names; no interval is added and none is lost.
pub proof fn intervals_stand_by_start(sessions: Seq<SessionView>, i: int, j: int)
    requires
        0 <= i < j < ordered_intervals(sessions).len(),
    ensures
        ordered_intervals(sessions).to_multiset() == intervals_of(sessions).to_multiset(),
        ({
            let a = ordered_intervals(sessions)[i];
            let b = ordered_intervals(sessions)[j];
            &&& not_after(a.start, b.start)
            &&& a.start == b.start ==> text::text_leq(a.session_id, b.session_id)
        }),
{
    let leq = order::order_of::<FocusInterval<'static>, ByStart>();
    order::sorted_keeps_items(intervals_of(sessions), leq);
    order::sorted_is_ascending::<FocusInterval<'static>, ByStart>(intervals_of(sessions));
    assert(leq(ordered_intervals(sessions)[i], ordered_intervals(sessions)[j]));
}

proof fn sessions_run_forward(sessions: Seq<SessionView>)
    ensures
        run_forward(ordered_intervals(sessions)),
{
    let found = intervals_of(sessions);
    assert forall|i: int| 0 <= i < found.len() implies (#[trigger] found[i]).start.leq(
        found[i].end,
    ) by {
        assert(found.contains(found[i]));
        interval_has_session(sessions, found[i]);
        let k = choose|k: int|
            0 <= k < sessions.len() && session_span(#[trigger] sessions[k]) is Some && interval_of(
                sessions[k],
            ) == found[i];
        span_is_first_to_last(sessions[k]);
    }
    by_start_runs_forward(found);
}

/// The focus of sessions: one block more than there are pauses of half an hour or more, as many
/// switches as neighbours of different projects without such a pause between them, and the longest
/// block, to the nanosecond, for the main window, the first of them where several are equally long, of
/// which whole minutes are given.
pub proof fn focus_is_what_it_says(sessions: Seq<SessionView>)
    requires
        ordered_intervals(sessions).len() > 0,
    ensures
        ({
            let work = ordered_intervals(sessions);
            let focus = focus_of(sessions);
            &&& focus.focus_blocks == 1 + lists::count_below(
                (work.len() - 1) as nat,
                |i: int| long_pause(work, i),
            )
            &&& focus.context_switches == lists::count_below(
                (work.len() - 1) as nat,
                |i: int| !long_pause(work, i) && work[i].project != work[i + 1].project,
            )
            &&& main_window(sessions) matches Some((start, end)) && {
                let nanos = clock::nanos_between(end, start);
                &&& exists|firsts: Seq<int>| #[trigger] divides(firsts, work)
                &&& exists|b: int|
                    0 <= b < blocks_of(work).len() && #[trigger] blocks_of(work)[b] == (start, end)
                        && forall|c: int|
                        0 <= c < b ==> clock::nanos_between(
                            (#[trigger] blocks_of(work)[c]).1,
                            blocks_of(work)[c].0,
                        ) < nanos
                &&& forall|b: int|
                    0 <= b < blocks_of(work).len() ==> clock::nanos_between(
                        (#[trigger] blocks_of(work)[b]).1,
                        blocks_of(work)[b].0,
                    ) <= nanos
                &&& nanos >= 0 ==> focus.longest_focus_minutes * 60_000_000_000 <= nanos < (
                focus.longest_focus_minutes + 1) * 60_000_000_000
                &&& -60_000_000_000 < nanos < 0 ==> focus.longest_focus_minutes == 0
            }
        }),
{
    let work = ordered_intervals(sessions);
    sessions_run_forward(sessions);
    pauses_and_switches_are_counted(work);
    let firsts = blocks_end_with_long_pauses(work);
    assert(divides(firsts, work));
    let b = longest_of_place(blocks_of(work));
    assert(blocks_of(work)[b] == main_window(sessions)->0);
    assert forall|c: int| 0 <= c < b implies clock::nanos_between(
        (#[trigger] blocks_of(work)[c]).1,
        blocks_of(work)[c].0,
    ) < clock::nanos_between(blocks_of(work)[b].1, blocks_of(work)[b].0) by {
        assert(length_of(blocks_of(work)[c]) < length_of(blocks_of(work)[b]));
    }
    assert forall|c: int| 0 <= c < blocks_of(work).len() implies clock::nanos_between(
        (#[trigger] blocks_of(work)[c]).1,
        blocks_of(work)[c].0,
    ) <= clock::nanos_between(blocks_of(work)[b].1, blocks_of(work)[b].0) by {
        assert(length_of(blocks_of(work)[c]) <= length_of(blocks_of(work)[b]));
    }
}

/// The views of the focus and of an interval are their fields.
pub proof fn focus_shows_its_fields<'a>(stats: FocusStats, interval: FocusInterval<'a>)
    ensures
        stats.deep_view().context_switches == stats.context_switches,
        stats.deep_view().longest_focus_minutes == stats.longest_focus_minutes,
        stats.deep_view().focus_blocks == stats.focus_blocks,
        interval.deep_view().start == interval.start,
        interval.deep_view().end == interval.end,
        interval.deep_view().project == interval.project@,
        interval.deep_view().session_id == interval.session_id@,
{
}

/// Intervals that start at one time and belong to sessions of one name keep their order.
pub proof fn starts_keep_ties(intervals: Seq<IntervalView>, x: IntervalView)
    ensures
        by_start(intervals).filter(
            |y: IntervalView| y.start == x.start && y.session_id == x.session_id,
        ) == intervals.filter(
            |y: IntervalView| y.start == x.start && y.session_id == x.session_id,
        ),
{
    let same = |y: IntervalView| y.start == x.start && y.session_id == x.session_id;
    let level = order::level_with::<FocusInterval<'static>, ByStart>(x);
    order::sorted_is_stable::<FocusInterval<'static>, ByStart>(intervals, x);
    assert forall|y: IntervalView| #[trigger] level(y) == same(y) by {
        text::text_leq_total(x.session_id, x.session_id);
        if level(y) {
            text::text_leq_antisymmetric(x.session_id, y.session_id);
        }
    }
    lists::filter_same(intervals, level, same);
    lists::filter_same(by_start(intervals), level, same);
}

} // verus!
