//! The output of a collection run.

use crate::clock;
use crate::clock::{
    ask_machine, format_local_time, parse_rfc3339, read_clock, Instant, LocalOffsets,
};
use crate::decisions;
use crate::decisions::{extract_decisions, DecisionPoint, DecisionView};
use crate::focus;
use crate::focus::{compute_focus, parsed_session_range, FocusCalculation};
use crate::limits;
use crate::lists;
use crate::order;
use crate::session;
use crate::session::{
    sort_sessions_by_recency, summarize_session, RawSession, SessionSummary, SessionSummaryView,
    SessionView,
};
use crate::stats;
use crate::stats::{compute_stats, AggregateStats, StatsView};
use crate::tally;
use crate::tally::{rank, Count};
use crate::text;
use vstd::prelude::*;
use vstd::string::*;

verus! {

// ---------------------------------------------------------------------------
// Types
// ---------------------------------------------------------------------------

/// The days that a report covers, both included.
pub struct OutputPeriod {
    pub from: Option<String>,
    pub to: Option<String>,
    pub timezone: String,
}

/// The days that a report covers, both included.
pub struct PeriodView {
    pub from: Option<Seq<char>>,
    pub to: Option<Seq<char>>,
    pub timezone: Seq<char>,
}

impl DeepView for OutputPeriod {
    type V = PeriodView;

    open spec fn deep_view(&self) -> PeriodView {
        PeriodView {
            from: self.from.deep_view(),
            to: self.to.deep_view(),
            timezone: self.timezone@,
        }
    }
}

/// The source that was asked for, and those that were read.
pub struct SourceMeta {
    pub requested: String,
    pub resolved: Vec<String>,
}

/// The source that was asked for, and those that were read.
#[verifier::ext_equal]
pub struct SourceView {
    pub requested: Seq<char>,
    pub resolved: Seq<Seq<char>>,
}

impl DeepView for SourceMeta {
    type V = SourceView;

    open spec fn deep_view(&self) -> SourceView {
        SourceView { requested: self.requested@, resolved: self.resolved.deep_view() }
    }
}

/// What a report was made of.
pub struct OutputMeta {
    pub generated_at: String,
    pub filter_label: String,
    pub period: OutputPeriod,
    pub source: SourceMeta,
    pub total_sessions: usize,
    pub total_files_scanned: usize,
}

/// What a report was made of.
#[verifier::ext_equal]
pub struct MetaView {
    pub generated_at: Seq<char>,
    pub filter_label: Seq<char>,
    pub period: PeriodView,
    pub source: SourceView,
    pub total_sessions: nat,
    pub total_files_scanned: nat,
}

impl DeepView for OutputMeta {
    type V = MetaView;

    open spec fn deep_view(&self) -> MetaView {
        MetaView {
            generated_at: self.generated_at@,
            filter_label: self.filter_label@,
            period: self.period.deep_view(),
            source: self.source.deep_view(),
            total_sessions: self.total_sessions as nat,
            total_files_scanned: self.total_files_scanned as nat,
        }
    }
}

/// A session with its first and last local time.
pub struct LocalSession {
    pub session_id: String,
    pub project: String,
    pub start_local: Option<String>,
    pub end_local: Option<String>,
}

/// A session with its first and last local time.
pub struct LocalSessionView {
    pub session_id: Seq<char>,
    pub project: Seq<char>,
    pub start_local: Option<Seq<char>>,
    pub end_local: Option<Seq<char>>,
}

impl DeepView for LocalSession {
    type V = LocalSessionView;

    open spec fn deep_view(&self) -> LocalSessionView {
        LocalSessionView {
            session_id: self.session_id@,
            project: self.project@,
            start_local: self.start_local.deep_view(),
            end_local: self.end_local.deep_view(),
        }
    }
}

/// The longest block of work in local time, and how it was found.
pub struct MainWorkWindowLocal {
    pub start: String,
    pub end: String,
    pub method: &'static str,
}

/// The longest block of work in local time, and how it was found.
pub struct WindowView {
    pub start: Seq<char>,
    pub end: Seq<char>,
    pub method: Seq<char>,
}

impl DeepView for MainWorkWindowLocal {
    type V = WindowView;

    open spec fn deep_view(&self) -> WindowView {
        WindowView { start: self.start@, end: self.end@, method: self.method@ }
    }
}

/// A tool and how often it was used.
pub struct ToolFrequencyItem {
    pub name: String,
    pub count: u32,
}

impl DeepView for ToolFrequencyItem {
    type V = (Seq<char>, nat);

    open spec fn deep_view(&self) -> (Seq<char>, nat) {
        (self.name@, self.count as nat)
    }
}

/// What a report shows without further computation.
pub struct RenderHelpers {
    pub sessions_local: Vec<LocalSession>,
    pub main_work_window_local: Option<MainWorkWindowLocal>,
    pub tool_frequency_top5: Vec<ToolFrequencyItem>,
}

/// What a report shows without further computation.
#[verifier::ext_equal]
pub struct HelpersView {
    pub sessions_local: Seq<LocalSessionView>,
    pub main_work_window_local: Option<WindowView>,
    pub tool_frequency_top5: Seq<(Seq<char>, nat)>,
}

impl DeepView for RenderHelpers {
    type V = HelpersView;

    open spec fn deep_view(&self) -> HelpersView {
        HelpersView {
            sessions_local: self.sessions_local.deep_view(),
            main_work_window_local: self.main_work_window_local.deep_view(),
            tool_frequency_top5: self.tool_frequency_top5.deep_view(),
        }
    }
}

/// The output of a collection run.
pub struct CollectorOutput {
    pub meta: OutputMeta,
    pub sessions: Vec<SessionSummary>,
    pub decisions: Vec<DecisionPoint>,
    pub stats: AggregateStats,
    pub render_helpers: RenderHelpers,
}

/// The output of a collection run.
#[verifier::ext_equal]
pub struct OutputView {
    pub meta: MetaView,
    pub sessions: Seq<SessionSummaryView>,
    pub decisions: Seq<DecisionView>,
    pub stats: StatsView,
    pub render_helpers: HelpersView,
}

impl DeepView for CollectorOutput {
    type V = OutputView;

    open spec fn deep_view(&self) -> OutputView {
        OutputView {
            meta: self.meta.deep_view(),
            sessions: self.sessions.deep_view(),
            decisions: self.decisions.deep_view(),
            stats: self.stats.deep_view(),
            render_helpers: self.render_helpers.deep_view(),
        }
    }
}

// ---------------------------------------------------------------------------
// Render helpers
// ---------------------------------------------------------------------------

/// The name of the way in which the main window is found.
pub const WINDOW_METHOD: &'static str = "longest_block_with_gaps_under_30_minutes";

/// A session with its first and last local time; without them where a timestamp cannot be read.
pub open spec fn local_session(session: SessionView, offsets: Map<i64, i32>) -> LocalSessionView {
    LocalSessionView {
        session_id: session.session_id,
        project: session.project,
        start_local: match focus::session_span(session) {
            Some((start, _)) => Some(clock::local_time(start, offsets)),
            None => None,
        },
        end_local: match focus::session_span(session) {
            Some((_, end)) => Some(clock::local_time(end, offsets)),
            None => None,
        },
    }
}

/// A block of work in local time.
pub open spec fn local_window(
    window: Option<(Instant, Instant)>,
    offsets: Map<i64, i32>,
) -> Option<WindowView> {
    match window {
        Some((start, end)) => Some(
            WindowView {
                start: clock::local_time(start, offsets),
                end: clock::local_time(end, offsets),
                method: WINDOW_METHOD@,
            },
        ),
        None => None,
    }
}

/// What a report shows without further computation: the local times of the sessions, left out where
/// only statistics are wanted, the longest block of work, and the five tools that were used most.
pub open spec fn helpers_of(
    sessions: Seq<SessionView>,
    tool_frequency: Seq<(Seq<char>, nat)>,
    window: Option<(Instant, Instant)>,
    stats_only: bool,
    offsets: Map<i64, i32>,
) -> HelpersView {
    HelpersView {
        sessions_local: if stats_only {
            Seq::empty()
        } else {
            sessions.map_values(|s: SessionView| local_session(s, offsets))
        },
        main_work_window_local: local_window(window, offsets),
        tool_frequency_top5: lists::first_items(tally::ranked(tool_frequency), 5),
    }
}

/// Whether `text` names the second of `at` as a time with its zone, where the local time of `at` can
/// be read back from its form.
pub open spec fn reads_back(text: Seq<char>, at: Instant, offsets: Map<i64, i32>) -> bool {
    clock::is_readable_local(at, clock::offset_at(offsets, at.secs)) ==> clock::rfc3339_instant(text)
        == Some(clock::start_of_second(at))
}

/// Whether `text` is there exactly where a time is, and names its second.
pub open spec fn names_time(
    text: Option<Seq<char>>,
    at: Option<Instant>,
    offsets: Map<i64, i32>,
) -> bool {
    match (text, at) {
        (Some(text), Some(at)) => reads_back(text, at, offsets),
        (None, None) => true,
        _ => false,
    }
}

/// Whether the local times in `local` name the first and the last second of `session`.
pub open spec fn names_session_times(
    local: LocalSessionView,
    session: SessionView,
    offsets: Map<i64, i32>,
) -> bool {
    match focus::session_span(session) {
        Some((start, end)) => names_time(local.start_local, Some(start), offsets) && names_time(
            local.end_local,
            Some(end),
            offsets,
        ),
        None => local.start_local is None && local.end_local is None,
    }
}

/// Whether the local times in `local` name the first and the last second of `window`.
pub open spec fn names_window_times(
    local: Option<WindowView>,
    window: Option<(Instant, Instant)>,
    offsets: Map<i64, i32>,
) -> bool {
    match (local, window) {
        (Some(local), Some((start, end))) => reads_back(local.start, start, offsets) && reads_back(
            local.end,
            end,
            offsets,
        ),
        (None, None) => true,
        _ => false,
    }
}

/// Whether each local time in `helpers` names the second that it stands for: those of the sessions,
/// in their order, and those of the longest block of work.
pub open spec fn local_times_read_back(
    helpers: HelpersView,
    sessions: Seq<SessionView>,
    window: Option<(Instant, Instant)>,
    offsets: Map<i64, i32>,
) -> bool {
    &&& forall|i: int|
        0 <= i < helpers.sessions_local.len() ==> names_session_times(
            #[trigger] helpers.sessions_local[i],
            sessions[i],
            offsets,
        )
    &&& names_window_times(helpers.main_work_window_local, window, offsets)
}

/// Gives each session its first and last local time.
fn list_local_sessions(sessions: &Vec<RawSession>, offsets: &LocalOffsets) -> (local: Vec<
    LocalSession,
>)
    requires
        clock::are_offsets(offsets@),
    ensures
        local.deep_view() == sessions.deep_view().map_values(
            |s: SessionView| local_session(s, offsets@),
        ),
        forall|i: int|
            0 <= i < local.len() ==> names_session_times(
                #[trigger] local.deep_view()[i],
                sessions.deep_view()[i],
                offsets@,
            ),
{
    let ghost all = sessions.deep_view();
    let ghost f = |s: SessionView| local_session(s, offsets@);
    let mut local: Vec<LocalSession> = Vec::new();
    let mut i: usize = 0;
    assert(local.deep_view() =~= all.map_values(f).take(0));
    while i < sessions.len()
        invariant
            i <= sessions.len(),
            clock::are_offsets(offsets@),
            all == sessions.deep_view(),
            f == (|s: SessionView| local_session(s, offsets@)),
            local.deep_view() == all.map_values(f).take(i as int),
            forall|k: int|
                0 <= k < i ==> names_session_times(#[trigger] f(all[k]), all[k], offsets@),
        decreases sessions.len() - i,
    {
        let session = &sessions[i];
        let ghost before = local.deep_view();
        assert(all[i as int] == session.deep_view());
        let (start_local, end_local): (Option<String>, Option<String>) = match parsed_session_range(
            session,
        ) {
            Some((start, end)) => (
                Some(format_local_time(&start, offsets)),
                Some(format_local_time(&end, offsets)),
            ),
            None => (None, None),
        };
        local.push(
            LocalSession {
                session_id: session.session_id.clone(),
                project: session.project.clone(),
                start_local,
                end_local,
            },
        );
        assert(local.deep_view() =~= before.push(f(all[i as int])));
        i = i + 1;
        assert(local.deep_view() =~= all.map_values(f).take(i as int));
    }
    assert(all.map_values(f).take(i as int) =~= all.map_values(f));
    proof {
        assert forall|k: int| 0 <= k < local.len() implies names_session_times(
            #[trigger] local.deep_view()[k],
            all[k],
            offsets@,
        ) by {
            assert(local.deep_view()[k] == f(all[k]));
        }
    }
    local
}

/// Copies the first `max` of the ranked tools.
fn top_tools(ranked: &Vec<Count>, max: usize) -> (top: Vec<ToolFrequencyItem>)
    ensures
        top.deep_view() == lists::first_items(ranked.deep_view(), max as nat),
{
    let ghost all = ranked.deep_view();
    let mut top: Vec<ToolFrequencyItem> = Vec::new();
    let mut i: usize = 0;
    while i < ranked.len() && i < max
        invariant
            i <= ranked.len(),
            i <= max,
            all == ranked.deep_view(),
            top.deep_view() == all.take(i as int),
        decreases ranked.len() - i,
    {
        let entry = &ranked[i];
        let ghost before = top.deep_view();
        top.push(ToolFrequencyItem { name: entry.name.clone(), count: entry.count });
        assert(top.deep_view() =~= before.push(all[i as int]));
        i = i + 1;
        assert(top.deep_view() =~= all.take(i as int));
    }
    if i == ranked.len() {
        assert(all.take(i as int) =~= all);
    }
    assert(all.take(i as int) =~= lists::first_items(all, max as nat));
    top
}

/// Computes what a report shows without further computation.
pub fn build_render_helpers(
    sessions: &Vec<RawSession>,
    stats: &AggregateStats,
    focus: &FocusCalculation,
    stats_only: bool,
    offsets: &LocalOffsets,
) -> (helpers: RenderHelpers)
    requires
        clock::are_offsets(offsets@),
        focus.main_work_window matches Some(window) ==> window.0.in_calendar()
            && window.1.in_calendar(),
    ensures
        helpers.deep_view() == helpers_of(
            sessions.deep_view(),
            stats.deep_view().tool_frequency,
            focus.main_work_window,
            stats_only,
            offsets@,
        ),
        local_times_read_back(
            helpers.deep_view(),
            sessions.deep_view(),
            focus.main_work_window,
            offsets@,
        ),
{
    let sessions_local: Vec<LocalSession> = if stats_only {
        Vec::new()
    } else {
        list_local_sessions(sessions, offsets)
    };
    let main_work_window_local: Option<MainWorkWindowLocal> = match &focus.main_work_window {
        Some((start, end)) => Some(
            MainWorkWindowLocal {
                start: format_local_time(start, offsets),
                end: format_local_time(end, offsets),
                method: WINDOW_METHOD,
            },
        ),
        None => None,
    };
    let tools: Vec<Count> = rank(&stats.tool_frequency);
    let helpers = RenderHelpers {
        sessions_local,
        main_work_window_local,
        tool_frequency_top5: top_tools(&tools, 5),
    };
    proof {
        if stats_only {
            assert(helpers.sessions_local.deep_view() =~= Seq::empty());
        }
    }
    helpers
}

// ---------------------------------------------------------------------------
// Output
// ---------------------------------------------------------------------------

/// The output for `sessions`, given the time of the run and the offsets of local time.
pub open spec fn output_of(
    sessions: Seq<SessionView>,
    filter_label: Seq<char>,
    period: PeriodView,
    total_files_scanned: nat,
    stats_only: bool,
    source: SourceView,
    generated_at: Seq<char>,
    offsets: Map<i64, i32>,
) -> OutputView {
    let recent = session::by_recency(sessions);
    let found = decisions::decisions_of(recent);
    let stats = stats::stats_of(recent, found, focus::focus_of(recent), offsets);
    OutputView {
        meta: MetaView {
            generated_at,
            filter_label,
            period,
            source,
            total_sessions: sessions.len(),
            total_files_scanned,
        },
        sessions: if stats_only {
            Seq::empty()
        } else {
            recent.map_values(|s: SessionView| session::summary_of(s))
        },
        decisions: found,
        stats,
        render_helpers: helpers_of(
            recent,
            stats.tool_frequency,
            focus::main_window(recent),
            stats_only,
            offsets,
        ),
    }
}

/// Sums up each session.
fn summarize_sessions(sessions: &Vec<RawSession>) -> (summaries: Vec<SessionSummary>)
    requires
        stats::totals_fit(sessions.deep_view()),
    ensures
        summaries.deep_view() == sessions.deep_view().map_values(
            |s: SessionView| session::summary_of(s),
        ),
{
    let ghost all = sessions.deep_view();
    let ghost f = |s: SessionView| session::summary_of(s);
    let mut summaries: Vec<SessionSummary> = Vec::new();
    let mut i: usize = 0;
    assert(summaries.deep_view() =~= all.map_values(f).take(0));
    while i < sessions.len()
        invariant
            i <= sessions.len(),
            all == sessions.deep_view(),
            f == (|s: SessionView| session::summary_of(s)),
            stats::totals_fit(all),
            summaries.deep_view() == all.map_values(f).take(i as int),
        decreases sessions.len() - i,
    {
        let ghost before = summaries.deep_view();
        proof {
            stats::sessions_fit(all, i as int);
            assert(all[i as int] == sessions[i as int].deep_view());
        }
        summaries.push(summarize_session(&sessions[i]));
        assert(summaries.deep_view() =~= before.push(f(all[i as int])));
        i = i + 1;
        assert(summaries.deep_view() =~= all.map_values(f).take(i as int));
    }
    assert(all.map_values(f).take(i as int) =~= all.map_values(f));
    summaries
}

/// Makes the output for `sessions`, given the time of the run and the offsets of local time.
pub fn assemble_output(
    sessions: Vec<RawSession>,
    filter_label: &str,
    period: OutputPeriod,
    total_files_scanned: usize,
    stats_only: bool,
    source: SourceMeta,
    generated_at: String,
    offsets: &LocalOffsets,
) -> (output: CollectorOutput)
    requires
        stats::totals_fit(sessions.deep_view()),
        clock::are_offsets(offsets@),
        tally::countable(stats::all_hours(sessions.deep_view(), offsets@)),
    ensures
        output.deep_view() == output_of(
            sessions.deep_view(),
            filter_label@,
            period.deep_view(),
            total_files_scanned as nat,
            stats_only,
            source.deep_view(),
            generated_at@,
            offsets@,
        ),
        local_times_read_back(
            output.deep_view().render_helpers,
            session::by_recency(sessions.deep_view()),
            focus::main_window(session::by_recency(sessions.deep_view())),
            offsets@,
        ),
{
    let ghost given = sessions.deep_view();
    let recent: Vec<RawSession> = sort_sessions_by_recency(sessions);
    proof {
        let leq = session::more_recent();
        assert(recent.deep_view() == order::sorted(given, leq));
        order::sorted_keeps_items(given, leq);
        stats::totals_ignore_order(given, recent.deep_view());
        stats::hours_ignore_order(given, recent.deep_view(), offsets@);
        assert forall|hour: Seq<char>| #[trigger] tally::occurrences(
            stats::all_hours(recent.deep_view(), offsets@),
            hour,
        ) <= u32::MAX by {
            assert(tally::occurrences(stats::all_hours(given, offsets@), hour) <= u32::MAX);
        }
        assert forall|name: Seq<char>|
            stats::all_messages(#[trigger] stats::of_project(recent.deep_view(), name))
                <= usize::MAX by {
            assert(stats::all_messages(stats::of_project(given, name)) <= usize::MAX);
        }
        assert forall|tool: Seq<char>| #[trigger] tally::occurrences(
            stats::all_tools(recent.deep_view()),
            tool,
        ) <= u32::MAX by {
            assert(tally::occurrences(stats::all_tools(given), tool) <= u32::MAX);
        }
    }
    let found: Vec<DecisionPoint> = extract_decisions(&recent);
    let focus: FocusCalculation = compute_focus(&recent);
    let stats: AggregateStats = compute_stats(&recent, &found, focus.stats, offsets);
    let render_helpers: RenderHelpers = build_render_helpers(
        &recent,
        &stats,
        &focus,
        stats_only,
        offsets,
    );
    let summaries: Vec<SessionSummary> = if stats_only {
        Vec::new()
    } else {
        summarize_sessions(&recent)
    };
    let output = CollectorOutput {
        meta: OutputMeta {
            generated_at,
            filter_label: filter_label.to_owned(),
            period,
            source,
            total_sessions: recent.len(),
            total_files_scanned,
        },
        sessions: summaries,
        decisions: found,
        stats,
        render_helpers,
    };
    proof {
        if stats_only {
            assert(output.sessions.deep_view() =~= Seq::empty());
        }
    }
    output
}

/// Whether the table has an entry for each second that one of `timestamps` names.
pub open spec fn covers(offsets: Map<i64, i32>, timestamps: Seq<Seq<char>>) -> bool {
    forall|i: int|
        0 <= i < timestamps.len() ==> (clock::rfc3339_instant(#[trigger] timestamps[i]) matches Some(
            t,
        ) ==> offsets.contains_key(t.secs))
}

/// Enters the machine's offset at the time that `timestamp` names, where it names one.
fn enter_offset(offsets: &mut LocalOffsets, timestamp: &str, Ghost(seen): Ghost<Seq<Seq<char>>>)
    requires
        clock::are_offsets(old(offsets)@),
        clock::are_machine_offsets(old(offsets)@),
        covers(old(offsets)@, seen),
    ensures
        clock::are_offsets(final(offsets)@),
        clock::are_machine_offsets(final(offsets)@),
        covers(final(offsets)@, seen.push(timestamp@)),
{
    if let Some(t) = parse_rfc3339(timestamp) {
        let offset: i32 = ask_machine(t);
        offsets.set(t.secs, offset);
    }
}

/// Asks the machine for the offset of local time at each timestamp of `sessions`.
fn read_offsets(sessions: &Vec<RawSession>) -> (offsets: LocalOffsets)
    ensures
        clock::are_offsets(offsets@),
        clock::are_machine_offsets(offsets@),
        covers(offsets@, stats::all_timestamps(sessions.deep_view())),
{
    let ghost all = sessions.deep_view();
    let ghost f = |s: SessionView| session::timestamps(s);
    let mut offsets: LocalOffsets = LocalOffsets::new();
    let mut i: usize = 0;
    while i < sessions.len()
        invariant
            i <= sessions.len(),
            all == sessions.deep_view(),
            f == (|s: SessionView| session::timestamps(s)),
            clock::are_offsets(offsets@),
            clock::are_machine_offsets(offsets@),
            covers(offsets@, stats::all_timestamps(all.take(i as int))),
        decreases sessions.len() - i,
    {
        let session = &sessions[i];
        let ghost seen = stats::all_timestamps(all.take(i as int));
        let ghost own = session::timestamps(session.deep_view());
        let ghost prompts = session.deep_view().prompts;
        let mut j: usize = 0;
        assert(seen + own.take(0) =~= seen);
        while j < session.user_entries.len()
            invariant
                j <= session.user_entries.len(),
                own == session::timestamps(session.deep_view()),
                prompts == session.deep_view().prompts,
                clock::are_offsets(offsets@),
                clock::are_machine_offsets(offsets@),
                covers(offsets@, seen + own.take(j as int)),
            decreases session.user_entries.len() - j,
        {
            let timestamp: &str = session.user_entries[j].timestamp.as_str();
            assert(own[j as int] == timestamp@);
            enter_offset(&mut offsets, timestamp, Ghost(seen + own.take(j as int)));
            assert((seen + own.take(j as int)).push(timestamp@) =~= seen + own.take(j + 1));
            j = j + 1;
        }
        let mut k: usize = 0;
        while k < session.assistant_entries.len()
            invariant
                k <= session.assistant_entries.len(),
                own == session::timestamps(session.deep_view()),
                prompts == session.deep_view().prompts,
                clock::are_offsets(offsets@),
                clock::are_machine_offsets(offsets@),
                covers(offsets@, seen + own.take(prompts.len() + k)),
            decreases session.assistant_entries.len() - k,
        {
            let timestamp: &str = session.assistant_entries[k].timestamp.as_str();
            let ghost n = prompts.len() + k;
            assert(own[n] == timestamp@);
            enter_offset(&mut offsets, timestamp, Ghost(seen + own.take(n)));
            assert((seen + own.take(n)).push(timestamp@) =~= seen + own.take(n + 1));
            k = k + 1;
        }
        proof {
            assert(own.take(own.len() as int) =~= own);
            assert(all[i as int] == session.deep_view());
            lists::flat_by_step(all, i as int, f);
        }
        i = i + 1;
    }
    assert(all.take(i as int) =~= all);
    offsets
}

/// Makes the output for `sessions`: reads the clock and the machine's time zone, and assembles it.
pub fn build_output(
    sessions: Vec<RawSession>,
    filter_label: &str,
    period: OutputPeriod,
    total_files_scanned: usize,
    stats_only: bool,
    source: SourceMeta,
) -> (output: CollectorOutput)
    requires
        limits::reportable(sessions.deep_view()),
    ensures
        exists|generated_at: Seq<char>, offsets: Map<i64, i32>|
            #![trigger output_of(
                sessions.deep_view(),
                filter_label@,
                period.deep_view(),
                total_files_scanned as nat,
                stats_only,
                source.deep_view(),
                generated_at,
                offsets,
            )]
            clock::is_written_time(generated_at) && clock::is_reading_of_clock(generated_at)
                && clock::are_offsets(offsets) && clock::are_machine_offsets(offsets) && covers(
                offsets,
                stats::all_timestamps(sessions.deep_view()),
            ) && output.deep_view() == output_of(
                sessions.deep_view(),
                filter_label@,
                period.deep_view(),
                total_files_scanned as nat,
                stats_only,
                source.deep_view(),
                generated_at,
                offsets,
            ) && local_times_read_back(
                output.deep_view().render_helpers,
                session::by_recency(sessions.deep_view()),
                focus::main_window(session::by_recency(sessions.deep_view())),
                offsets,
            ),
{
    let offsets: LocalOffsets = read_offsets(&sessions);
    let generated_at: String = read_clock();
    proof {
        let hours = stats::all_hours(sessions.deep_view(), offsets@);
        stats::all_hours_bound(sessions.deep_view(), offsets@);
        assert forall|hour: Seq<char>| #[trigger] tally::occurrences(hours, hour) <= u32::MAX by {
            tally::occurrences_at_most_len(hours, hour);
        }
    }
    assemble_output(
        sessions,
        filter_label,
        period,
        total_files_scanned,
        stats_only,
        source,
        generated_at,
        &offsets,
    )
}

// ---------------------------------------------------------------------------
// Laws
// ---------------------------------------------------------------------------

/// Leaving out the details leaves out the sessions and their local times, and nothing else.
pub proof fn stats_only_leaves_out_sessions(
    sessions: Seq<SessionView>,
    filter_label: Seq<char>,
    period: PeriodView,
    total_files_scanned: nat,
    source: SourceView,
    generated_at: Seq<char>,
    offsets: Map<i64, i32>,
)
    ensures
        ({
            let full = output_of(
                sessions,
                filter_label,
                period,
                total_files_scanned,
                false,
                source,
                generated_at,
                offsets,
            );
            let short = output_of(
                sessions,
                filter_label,
                period,
                total_files_scanned,
                true,
                source,
                generated_at,
                offsets,
            );
            &&& short.sessions.len() == 0
            &&& short.render_helpers.sessions_local.len() == 0
            &&& full.sessions.len() == sessions.len()
            &&& full.render_helpers.sessions_local.len() == sessions.len()
            &&& short.meta == full.meta
            &&& short.decisions == full.decisions
            &&& short.stats == full.stats
            &&& short.render_helpers.main_work_window_local
                == full.render_helpers.main_work_window_local
            &&& short.render_helpers.tool_frequency_top5 == full.render_helpers.tool_frequency_top5
        }),
{
    order::sorted_keeps_items(sessions, session::more_recent());
}

/// The numbers of an output agree: its sessions are those of the projects together, and its
/// decisions are counted where decisions are.
pub proof fn output_numbers_agree(
    sessions: Seq<SessionView>,
    filter_label: Seq<char>,
    period: PeriodView,
    total_files_scanned: nat,
    stats_only: bool,
    source: SourceView,
    generated_at: Seq<char>,
    offsets: Map<i64, i32>,
)
    ensures
        ({
            let output = output_of(
                sessions,
                filter_label,
                period,
                total_files_scanned,
                stats_only,
                source,
                generated_at,
                offsets,
            );
            &&& output.meta.total_sessions == lists::sum_by(
                output.stats.projects_worked_on,
                |p: stats::ProjectView| p.session_count,
            )
            &&& output.stats.total_user_messages + output.stats.total_assistant_messages
                == lists::sum_by(
                output.stats.projects_worked_on,
                |p: stats::ProjectView| p.message_count,
            )
            &&& output.stats.total_decisions == output.decisions.len()
        }),
{
    let recent = session::by_recency(sessions);
    order::sorted_keeps_items(sessions, session::more_recent());
    stats::projects_add_up(recent);
}

/// No tool was used more often than one of the five that a report names, unless it is one of them.
pub proof fn top_tools_are_used_most(
    sessions: Seq<SessionView>,
    tools: Seq<Seq<char>>,
    window: Option<(Instant, Instant)>,
    stats_only: bool,
    offsets: Map<i64, i32>,
    tool: Seq<char>,
    i: int,
)
    requires
        ({
            let top = helpers_of(
                sessions,
                tally::tally(tools),
                window,
                stats_only,
                offsets,
            ).tool_frequency_top5;
            0 <= i < top.len() && !tally::lists(top, tool)
        }),
    ensures
        ({
            let top = helpers_of(
                sessions,
                tally::tally(tools),
                window,
                stats_only,
                offsets,
            ).tool_frequency_top5;
            &&& top.len() <= 5
            &&& top[i].1 == tally::occurrences(tools, top[i].0)
            &&& tally::occurrences(tools, tool) <= top[i].1
        }),
{
    let table = tally::tally(tools);
    let ranked = tally::ranked(table);
    let top = lists::first_items(ranked, 5);
    let leq = order::order_of::<Count, tally::ByCount>();
    assert(top[i] == ranked[i]);
    assert(ranked.contains(top[i]));
    order::sorted_contains(table, leq, top[i]);
    let a = choose|a: int| 0 <= a < table.len() && table[a] == top[i];
    tally::tally_lists(tools, top[i].0);
    assert(table[a].0 == top[i].0);
    tally::occurrences_zero(tools, tool);
    if tools.contains(tool) {
        tally::tally_lists(tools, tool);
        let b = choose|b: int| 0 <= b < table.len() && (#[trigger] table[b]).0 == tool;
        let entry = table[b];
        assert(table.contains(entry));
        order::sorted_contains(table, leq, entry);
        let j = choose|j: int| 0 <= j < ranked.len() && ranked[j] == entry;
        if j < top.len() {
            assert(top[j].0 == tool);
        }
        order::sorted_is_ascending::<Count, tally::ByCount>(table);
        assert(leq(ranked[i], ranked[j]));
    }
}

/// The tools that a report names stand by their counts, the greatest first, and those with equal
/// counts in strict dictionary order.
pub proof fn top_tools_stand_in_order(
    sessions: Seq<SessionView>,
    tools: Seq<Seq<char>>,
    window: Option<(Instant, Instant)>,
    stats_only: bool,
    offsets: Map<i64, i32>,
    i: int,
    j: int,
)
    requires
        0 <= i < j < helpers_of(
            sessions,
            tally::tally(tools),
            window,
            stats_only,
            offsets,
        ).tool_frequency_top5.len(),
    ensures
        ({
            let top = helpers_of(
                sessions,
                tally::tally(tools),
                window,
                stats_only,
                offsets,
            ).tool_frequency_top5;
            top[i].1 > top[j].1 || (top[i].1 == top[j].1 && text::text_leq(top[i].0, top[j].0)
                && top[i].0 != top[j].0)
        }),
{
    tally::tally_is_unique(tools);
    tally::ranking_is_strict(tally::tally(tools), i, j);
}

/// The longest block of work is as long in local time as it was, to the second: this is what a
/// reader of the two local times finds, where both can be read back.
pub proof fn local_window_keeps_its_length(
    helpers: HelpersView,
    sessions: Seq<SessionView>,
    start: Instant,
    end: Instant,
    offsets: Map<i64, i32>,
)
    requires
        local_times_read_back(helpers, sessions, Some((start, end)), offsets),
        clock::is_readable_local(start, clock::offset_at(offsets, start.secs)),
        clock::is_readable_local(end, clock::offset_at(offsets, end.secs)),
    ensures
        helpers.main_work_window_local matches Some(local) && clock::rfc3339_instant(
            local.start,
        ) matches Some(from) && clock::rfc3339_instant(local.end) matches Some(to)
            && clock::nanos_between(to, from) == (end.secs - start.secs) * 1_000_000_000,
{
}

/// The views of an output and of its parts are their fields.
pub proof fn outputs_show_their_fields(
    output: CollectorOutput,
    period: OutputPeriod,
    local: LocalSession,
    window: MainWorkWindowLocal,
    tool: ToolFrequencyItem,
)
    ensures
        ({
            let view = output.deep_view();
            &&& view.meta.generated_at == output.meta.generated_at@
            &&& view.meta.filter_label == output.meta.filter_label@
            &&& view.meta.period == output.meta.period.deep_view()
            &&& view.meta.source.requested == output.meta.source.requested@
            &&& view.meta.source.resolved == output.meta.source.resolved.deep_view()
            &&& view.meta.total_sessions == output.meta.total_sessions
            &&& view.meta.total_files_scanned == output.meta.total_files_scanned
            &&& view.sessions == output.sessions.deep_view()
            &&& view.decisions == output.decisions.deep_view()
            &&& view.stats == output.stats.deep_view()
            &&& view.render_helpers.sessions_local
                == output.render_helpers.sessions_local.deep_view()
            &&& view.render_helpers.main_work_window_local
                == output.render_helpers.main_work_window_local.deep_view()
            &&& view.render_helpers.tool_frequency_top5
                == output.render_helpers.tool_frequency_top5.deep_view()
        }),
        period.deep_view().from is Some <==> period.from is Some,
        period.from matches Some(from) ==> period.deep_view().from == Some(from@),
        period.deep_view().to is Some <==> period.to is Some,
        period.to matches Some(to) ==> period.deep_view().to == Some(to@),
        period.deep_view().timezone == period.timezone@,
        local.deep_view().session_id == local.session_id@,
        local.deep_view().project == local.project@,
        local.deep_view().start_local is Some <==> local.start_local is Some,
        local.start_local matches Some(start) ==> local.deep_view().start_local == Some(start@),
        local.deep_view().end_local is Some <==> local.end_local is Some,
        local.end_local matches Some(end) ==> local.deep_view().end_local == Some(end@),
        window.deep_view().start == window.start@,
        window.deep_view().end == window.end@,
        window.deep_view().method == window.method@,
        tool.deep_view() == (tool.name@, tool.count as nat),
{
}

/// An output says when it was made, under which label, for which period and out of which source, and
/// of how many sessions and files; each session has a summary unless only statistics are wanted; and
/// decisions, statistics and focus are those of all sessions, the most recent first.
pub proof fn outputs_say_what_they_were_made_of(
    sessions: Seq<SessionView>,
    filter_label: Seq<char>,
    period: PeriodView,
    total_files_scanned: nat,
    stats_only: bool,
    source: SourceView,
    generated_at: Seq<char>,
    offsets: Map<i64, i32>,
)
    ensures
        ({
            let output = output_of(
                sessions,
                filter_label,
                period,
                total_files_scanned,
                stats_only,
                source,
                generated_at,
                offsets,
            );
            let recent = session::by_recency(sessions);
            &&& output.meta.generated_at == generated_at
            &&& output.meta.filter_label == filter_label
            &&& output.meta.period == period
            &&& output.meta.source == source
            &&& output.meta.total_sessions == sessions.len()
            &&& output.meta.total_files_scanned == total_files_scanned
            &&& output.sessions.len() == if stats_only {
                0
            } else {
                sessions.len()
            }
            &&& forall|i: int|
                0 <= i < output.sessions.len() ==> #[trigger] output.sessions[i]
                    == session::summary_of(recent[i])
            &&& output.decisions == decisions::decisions_of(recent)
            &&& output.stats == stats::stats_of(
                recent,
                output.decisions,
                focus::focus_of(recent),
                offsets,
            )
            &&& output.render_helpers == helpers_of(
                recent,
                output.stats.tool_frequency,
                focus::main_window(recent),
                stats_only,
                offsets,
            )
        }),
{
    order::sorted_keeps_items(sessions, session::more_recent());
}

/// What a report shows of the local times: of each session, in order, its name, its project, and the
/// local times of the first and the last instant of its span, where it has one; and of the main
/// window the local times of its start and its end, and how it was found.
pub proof fn local_times_are_those_of_spans(
    sessions: Seq<SessionView>,
    tool_frequency: Seq<(Seq<char>, nat)>,
    window: Option<(Instant, Instant)>,
    offsets: Map<i64, i32>,
)
    ensures
        ({
            let helpers = helpers_of(sessions, tool_frequency, window, false, offsets);
            &&& helpers.sessions_local.len() == sessions.len()
            &&& forall|i: int|
                0 <= i < sessions.len() ==> {
                    let local = #[trigger] helpers.sessions_local[i];
                    &&& local.session_id == sessions[i].session_id
                    &&& local.project == sessions[i].project
                    &&& focus::session_span(sessions[i]) is None ==> local.start_local is None
                        && local.end_local is None
                    &&& focus::session_span(sessions[i]) matches Some((start, end))
                        ==> local.start_local == Some(clock::local_time(start, offsets))
                        && local.end_local == Some(clock::local_time(end, offsets))
                }
            &&& window is None ==> helpers.main_work_window_local is None
            &&& window matches Some((start, end)) ==> (
            helpers.main_work_window_local matches Some(local) && local.start == clock::local_time(
                start,
                offsets,
            ) && local.end == clock::local_time(end, offsets) && local.method
                == "longest_block_with_gaps_under_30_minutes"@)
        }),
{
}

/// A report names the five tools that were used most, or all where there are fewer: each is an entry
/// of the table, and every entry with a greater count than one that is named is named too.
pub proof fn five_tools_are_named(
    sessions: Seq<SessionView>,
    table: Seq<(Seq<char>, nat)>,
    window: Option<(Instant, Instant)>,
    stats_only: bool,
    offsets: Map<i64, i32>,
    i: int,
    j: int,
)
    requires
        0 <= i <= j < helpers_of(
            sessions,
            table,
            window,
            stats_only,
            offsets,
        ).tool_frequency_top5.len(),
    ensures
        ({
            let top = helpers_of(
                sessions,
                table,
                window,
                stats_only,
                offsets,
            ).tool_frequency_top5;
            &&& table.contains(top[i])
            &&& i < j ==> top[i].1 > top[j].1 || (top[i].1 == top[j].1 && text::text_leq(
                top[i].0,
                top[j].0,
            ))
            &&& forall|e: (Seq<char>, nat)| #[trigger]
                table.contains(e) && e.1 > top[j].1 ==> top.contains(e)
        }),
{
    let leq = order::order_of::<Count, tally::ByCount>();
    let all = tally::ranked(table);
    let top = lists::first_items(all, 5);
    order::sorted_keeps_items(table, leq);
    order::sorted_is_ascending::<Count, tally::ByCount>(table);
    assert(top[i] == all[i] && top[j] == all[j]);
    assert(all.contains(all[i]));
    order::sorted_contains(table, leq, all[i]);
    if i < j {
        assert(leq(all[i], all[j]));
    }
    assert forall|e: (Seq<char>, nat)| #[trigger] table.contains(e) && e.1 > top[j].1 implies top.contains(
        e,
    ) by {
        order::sorted_contains(table, leq, e);
        let k = choose|k: int| 0 <= k < all.len() && all[k] == e;
        if j < k {
            assert(leq(all[j], all[k]));
        }
        assert(top[k] == e);
    }
}

/// How many tools a report names: as many as were used, but no more than five.
pub proof fn no_more_than_five_tools_are_named(
    sessions: Seq<SessionView>,
    table: Seq<(Seq<char>, nat)>,
    window: Option<(Instant, Instant)>,
    stats_only: bool,
    offsets: Map<i64, i32>,
)
    ensures
        helpers_of(
            sessions,
            table,
            window,
            stats_only,
            offsets,
        ).tool_frequency_top5.len() == if table.len() < 5 {
            table.len()
        } else {
            5
        },
{
    order::sorted_keeps_items(table, order::order_of::<Count, tally::ByCount>());
}

/// A table that holds answers of the machine and covers some timestamps gives the machine's offset for
/// each instant that one of them names: local times and local hours of these are in its zone.
pub proof fn covered_times_are_in_the_zone_of_the_machine(
    offsets: Map<i64, i32>,
    sessions: Seq<SessionView>,
    timestamp: Seq<char>,
    at: Instant,
)
    requires
        clock::are_machine_offsets(offsets),
        covers(offsets, stats::all_timestamps(sessions)),
        stats::any_has_timestamp(sessions, timestamp),
        clock::rfc3339_instant(timestamp) == Some(at),
    ensures
        exists|offset: i32| #[trigger]
            clock::is_machine_offset(at.secs, offset) && clock::local_time(at, offsets)
                == clock::formatted(at.secs, at.nanos, offset, "%Y-%m-%dT%H:%M:%S%:z"@)
                && offset == offsets[at.secs],
{
    let times = stats::all_timestamps(sessions);
    stats::all_timestamps_members(sessions, timestamp);
    let i = choose|i: int| 0 <= i < times.len() && times[i] == timestamp;
    assert(offsets.contains_key(at.secs)) by {
        assert(clock::rfc3339_instant(times[i]) == Some(at));
    }
    assert(clock::is_machine_offset(at.secs, offsets[at.secs]));
}

/// The local times of a session can be read back: as the first and the last second of its span, where
/// these can be read in their zones. A session without a span has none.
pub proof fn local_sessions_keep_their_times(
    helpers: HelpersView,
    sessions: Seq<SessionView>,
    window: Option<(Instant, Instant)>,
    offsets: Map<i64, i32>,
    i: int,
)
    requires
        local_times_read_back(helpers, sessions, window, offsets),
        0 <= i < helpers.sessions_local.len(),
    ensures
        ({
            let local = helpers.sessions_local[i];
            &&& focus::session_span(sessions[i]) is None ==> local.start_local is None
                && local.end_local is None
            &&& focus::session_span(sessions[i]) matches Some((start, end)) ==> {
                &&& local.start_local is Some && local.end_local is Some
                &&& clock::is_readable_local(start, clock::offset_at(offsets, start.secs))
                    ==> clock::rfc3339_instant(local.start_local->0) == Some(
                    (Instant { secs: start.secs, nanos: 0 }),
                )
                &&& clock::is_readable_local(end, clock::offset_at(offsets, end.secs))
                    ==> clock::rfc3339_instant(local.end_local->0) == Some(
                    (Instant { secs: end.secs, nanos: 0 }),
                )
            }
        }),
{
    assert(names_session_times(helpers.sessions_local[i], sessions[i], offsets));
}

} // verus!
