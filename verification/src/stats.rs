//! Statistics over all sessions of a report.

use crate::clock;
use crate::clock::{extract_local_hour, LocalOffsets};
use crate::decisions::{DecisionPoint, DecisionView};
use crate::focus::{FocusStats, FocusView};
use crate::lists;
use crate::order;
use crate::order::Order;
use crate::session;
use crate::session::{
    append_files, assistant_message_count, record_tools, token_totals, widen_by_session, DateRange,
    ParsedUserEntry, PromptView, RangeView, RawSession, SessionView, TurnView,
};
use crate::tally;
use crate::tally::{count_name, distinct_names, tally_names, CountTable};
use crate::text;
use crate::text::{len_in_bytes, same_text, sort_distinct, text_at_or_before};
use vstd::prelude::*;
use vstd::string::*;

verus! {

// ---------------------------------------------------------------------------
// Types
// ---------------------------------------------------------------------------

/// What a report says of one project.
pub struct ProjectStat {
    pub name: String,
    pub session_count: usize,
    pub message_count: usize,
    pub time_range: DateRange,
    pub tool_usage: CountTable,
    pub files_touched: Vec<String>,
}

/// What a report says of one project.
#[verifier::ext_equal]
pub struct ProjectView {
    pub name: Seq<char>,
    pub session_count: nat,
    pub message_count: nat,
    pub time_range: RangeView,
    pub tool_usage: Seq<(Seq<char>, nat)>,
    pub files_touched: Seq<Seq<char>>,
}

impl DeepView for ProjectStat {
    type V = ProjectView;

    open spec fn deep_view(&self) -> ProjectView {
        ProjectView {
            name: self.name@,
            session_count: self.session_count as nat,
            message_count: self.message_count as nat,
            time_range: self.time_range.deep_view(),
            tool_usage: self.tool_usage.deep_view(),
            files_touched: self.files_touched.deep_view(),
        }
    }
}

/// How long the prompts are, in bytes.
pub struct PromptStats {
    pub avg_length: usize,
    pub short_prompts: usize,
    pub total_prompts: usize,
}

/// How long the prompts are, in bytes.
pub struct PromptStatsView {
    pub avg_length: nat,
    pub short_prompts: nat,
    pub total_prompts: nat,
}

impl DeepView for PromptStats {
    type V = PromptStatsView;

    open spec fn deep_view(&self) -> PromptStatsView {
        PromptStatsView {
            avg_length: self.avg_length as nat,
            short_prompts: self.short_prompts as nat,
            total_prompts: self.total_prompts as nat,
        }
    }
}

/// How many decisions a project saw.
pub struct DecisionsByProject {
    pub project: String,
    pub count: usize,
}

impl DeepView for DecisionsByProject {
    type V = (Seq<char>, nat);

    open spec fn deep_view(&self) -> (Seq<char>, nat) {
        (self.project@, self.count as nat)
    }
}

/// What a report says of all sessions together.
pub struct AggregateStats {
    pub projects_worked_on: Vec<ProjectStat>,
    pub total_user_messages: usize,
    pub total_assistant_messages: usize,
    pub total_tool_uses: usize,
    pub tool_frequency: CountTable,
    pub total_input_tokens: u64,
    pub total_output_tokens: u64,
    pub decisions_by_project: Vec<DecisionsByProject>,
    pub total_decisions: usize,
    pub sessions_by_hour: CountTable,
    pub overall_time_range: DateRange,
    pub prompt_stats: PromptStats,
    pub focus: FocusStats,
}

/// What a report says of all sessions together.
#[verifier::ext_equal]
pub struct StatsView {
    pub projects_worked_on: Seq<ProjectView>,
    pub total_user_messages: nat,
    pub total_assistant_messages: nat,
    pub total_tool_uses: nat,
    pub tool_frequency: Seq<(Seq<char>, nat)>,
    pub total_input_tokens: nat,
    pub total_output_tokens: nat,
    pub decisions_by_project: Seq<(Seq<char>, nat)>,
    pub total_decisions: nat,
    pub sessions_by_hour: Seq<(Seq<char>, nat)>,
    pub overall_time_range: RangeView,
    pub prompt_stats: PromptStatsView,
    pub focus: FocusView,
}

impl DeepView for AggregateStats {
    type V = StatsView;

    open spec fn deep_view(&self) -> StatsView {
        StatsView {
            projects_worked_on: self.projects_worked_on.deep_view(),
            total_user_messages: self.total_user_messages as nat,
            total_assistant_messages: self.total_assistant_messages as nat,
            total_tool_uses: self.total_tool_uses as nat,
            tool_frequency: self.tool_frequency.deep_view(),
            total_input_tokens: self.total_input_tokens as nat,
            total_output_tokens: self.total_output_tokens as nat,
            decisions_by_project: self.decisions_by_project.deep_view(),
            total_decisions: self.total_decisions as nat,
            sessions_by_hour: self.sessions_by_hour.deep_view(),
            overall_time_range: self.overall_time_range.deep_view(),
            prompt_stats: self.prompt_stats.deep_view(),
            focus: self.focus.deep_view(),
        }
    }
}

// ---------------------------------------------------------------------------
// Messages
// ---------------------------------------------------------------------------

/// How many prompts the sessions hold.
pub open spec fn user_messages(sessions: Seq<SessionView>) -> nat {
    lists::sum_by(sessions, |s: SessionView| s.prompts.len())
}

/// How many messages of the assistant the sessions hold.
pub open spec fn assistant_messages(sessions: Seq<SessionView>) -> nat {
    lists::sum_by(sessions, |s: SessionView| session::turn_messages(s.turns))
}

/// How many messages of both sides the sessions hold.
pub open spec fn all_messages(sessions: Seq<SessionView>) -> nat {
    lists::sum_by(
        sessions,
        |s: SessionView| s.prompts.len() + session::turn_messages(s.turns),
    )
}

/// Counts the prompts and the messages of the assistant.
fn count_messages(sessions: &Vec<RawSession>) -> (counts: (usize, usize))
    requires
        user_messages(sessions.deep_view()) <= usize::MAX,
        assistant_messages(sessions.deep_view()) <= usize::MAX,
    ensures
        counts.0 == user_messages(sessions.deep_view()),
        counts.1 == assistant_messages(sessions.deep_view()),
{
    let ghost all = sessions.deep_view();
    let ghost f = |s: SessionView| s.prompts.len();
    let ghost g = |s: SessionView| session::turn_messages(s.turns);
    let mut user: usize = 0;
    let mut assistant: usize = 0;
    let mut i: usize = 0;
    while i < sessions.len()
        invariant
            i <= sessions.len(),
            all == sessions.deep_view(),
            f == (|s: SessionView| s.prompts.len()),
            g == (|s: SessionView| session::turn_messages(s.turns)),
            user_messages(all) <= usize::MAX,
            assistant_messages(all) <= usize::MAX,
            user == user_messages(all.take(i as int)),
            assistant == assistant_messages(all.take(i as int)),
        decreases sessions.len() - i,
    {
        let session = &sessions[i];
        proof {
            assert(all[i as int] == session.deep_view());
            lists::sum_by_step(all, i as int, f);
            lists::sum_by_of_prefix(all, i + 1, f);
            lists::sum_by_step(all, i as int, g);
            lists::sum_by_of_prefix(all, i + 1, g);
        }
        user = user + session.user_entries.len();
        assistant = assistant + assistant_message_count(&session.assistant_entries);
        i = i + 1;
    }
    assert(all.take(i as int) =~= all);
    (user, assistant)
}

// ---------------------------------------------------------------------------
// Tools and tokens
// ---------------------------------------------------------------------------

/// The tools that the sessions used, in order.
pub open spec fn all_tools(sessions: Seq<SessionView>) -> Seq<Seq<char>> {
    lists::flat_by(sessions, |s: SessionView| session::turn_tools(s.turns))
}

/// How many tokens went into the sessions.
pub open spec fn all_input(sessions: Seq<SessionView>) -> nat {
    lists::sum_by(sessions, |s: SessionView| session::turn_input(s.turns))
}

/// How many tokens came out of the sessions.
pub open spec fn all_output(sessions: Seq<SessionView>) -> nat {
    lists::sum_by(sessions, |s: SessionView| session::turn_output(s.turns))
}

/// Counts how often each tool was used.
fn count_tools(sessions: &Vec<RawSession>) -> (table: CountTable)
    requires
        tally::countable(all_tools(sessions.deep_view())),
    ensures
        table.deep_view() == tally::tally(all_tools(sessions.deep_view())),
{
    let ghost all = sessions.deep_view();
    let ghost f = |s: SessionView| session::turn_tools(s.turns);
    let mut table: CountTable = CountTable::new();
    let mut i: usize = 0;
    assert(all_tools(all.take(0)) =~= Seq::empty());
    while i < sessions.len()
        invariant
            i <= sessions.len(),
            all == sessions.deep_view(),
            f == (|s: SessionView| session::turn_tools(s.turns)),
            tally::countable(all_tools(all)),
            table.deep_view() == tally::tally(all_tools(all.take(i as int))),
        decreases sessions.len() - i,
    {
        let session = &sessions[i];
        let ghost so_far = all_tools(all.take(i as int));
        proof {
            assert(all[i as int] == session.deep_view());
            lists::flat_by_step(all, i as int, f);
            lists::flat_by_of_prefix(all, i + 1, f);
            let next = all_tools(all.take(i + 1));
            assert forall|name: Seq<char>| #[trigger] tally::occurrences(next, name) <= u32::MAX by {
                tally::occurrences_of_prefix(all_tools(all), next.len() as int, name);
            }
        }
        record_tools(&mut table, &session.assistant_entries, Ghost(so_far));
        i = i + 1;
    }
    assert(all.take(i as int) =~= all);
    table
}

/// Counts the uses of tools in the turns.
fn count_turn_tools(entries: &Vec<session::ParsedAssistantEntry>) -> (count: usize)
    requires
        session::turn_tools(entries.deep_view()).len() <= usize::MAX,
    ensures
        count == session::turn_tools(entries.deep_view()).len(),
{
    let ghost turns = entries.deep_view();
    let ghost f = |t: TurnView| t.tool_uses;
    let mut count: usize = 0;
    let mut i: usize = 0;
    while i < entries.len()
        invariant
            i <= entries.len(),
            turns == entries.deep_view(),
            f == (|t: TurnView| t.tool_uses),
            session::turn_tools(turns).len() <= usize::MAX,
            count == session::turn_tools(turns.take(i as int)).len(),
        decreases entries.len() - i,
    {
        proof {
            assert(turns[i as int].tool_uses == entries[i as int].tool_uses.deep_view());
            lists::flat_by_step(turns, i as int, f);
            lists::flat_by_of_prefix(turns, i + 1, f);
        }
        count = count + entries[i].tool_uses.len();
        i = i + 1;
    }
    assert(turns.take(i as int) =~= turns);
    count
}

/// Counts the uses of tools.
fn count_tool_uses(sessions: &Vec<RawSession>) -> (count: usize)
    requires
        all_tools(sessions.deep_view()).len() <= usize::MAX,
    ensures
        count == all_tools(sessions.deep_view()).len(),
{
    let ghost all = sessions.deep_view();
    let ghost f = |s: SessionView| session::turn_tools(s.turns);
    let mut count: usize = 0;
    let mut i: usize = 0;
    while i < sessions.len()
        invariant
            i <= sessions.len(),
            all == sessions.deep_view(),
            f == (|s: SessionView| session::turn_tools(s.turns)),
            all_tools(all).len() <= usize::MAX,
            count == all_tools(all.take(i as int)).len(),
        decreases sessions.len() - i,
    {
        proof {
            assert(all[i as int] == sessions[i as int].deep_view());
            lists::flat_by_step(all, i as int, f);
            lists::flat_by_of_prefix(all, i + 1, f);
        }
        count = count + count_turn_tools(&sessions[i].assistant_entries);
        i = i + 1;
    }
    assert(all.take(i as int) =~= all);
    count
}

/// Adds up the tokens that went into the sessions and those that came out.
fn sum_tokens(sessions: &Vec<RawSession>) -> (totals: (u64, u64))
    requires
        all_input(sessions.deep_view()) <= u64::MAX,
        all_output(sessions.deep_view()) <= u64::MAX,
    ensures
        totals.0 == all_input(sessions.deep_view()),
        totals.1 == all_output(sessions.deep_view()),
{
    let ghost all = sessions.deep_view();
    let ghost f = |s: SessionView| session::turn_input(s.turns);
    let ghost g = |s: SessionView| session::turn_output(s.turns);
    let mut input: u64 = 0;
    let mut output: u64 = 0;
    let mut i: usize = 0;
    while i < sessions.len()
        invariant
            i <= sessions.len(),
            all == sessions.deep_view(),
            f == (|s: SessionView| session::turn_input(s.turns)),
            g == (|s: SessionView| session::turn_output(s.turns)),
            all_input(all) <= u64::MAX,
            all_output(all) <= u64::MAX,
            input == all_input(all.take(i as int)),
            output == all_output(all.take(i as int)),
        decreases sessions.len() - i,
    {
        proof {
            assert(all[i as int] == sessions[i as int].deep_view());
            lists::sum_by_step(all, i as int, f);
            lists::sum_by_of_prefix(all, i + 1, f);
            lists::sum_by_step(all, i as int, g);
            lists::sum_by_of_prefix(all, i + 1, g);
        }
        let (more_input, more_output): (u64, u64) = token_totals(&sessions[i].assistant_entries);
        input = input + more_input;
        output = output + more_output;
        i = i + 1;
    }
    assert(all.take(i as int) =~= all);
    (input, output)
}

// ---------------------------------------------------------------------------
// Time
// ---------------------------------------------------------------------------

/// The local hour of a prompt, as a list; an empty one where its time cannot be read.
pub open spec fn hour_of(prompt: PromptView, offsets: Map<i64, i32>) -> Seq<Seq<char>> {
    match clock::local_hour(prompt.timestamp, offsets) {
        Some(hour) => seq![hour],
        None => Seq::empty(),
    }
}

/// The local hours of the prompts.
pub open spec fn hours_of(prompts: Seq<PromptView>, offsets: Map<i64, i32>) -> Seq<Seq<char>> {
    lists::flat_by(prompts, |p: PromptView| hour_of(p, offsets))
}

/// The local hours of all prompts in the sessions.
pub open spec fn all_hours(
    sessions: Seq<SessionView>,
    offsets: Map<i64, i32>,
) -> Seq<Seq<char>> {
    lists::flat_by(sessions, |s: SessionView| hours_of(s.prompts, offsets))
}

/// Lists the local hours of all prompts in the sessions.
fn list_hours(sessions: &Vec<RawSession>, offsets: &LocalOffsets) -> (hours: Vec<String>)
    requires
        clock::are_offsets(offsets@),
    ensures
        hours.deep_view() == all_hours(sessions.deep_view(), offsets@),
{
    let ghost all = sessions.deep_view();
    let ghost f = |s: SessionView| hours_of(s.prompts, offsets@);
    let ghost g = |p: PromptView| hour_of(p, offsets@);
    let mut hours: Vec<String> = Vec::new();
    let mut i: usize = 0;
    assert(hours.deep_view() =~= all_hours(all.take(0), offsets@));
    while i < sessions.len()
        invariant
            i <= sessions.len(),
            clock::are_offsets(offsets@),
            all == sessions.deep_view(),
            f == (|s: SessionView| hours_of(s.prompts, offsets@)),
            g == (|p: PromptView| hour_of(p, offsets@)),
            hours.deep_view() == all_hours(all.take(i as int), offsets@),
        decreases sessions.len() - i,
    {
        let entries: &Vec<ParsedUserEntry> = &sessions[i].user_entries;
        let ghost prompts = entries.deep_view();
        let ghost start = hours.deep_view();
        let mut j: usize = 0;
        assert(start + hours_of(prompts.take(0), offsets@) =~= start);
        while j < entries.len()
            invariant
                j <= entries.len(),
                clock::are_offsets(offsets@),
                prompts == entries.deep_view(),
                g == (|p: PromptView| hour_of(p, offsets@)),
                hours.deep_view() == start + hours_of(prompts.take(j as int), offsets@),
            decreases entries.len() - j,
        {
            let ghost before = hours.deep_view();
            proof {
                assert(prompts[j as int] == entries[j as int].deep_view());
                lists::flat_by_step(prompts, j as int, g);
            }
            if let Some(hour) = extract_local_hour(entries[j].timestamp.as_str(), offsets) {
                let ghost text = hour@;
                hours.push(hour);
                assert(hours.deep_view() =~= before.push(text));
            }
            j = j + 1;
            assert(hours.deep_view() =~= start + hours_of(prompts.take(j as int), offsets@));
        }
        proof {
            assert(prompts.take(j as int) =~= prompts);
            assert(all[i as int] == sessions[i as int].deep_view());
            lists::flat_by_step(all, i as int, f);
        }
        i = i + 1;
    }
    assert(all.take(i as int) =~= all);
    hours
}

/// The timestamps of the sessions.
pub open spec fn all_timestamps(sessions: Seq<SessionView>) -> Seq<Seq<char>> {
    lists::flat_by(sessions, |s: SessionView| session::timestamps(s))
}

/// The first and the last timestamp of the sessions.
fn overall_range(sessions: &Vec<RawSession>) -> (range: DateRange)
    ensures
        range.deep_view() == session::range_of(all_timestamps(sessions.deep_view())),
{
    let ghost all = sessions.deep_view();
    let ghost f = |s: SessionView| session::timestamps(s);
    let mut range: DateRange = DateRange::empty();
    let mut i: usize = 0;
    assert(all_timestamps(all.take(0)) =~= Seq::empty());
    while i < sessions.len()
        invariant
            i <= sessions.len(),
            all == sessions.deep_view(),
            f == (|s: SessionView| session::timestamps(s)),
            range.deep_view() == session::range_of(all_timestamps(all.take(i as int))),
        decreases sessions.len() - i,
    {
        let ghost so_far = all_timestamps(all.take(i as int));
        proof {
            assert(all[i as int] == sessions[i as int].deep_view());
            lists::flat_by_step(all, i as int, f);
        }
        widen_by_session(&mut range, &sessions[i], Ghost(so_far));
        i = i + 1;
    }
    assert(all.take(i as int) =~= all);
    range
}

// ---------------------------------------------------------------------------
// Prompts
// ---------------------------------------------------------------------------

/// How many bytes the prompts have.
pub open spec fn prompt_bytes(prompts: Seq<PromptView>) -> nat {
    lists::sum_by(prompts, |p: PromptView| text::byte_len(p.text))
}

/// How many prompts have less than 20 bytes.
pub open spec fn short_prompts(prompts: Seq<PromptView>) -> nat {
    lists::sum_by(
        prompts,
        |p: PromptView|
            if text::byte_len(p.text) < 20 {
                1nat
            } else {
                0
            },
    )
}

/// The prompts of the sessions.
pub open spec fn all_prompts(sessions: Seq<SessionView>) -> Seq<PromptView> {
    lists::flat_by(sessions, |s: SessionView| s.prompts)
}

/// How long the prompts are: the average in whole bytes, and how many are short.
pub open spec fn prompt_stats_of(prompts: Seq<PromptView>) -> PromptStatsView {
    PromptStatsView {
        avg_length: if prompts.len() == 0 {
            0
        } else {
            prompt_bytes(prompts) / prompts.len()
        },
        short_prompts: short_prompts(prompts),
        total_prompts: prompts.len(),
    }
}

/// Adds the prompts of `entries` to the sums over `seen`: bytes, short prompts, prompts.
fn add_prompts(
    sums: (usize, usize, usize),
    entries: &Vec<ParsedUserEntry>,
    Ghost(seen): Ghost<Seq<PromptView>>,
) -> (more: (usize, usize, usize))
    requires
        sums.0 == prompt_bytes(seen),
        sums.1 == short_prompts(seen),
        sums.2 == seen.len(),
        prompt_bytes(seen + entries.deep_view()) <= usize::MAX,
        seen.len() + entries.len() <= usize::MAX,
    ensures
        more.0 == prompt_bytes(seen + entries.deep_view()),
        more.1 == short_prompts(seen + entries.deep_view()),
        more.2 == seen.len() + entries.len(),
{
    let ghost all = seen + entries.deep_view();
    let ghost f = |p: PromptView| text::byte_len(p.text);
    let ghost g = |p: PromptView|
        if text::byte_len(p.text) < 20 {
            1nat
        } else {
            0
        };
    let mut bytes: usize = sums.0;
    let mut short: usize = sums.1;
    let mut total: usize = sums.2;
    let mut i: usize = 0;
    assert(all.take(seen.len() as int) =~= seen);
    while i < entries.len()
        invariant
            i <= entries.len(),
            all == seen + entries.deep_view(),
            f == (|p: PromptView| text::byte_len(p.text)),
            g == (|p: PromptView|
                if text::byte_len(p.text) < 20 {
                    1nat
                } else {
                    0
                }),
            prompt_bytes(all) <= usize::MAX,
            all.len() <= usize::MAX,
            bytes == prompt_bytes(all.take(seen.len() + i)),
            short == short_prompts(all.take(seen.len() + i)),
            total == seen.len() + i,
        decreases entries.len() - i,
    {
        let length: usize = len_in_bytes(entries[i].text.as_str());
        proof {
            assert(all[seen.len() + i] == entries[i as int].deep_view());
            lists::sum_by_step(all, seen.len() + i, f);
            lists::sum_by_of_prefix(all, seen.len() + i + 1, f);
            lists::sum_by_step(all, seen.len() + i, g);
            short_prompts_bound(all.take(seen.len() + i));
        }
        bytes = bytes + length;
        total = total + 1;
        if length < 20 {
            short = short + 1;
        }
        i = i + 1;
    }
    assert(all.take(seen.len() + i) =~= all);
    (bytes, short, total)
}

/// No more prompts are short than there are.
pub proof fn short_prompts_bound(prompts: Seq<PromptView>)
    ensures
        short_prompts(prompts) <= prompts.len(),
    decreases prompts.len(),
{
    if prompts.len() > 0 {
        short_prompts_bound(prompts.drop_last());
    }
}

/// There are as many prompts in the sessions as in each of them together.
proof fn all_prompts_len(sessions: Seq<SessionView>)
    ensures
        all_prompts(sessions).len() == user_messages(sessions),
    decreases sessions.len(),
{
    if sessions.len() > 0 {
        all_prompts_len(sessions.drop_last());
    }
}

/// Measures the prompts.
fn measure_prompts(sessions: &Vec<RawSession>) -> (stats: PromptStats)
    requires
        prompt_bytes(all_prompts(sessions.deep_view())) <= usize::MAX,
        user_messages(sessions.deep_view()) <= usize::MAX,
    ensures
        stats.deep_view() == prompt_stats_of(all_prompts(sessions.deep_view())),
{
    let ghost all = sessions.deep_view();
    let ghost f = |s: SessionView| s.prompts;
    let ghost g = |p: PromptView| text::byte_len(p.text);
    let mut sums: (usize, usize, usize) = (0, 0, 0);
    let mut i: usize = 0;
    proof {
        all_prompts_len(all);
    }
    assert(all_prompts(all.take(0)) =~= Seq::empty());
    while i < sessions.len()
        invariant
            i <= sessions.len(),
            all == sessions.deep_view(),
            f == (|s: SessionView| s.prompts),
            g == (|p: PromptView| text::byte_len(p.text)),
            prompt_bytes(all_prompts(all)) <= usize::MAX,
            all_prompts(all).len() <= usize::MAX,
            sums.0 == prompt_bytes(all_prompts(all.take(i as int))),
            sums.1 == short_prompts(all_prompts(all.take(i as int))),
            sums.2 == all_prompts(all.take(i as int)).len(),
        decreases sessions.len() - i,
    {
        let ghost so_far = all_prompts(all.take(i as int));
        proof {
            assert(all[i as int] == sessions[i as int].deep_view());
            lists::flat_by_step(all, i as int, f);
            lists::flat_by_of_prefix(all, i + 1, f);
            let next = all_prompts(all.take(i + 1));
            lists::sum_by_of_prefix(all_prompts(all), next.len() as int, g);
        }
        sums = add_prompts(sums, &sessions[i].user_entries, Ghost(so_far));
        i = i + 1;
    }
    assert(all.take(i as int) =~= all);
    let avg_length: usize = if sums.2 == 0 {
        0
    } else {
        sums.0 / sums.2
    };
    PromptStats { avg_length, short_prompts: sums.1, total_prompts: sums.2 }
}

// ---------------------------------------------------------------------------
// Projects
// ---------------------------------------------------------------------------

/// Which sessions belong to the project `name`.
pub open spec fn in_project(name: Seq<char>) -> spec_fn(SessionView) -> bool {
    |s: SessionView| s.project == name
}

/// The sessions of the project `name`.
pub open spec fn of_project(sessions: Seq<SessionView>, name: Seq<char>) -> Seq<SessionView> {
    sessions.filter(in_project(name))
}

/// The files that the sessions worked on, in order.
pub open spec fn all_files(sessions: Seq<SessionView>) -> Seq<Seq<char>> {
    lists::flat_by(sessions, |s: SessionView| session::turn_files(s.turns))
}

/// What a report says of a project whose sessions are `own`.
pub open spec fn project_of(name: Seq<char>, own: Seq<SessionView>) -> ProjectView {
    ProjectView {
        name,
        session_count: own.len(),
        message_count: all_messages(own),
        time_range: session::range_of(all_timestamps(own)),
        tool_usage: tally::tally(all_tools(own)),
        files_touched: text::sorted_distinct(all_files(own)),
    }
}

/// The projects of the sessions, one for each session.
pub open spec fn project_names(sessions: Seq<SessionView>) -> Seq<Seq<char>> {
    sessions.map_values(|s: SessionView| s.project)
}

/// Projects from the one with the most messages down; those with equal numbers by name.
pub struct ByMessages;

impl Order<ProjectStat> for ByMessages {
    open spec fn leq(a: ProjectView, b: ProjectView) -> bool {
        a.message_count > b.message_count || (a.message_count == b.message_count && text::text_leq(
            a.name,
            b.name,
        ))
    }

    fn at_or_before(a: &ProjectStat, b: &ProjectStat) -> (answer: bool) {
        a.message_count > b.message_count || (a.message_count == b.message_count
            && text_at_or_before(a.name.as_str(), b.name.as_str()))
    }

    proof fn total(a: ProjectView, b: ProjectView) {
        text::text_leq_total(a.name, b.name);
    }

    proof fn transitive(a: ProjectView, b: ProjectView, c: ProjectView) {
        if a.message_count == b.message_count && b.message_count == c.message_count {
            text::text_leq_transitive(a.name, b.name, c.name);
        }
    }
}

/// What a report says of each project of the sessions.
pub open spec fn projects_of(sessions: Seq<SessionView>) -> Seq<ProjectView> {
    order::sorted(
        tally::distinct(project_names(sessions)).map_values(
            |name: Seq<char>| project_of(name, of_project(sessions, name)),
        ),
        order::order_of::<ProjectStat, ByMessages>(),
    )
}

/// Whether the totals of the sessions `own` of a project can be represented.
pub open spec fn project_fits(own: Seq<SessionView>) -> bool {
    all_messages(own) <= usize::MAX && tally::countable(all_tools(own))
}

proof fn occurrences_of_prefix_tools(sessions: Seq<SessionView>, n: int)
    requires
        0 <= n <= sessions.len(),
        tally::countable(all_tools(sessions)),
    ensures
        tally::countable(all_tools(sessions.take(n))),
{
    let f = |s: SessionView| session::turn_tools(s.turns);
    lists::flat_by_of_prefix(sessions, n, f);
    assert forall|name: Seq<char>| #[trigger] tally::occurrences(all_tools(sessions.take(n)), name)
        <= u32::MAX by {
        tally::occurrences_of_prefix(
            all_tools(sessions),
            all_tools(sessions.take(n)).len() as int,
            name,
        );
    }
}

/// Sums up the sessions of the project `name`.
fn summarize_project(sessions: &Vec<RawSession>, name: &str) -> (stat: ProjectStat)
    requires
        project_fits(of_project(sessions.deep_view(), name@)),
    ensures
        stat.deep_view() == project_of(name@, of_project(sessions.deep_view(), name@)),
{
    let ghost all = sessions.deep_view();
    let ghost p = in_project(name@);
    let ghost messages_in = |s: SessionView| s.prompts.len() + session::turn_messages(s.turns);
    let mut session_count: usize = 0;
    let mut message_count: usize = 0;
    let mut time_range: DateRange = DateRange::empty();
    let mut tool_usage: CountTable = CountTable::new();
    let mut files: Vec<String> = Vec::new();
    let mut i: usize = 0;
    proof {
        reveal(Seq::filter);
        let own = all.take(0).filter(p);
        assert(own =~= Seq::empty());
        assert(all_timestamps(own) =~= Seq::empty());
        assert(all_tools(own) =~= Seq::empty());
        assert(files.deep_view() =~= all_files(own));
    }
    while i < sessions.len()
        invariant
            i <= sessions.len(),
            all == sessions.deep_view(),
            p == in_project(name@),
            messages_in == (|s: SessionView| s.prompts.len() + session::turn_messages(s.turns)),
            project_fits(all.filter(p)),
            session_count <= i,
            session_count == all.take(i as int).filter(p).len(),
            message_count == all_messages(all.take(i as int).filter(p)),
            time_range.deep_view() == session::range_of(
                all_timestamps(all.take(i as int).filter(p)),
            ),
            tool_usage.deep_view() == tally::tally(all_tools(all.take(i as int).filter(p))),
            files.deep_view() == all_files(all.take(i as int).filter(p)),
        decreases sessions.len() - i,
    {
        let session = &sessions[i];
        let ghost own = all.take(i as int).filter(p);
        let ghost x = session.deep_view();
        proof {
            assert(all[i as int] == x);
            lists::filter_step(all, i as int, p);
        }
        if same_text(session.project.as_str(), name) {
            proof {
                let next = own.push(x);
                assert(next.drop_last() =~= own);
                assert(all.take(i + 1).filter(p) == next);
                lists::filter_of_prefix(all, i + 1, p);
                lists::sum_by_of_prefix(all.filter(p), next.len() as int, messages_in);
                occurrences_of_prefix_tools(all.filter(p), next.len() as int);
            }
            session_count = session_count + 1;
            message_count = message_count + (session.user_entries.len() + assistant_message_count(
                &session.assistant_entries,
            ));
            widen_by_session(&mut time_range, session, Ghost(all_timestamps(own)));
            record_tools(&mut tool_usage, &session.assistant_entries, Ghost(all_tools(own)));
            append_files(&mut files, &session.assistant_entries);
        }
        i = i + 1;
    }
    assert(all.take(i as int) =~= all);
    ProjectStat {
        name: name.to_owned(),
        session_count,
        message_count,
        time_range,
        tool_usage,
        files_touched: sort_distinct(files),
    }
}

/// The project of each session.
pub(crate) fn list_projects(sessions: &Vec<RawSession>) -> (names: Vec<String>)
    ensures
        names.deep_view() == project_names(sessions.deep_view()),
{
    let ghost all = project_names(sessions.deep_view());
    let mut names: Vec<String> = Vec::new();
    let mut i: usize = 0;
    while i < sessions.len()
        invariant
            i <= sessions.len(),
            all == project_names(sessions.deep_view()),
            names.deep_view() == all.take(i as int),
        decreases sessions.len() - i,
    {
        let ghost before = names.deep_view();
        names.push(sessions[i].project.clone());
        assert(names.deep_view() =~= before.push(all[i as int]));
        i = i + 1;
        assert(names.deep_view() =~= all.take(i as int));
    }
    assert(all.take(i as int) =~= all);
    names
}

/// Sums up each project.
fn summarize_projects(sessions: &Vec<RawSession>) -> (projects: Vec<ProjectStat>)
    requires
        forall|name: Seq<char>|
            project_fits(#[trigger] of_project(sessions.deep_view(), name)),
    ensures
        projects.deep_view() == projects_of(sessions.deep_view()),
{
    let ghost all = sessions.deep_view();
    let names: Vec<String> = distinct_names(&list_projects(sessions));
    let ghost wanted = names.deep_view();
    let ghost f = |name: Seq<char>| project_of(name, of_project(all, name));
    let mut projects: Vec<ProjectStat> = Vec::new();
    let mut i: usize = 0;
    assert(projects.deep_view() =~= wanted.map_values(f).take(0));
    while i < names.len()
        invariant
            i <= names.len(),
            all == sessions.deep_view(),
            wanted == names.deep_view(),
            f == (|name: Seq<char>| project_of(name, of_project(all, name))),
            forall|name: Seq<char>| project_fits(#[trigger] of_project(all, name)),
            projects.deep_view() == wanted.map_values(f).take(i as int),
        decreases names.len() - i,
    {
        let ghost before = projects.deep_view();
        assert(wanted[i as int] == names[i as int]@);
        assert(project_fits(of_project(all, names[i as int]@)));
        projects.push(summarize_project(sessions, names[i].as_str()));
        assert(projects.deep_view() =~= before.push(f(wanted[i as int])));
        i = i + 1;
        assert(projects.deep_view() =~= wanted.map_values(f).take(i as int));
    }
    assert(wanted.map_values(f).take(i as int) =~= wanted.map_values(f));
    order::stable_sort::<ProjectStat, ByMessages>(projects)
}

// ---------------------------------------------------------------------------
// Decisions
// ---------------------------------------------------------------------------

/// Projects from the one with the most decisions down; those with equal numbers by name.
pub struct ByDecisions;

impl Order<DecisionsByProject> for ByDecisions {
    open spec fn leq(a: (Seq<char>, nat), b: (Seq<char>, nat)) -> bool {
        a.1 > b.1 || (a.1 == b.1 && text::text_leq(a.0, b.0))
    }

    fn at_or_before(a: &DecisionsByProject, b: &DecisionsByProject) -> (answer: bool) {
        a.count > b.count || (a.count == b.count && text_at_or_before(
            a.project.as_str(),
            b.project.as_str(),
        ))
    }

    proof fn total(a: (Seq<char>, nat), b: (Seq<char>, nat)) {
        text::text_leq_total(a.0, b.0);
    }

    proof fn transitive(a: (Seq<char>, nat), b: (Seq<char>, nat), c: (Seq<char>, nat)) {
        if a.1 == b.1 && b.1 == c.1 {
            text::text_leq_transitive(a.0, b.0, c.0);
        }
    }
}

/// The projects of the decisions, one for each decision.
pub open spec fn decision_projects(decisions: Seq<DecisionView>) -> Seq<Seq<char>> {
    decisions.map_values(|d: DecisionView| d.project)
}

/// How many decisions each project saw.
pub open spec fn decision_counts(decisions: Seq<DecisionView>) -> Seq<(Seq<char>, nat)> {
    order::sorted(
        tally::tally(decision_projects(decisions)),
        order::order_of::<DecisionsByProject, ByDecisions>(),
    )
}

/// Counts the decisions of each project.
fn count_decisions(decisions: &Vec<DecisionPoint>) -> (counts: Vec<DecisionsByProject>)
    ensures
        counts.deep_view() == decision_counts(decisions.deep_view()),
{
    let ghost all = decision_projects(decisions.deep_view());
    let mut names: Vec<String> = Vec::new();
    let mut i: usize = 0;
    while i < decisions.len()
        invariant
            i <= decisions.len(),
            all == decision_projects(decisions.deep_view()),
            names.deep_view() == all.take(i as int),
        decreases decisions.len() - i,
    {
        let ghost before = names.deep_view();
        names.push(decisions[i].project.clone());
        assert(names.deep_view() =~= before.push(all[i as int]));
        i = i + 1;
        assert(names.deep_view() =~= all.take(i as int));
    }
    assert(all.take(i as int) =~= all);
    let projects: Vec<String> = distinct_names(&names);
    let ghost entries = tally::tally(all);
    let mut counts: Vec<DecisionsByProject> = Vec::new();
    let mut j: usize = 0;
    while j < projects.len()
        invariant
            j <= projects.len(),
            names.deep_view() == all,
            projects.deep_view() == tally::distinct(all),
            entries == tally::tally(all),
            counts.deep_view() == entries.take(j as int),
        decreases projects.len() - j,
    {
        let ghost before = counts.deep_view();
        let project: &String = &projects[j];
        let count: usize = count_name(&names, project.as_str());
        assert(tally::distinct(all)[j as int] == project@);
        counts.push(DecisionsByProject { project: project.clone(), count });
        assert(counts.deep_view() =~= before.push(entries[j as int]));
        j = j + 1;
        assert(counts.deep_view() =~= entries.take(j as int));
    }
    assert(entries.take(j as int) =~= entries);
    order::stable_sort::<DecisionsByProject, ByDecisions>(counts)
}

// ---------------------------------------------------------------------------
// All together
// ---------------------------------------------------------------------------

/// Whether the totals of the sessions can be represented.
pub open spec fn totals_fit(sessions: Seq<SessionView>) -> bool {
    &&& user_messages(sessions) <= usize::MAX
    &&& assistant_messages(sessions) <= usize::MAX
    &&& forall|name: Seq<char>|
        all_messages(#[trigger] of_project(sessions, name)) <= usize::MAX
    &&& all_tools(sessions).len() <= usize::MAX
    &&& tally::countable(all_tools(sessions))
    &&& all_input(sessions) <= u64::MAX
    &&& all_output(sessions) <= u64::MAX
    &&& prompt_bytes(all_prompts(sessions)) <= usize::MAX
}

/// What a report says of all sessions together.
pub open spec fn stats_of(
    sessions: Seq<SessionView>,
    decisions: Seq<DecisionView>,
    focus: FocusView,
    offsets: Map<i64, i32>,
) -> StatsView {
    StatsView {
        projects_worked_on: projects_of(sessions),
        total_user_messages: user_messages(sessions),
        total_assistant_messages: assistant_messages(sessions),
        total_tool_uses: all_tools(sessions).len(),
        tool_frequency: tally::tally(all_tools(sessions)),
        total_input_tokens: all_input(sessions),
        total_output_tokens: all_output(sessions),
        decisions_by_project: decision_counts(decisions),
        total_decisions: decisions.len(),
        sessions_by_hour: tally::tally(all_hours(sessions, offsets)),
        overall_time_range: session::range_of(all_timestamps(sessions)),
        prompt_stats: prompt_stats_of(all_prompts(sessions)),
        focus,
    }
}

/// The sessions of a project use no tool more often than all sessions do.
proof fn tools_of_filtered(sessions: Seq<SessionView>, p: spec_fn(SessionView) -> bool, name: Seq<char>)
    ensures
        tally::occurrences(all_tools(sessions.filter(p)), name) <= tally::occurrences(
            all_tools(sessions),
            name,
        ),
    decreases sessions.len(),
{
    reveal(Seq::filter);
    if sessions.len() > 0 {
        let front = sessions.drop_last();
        let own = session::turn_tools(sessions.last().turns);
        tools_of_filtered(front, p, name);
        tally::occurrences_of_sum(all_tools(front), own, name);
        if p(sessions.last()) {
            assert(front.filter(p).push(sessions.last()).drop_last() =~= front.filter(p));
            tally::occurrences_of_sum(all_tools(front.filter(p)), own, name);
        }
    }
}

/// Computes the statistics of `sessions`.
pub fn compute_stats(
    sessions: &Vec<RawSession>,
    decisions: &Vec<DecisionPoint>,
    focus: FocusStats,
    offsets: &LocalOffsets,
) -> (stats: AggregateStats)
    requires
        totals_fit(sessions.deep_view()),
        clock::are_offsets(offsets@),
        tally::countable(all_hours(sessions.deep_view(), offsets@)),
    ensures
        stats.deep_view() == stats_of(
            sessions.deep_view(),
            decisions.deep_view(),
            focus.deep_view(),
            offsets@,
        ),
        tally::one_entry_each(stats.tool_frequency.deep_view()),
        tally::one_entry_each(stats.sessions_by_hour.deep_view()),
        forall|i: int|
            0 <= i < stats.projects_worked_on.len() ==> tally::one_entry_each(
                (#[trigger] stats.projects_worked_on.deep_view()[i]).tool_usage,
            ),
{
    let ghost all = sessions.deep_view();
    proof {
        tally::tally_is_unique(all_tools(all));
        tally::tally_is_unique(all_hours(all, offsets@));
        assert forall|i: int| 0 <= i < projects_of(all).len() implies tally::one_entry_each(
            (#[trigger] projects_of(all)[i]).tool_usage,
        ) by {
            let p = projects_of(all)[i];
            assert(projects_of(all).contains(p));
            projects_are_those_of_sessions(all, p);
            tally::tally_is_unique(all_tools(of_project(all, p.name)));
        }
        assert forall|name: Seq<char>| project_fits(#[trigger] of_project(all, name)) by {
            let own = of_project(all, name);
            assert forall|tool: Seq<char>| #[trigger] tally::occurrences(all_tools(own), tool)
                <= u32::MAX by {
                tools_of_filtered(all, in_project(name), tool);
            }
        }
    }
    let (user, assistant): (usize, usize) = count_messages(sessions);
    let (input, output): (u64, u64) = sum_tokens(sessions);
    AggregateStats {
        projects_worked_on: summarize_projects(sessions),
        total_user_messages: user,
        total_assistant_messages: assistant,
        total_tool_uses: count_tool_uses(sessions),
        tool_frequency: count_tools(sessions),
        total_input_tokens: input,
        total_output_tokens: output,
        decisions_by_project: count_decisions(decisions),
        total_decisions: decisions.len(),
        sessions_by_hour: tally_names(&list_hours(sessions, offsets)),
        overall_time_range: overall_range(sessions),
        prompt_stats: measure_prompts(sessions),
        focus,
    }
}

// ---------------------------------------------------------------------------
// Laws
// ---------------------------------------------------------------------------

/// The counts of the tools add up to the number of uses.
pub proof fn tool_counts_add_up(
    sessions: Seq<SessionView>,
    decisions: Seq<DecisionView>,
    focus: FocusView,
    offsets: Map<i64, i32>,
)
    ensures
        ({
            let stats = stats_of(sessions, decisions, focus, offsets);
            lists::sum_by(stats.tool_frequency, |e: (Seq<char>, nat)| e.1) == stats.total_tool_uses
        }),
{
    tally::tally_adds_up(all_tools(sessions));
}

/// The decisions of the projects add up to the number of decisions.
pub proof fn decision_counts_add_up(
    sessions: Seq<SessionView>,
    decisions: Seq<DecisionView>,
    focus: FocusView,
    offsets: Map<i64, i32>,
)
    ensures
        ({
            let stats = stats_of(sessions, decisions, focus, offsets);
            lists::sum_by(stats.decisions_by_project, |e: (Seq<char>, nat)| e.1)
                == stats.total_decisions
        }),
{
    let names = decision_projects(decisions);
    tally::tally_adds_up(names);
    order::sum_of_sorted(
        tally::tally(names),
        order::order_of::<DecisionsByProject, ByDecisions>(),
        |e: (Seq<char>, nat)| e.1,
    );
}

proof fn hours_bound(prompts: Seq<PromptView>, offsets: Map<i64, i32>)
    ensures
        hours_of(prompts, offsets).len() <= prompts.len(),
    decreases prompts.len(),
{
    if prompts.len() > 0 {
        hours_bound(prompts.drop_last(), offsets);
    }
}

/// There are no more hours than prompts.
pub proof fn all_hours_bound(sessions: Seq<SessionView>, offsets: Map<i64, i32>)
    ensures
        all_hours(sessions, offsets).len() <= user_messages(sessions),
    decreases sessions.len(),
{
    if sessions.len() > 0 {
        all_hours_bound(sessions.drop_last(), offsets);
        hours_bound(sessions.last().prompts, offsets);
    }
}

/// The counts of the hours add up to no more than the number of prompts, and the prompts that are
/// measured are those that are counted.
pub proof fn prompt_counts_agree(
    sessions: Seq<SessionView>,
    decisions: Seq<DecisionView>,
    focus: FocusView,
    offsets: Map<i64, i32>,
)
    ensures
        ({
            let stats = stats_of(sessions, decisions, focus, offsets);
            &&& lists::sum_by(stats.sessions_by_hour, |e: (Seq<char>, nat)| e.1)
                <= stats.total_user_messages
            &&& stats.prompt_stats.total_prompts == stats.total_user_messages
            &&& stats.prompt_stats.short_prompts <= stats.prompt_stats.total_prompts
        }),
{
    tally::tally_adds_up(all_hours(sessions, offsets));
    all_hours_bound(sessions, offsets);
    all_prompts_len(sessions);
    short_prompts_bound(all_prompts(sessions));
}

proof fn sum_over_projects(
    sessions: Seq<SessionView>,
    names: Seq<Seq<char>>,
    h: spec_fn(SessionView) -> nat,
)
    requires
        names.no_duplicates(),
        forall|i: int| 0 <= i < sessions.len() ==> names.contains((#[trigger] sessions[i]).project),
    ensures
        lists::sum_by(names, |name: Seq<char>| lists::sum_by(of_project(sessions, name), h))
            == lists::sum_by(sessions, h),
    decreases sessions.len(),
{
    reveal(Seq::filter);
    let by_name = |name: Seq<char>| lists::sum_by(of_project(sessions, name), h);
    if sessions.len() == 0 {
        assert forall|i: int| 0 <= i < names.len() implies by_name(#[trigger] names[i]) == 0 by {
            assert(of_project(sessions, names[i]).len() == 0);
        }
        lists::sum_by_of_zero(names, by_name);
    } else {
        let front = sessions.drop_last();
        let x = sessions.last();
        let f = |name: Seq<char>| lists::sum_by(of_project(front, name), h);
        let g = |name: Seq<char>|
            if name == x.project {
                h(x)
            } else {
                0
            };
        assert forall|i: int| 0 <= i < front.len() implies names.contains(
            (#[trigger] front[i]).project,
        ) by {
            assert(front[i] == sessions[i]);
        }
        sum_over_projects(front, names, h);
        assert(names.contains(sessions[sessions.len() - 1].project));
        lists::sum_by_of_one(names, x.project, g);
        assert forall|name: Seq<char>| #[trigger] by_name(name) == f(name) + g(name) by {
            let own = of_project(front, name);
            if name == x.project {
                assert(of_project(sessions, name) == own.push(x));
                assert(own.push(x).drop_last() =~= own);
            } else {
                assert(of_project(sessions, name) == own);
            }
        }
        lists::sum_by_of_sum(names, f, g, by_name);
    }
}

/// The sessions of the projects add up to the sessions, and their messages to the messages of both
/// sides.
pub proof fn projects_add_up(sessions: Seq<SessionView>)
    ensures
        lists::sum_by(projects_of(sessions), |p: ProjectView| p.session_count) == sessions.len(),
        lists::sum_by(projects_of(sessions), |p: ProjectView| p.message_count) == user_messages(
            sessions,
        ) + assistant_messages(sessions),
{
    let names = tally::distinct(project_names(sessions));
    let make = |name: Seq<char>| project_of(name, of_project(sessions, name));
    let leq = order::order_of::<ProjectStat, ByMessages>();
    let count = |p: ProjectView| p.session_count;
    let messages = |p: ProjectView| p.message_count;
    let one = |s: SessionView| 1nat;
    let both = |s: SessionView| s.prompts.len() + session::turn_messages(s.turns);
    tally::distinct_unique(project_names(sessions));
    assert forall|i: int| 0 <= i < sessions.len() implies names.contains(
        (#[trigger] sessions[i]).project,
    ) by {
        assert(project_names(sessions)[i] == sessions[i].project);
        tally::distinct_members(project_names(sessions), sessions[i].project);
    }
    let one_by_name = |name: Seq<char>| lists::sum_by(of_project(sessions, name), one);
    let both_by_name = |name: Seq<char>| lists::sum_by(of_project(sessions, name), both);
    sum_over_projects(sessions, names, one);
    sum_over_projects(sessions, names, both);
    assert forall|name: Seq<char>| #[trigger] one_by_name(name) == count(make(name)) by {
        lists::sum_by_of_ones(of_project(sessions, name), one);
    }
    lists::sum_by_of_ones(sessions, one);
    lists::sum_by_of_map(names, make, count, one_by_name);
    lists::sum_by_of_map(names, make, messages, both_by_name);
    order::sum_of_sorted(names.map_values(make), leq, count);
    order::sum_of_sorted(names.map_values(make), leq, messages);
    lists::sum_by_of_sum(
        sessions,
        |s: SessionView| s.prompts.len(),
        |s: SessionView| session::turn_messages(s.turns),
        both,
    );
}

/// A project is listed exactly where a session belongs to it.
pub proof fn projects_are_those_of_sessions(sessions: Seq<SessionView>, p: ProjectView)
    ensures
        projects_of(sessions).contains(p) <==> project_names(sessions).contains(p.name) && p
            == project_of(p.name, of_project(sessions, p.name)),
{
    let names = tally::distinct(project_names(sessions));
    let make = |name: Seq<char>| project_of(name, of_project(sessions, name));
    let leq = order::order_of::<ProjectStat, ByMessages>();
    order::sorted_contains(names.map_values(make), leq, p);
    tally::distinct_members(project_names(sessions), p.name);
    if names.map_values(make).contains(p) {
        let k = choose|k: int| 0 <= k < names.map_values(make).len() && names.map_values(make)[k] == p;
        assert(names[k] == p.name);
    }
    if names.contains(p.name) && p == project_of(p.name, of_project(sessions, p.name)) {
        let k = choose|k: int| 0 <= k < names.len() && names[k] == p.name;
        assert(names.map_values(make)[k] == p);
    }
}

/// The projects stand by their messages, the most first, and by name where those are equal; there
/// are as many as the sessions have different projects.
pub proof fn projects_are_ranked(sessions: Seq<SessionView>, i: int, j: int)
    requires
        0 <= i < j < projects_of(sessions).len(),
    ensures
        projects_of(sessions).len() == tally::distinct(project_names(sessions)).len(),
        ({
            let a = projects_of(sessions)[i];
            let b = projects_of(sessions)[j];
            a.message_count > b.message_count || (a.message_count == b.message_count
                && text::text_leq(a.name, b.name))
        }),
{
    let names = tally::distinct(project_names(sessions));
    let make = |name: Seq<char>| project_of(name, of_project(sessions, name));
    let leq = order::order_of::<ProjectStat, ByMessages>();
    order::sorted_keeps_items(names.map_values(make), leq);
    order::sorted_is_ascending::<ProjectStat, ByMessages>(names.map_values(make));
    assert(leq(projects_of(sessions)[i], projects_of(sessions)[j]));
}

/// The totals do not depend on the order of the sessions.
pub proof fn totals_ignore_order(sessions: Seq<SessionView>, others: Seq<SessionView>)
    requires
        sessions.to_multiset() == others.to_multiset(),
    ensures
        user_messages(others) == user_messages(sessions),
        assistant_messages(others) == assistant_messages(sessions),
        all_messages(others) == all_messages(sessions),
        all_tools(others).to_multiset() == all_tools(sessions).to_multiset(),
        all_tools(others).len() == all_tools(sessions).len(),
        all_input(others) == all_input(sessions),
        all_output(others) == all_output(sessions),
        all_prompts(others).to_multiset() == all_prompts(sessions).to_multiset(),
        prompt_bytes(all_prompts(others)) == prompt_bytes(all_prompts(sessions)),
        forall|tool: Seq<char>|
            #[trigger] tally::occurrences(all_tools(others), tool) == tally::occurrences(
                all_tools(sessions),
                tool,
            ),
        forall|name: Seq<char>|
            (#[trigger] of_project(others, name)).to_multiset() == of_project(
                sessions,
                name,
            ).to_multiset(),
        forall|name: Seq<char>|
            all_messages(#[trigger] of_project(others, name)) == all_messages(
                of_project(sessions, name),
            ),
{
    broadcast use vstd::seq_lib::group_to_multiset_ensures;

    let both = |s: SessionView| s.prompts.len() + session::turn_messages(s.turns);
    lists::sum_by_of_permutation(sessions, others, |s: SessionView| s.prompts.len());
    lists::sum_by_of_permutation(
        sessions,
        others,
        |s: SessionView| session::turn_messages(s.turns),
    );
    lists::sum_by_of_permutation(sessions, others, both);
    lists::sum_by_of_permutation(sessions, others, |s: SessionView| session::turn_input(s.turns));
    lists::sum_by_of_permutation(sessions, others, |s: SessionView| session::turn_output(s.turns));
    tally::flat_by_of_permutation(
        others,
        sessions,
        |s: SessionView| session::turn_tools(s.turns),
    );
    tally::flat_by_of_permutation(others, sessions, |s: SessionView| s.prompts);
    lists::sum_by_of_permutation(
        all_prompts(others),
        all_prompts(sessions),
        |p: PromptView| text::byte_len(p.text),
    );
    assert(all_tools(others).len() == all_tools(others).to_multiset().len());
    assert(all_tools(sessions).len() == all_tools(sessions).to_multiset().len());
    assert forall|name: Seq<char>|
        (#[trigger] of_project(others, name)).to_multiset() == of_project(
            sessions,
            name,
        ).to_multiset() && all_messages(of_project(others, name)) == all_messages(
            of_project(sessions, name),
        ) by {
        tally::filter_of_permutation(others, sessions, in_project(name));
        lists::sum_by_of_permutation(of_project(others, name), of_project(sessions, name), both);
    }
}

/// How often an hour is counted does not depend on the order of the sessions.
pub proof fn hours_ignore_order(
    sessions: Seq<SessionView>,
    others: Seq<SessionView>,
    offsets: Map<i64, i32>,
)
    requires
        sessions.to_multiset() == others.to_multiset(),
    ensures
        all_hours(others, offsets).to_multiset() == all_hours(sessions, offsets).to_multiset(),
        forall|hour: Seq<char>|
            #[trigger] tally::occurrences(all_hours(others, offsets), hour) == tally::occurrences(
                all_hours(sessions, offsets),
                hour,
            ),
{
    tally::flat_by_of_permutation(
        others,
        sessions,
        |s: SessionView| hours_of(s.prompts, offsets),
    );
}

/// Whether two tables have the same entries, in whatever order.
pub open spec fn same_counts(a: Seq<(Seq<char>, nat)>, b: Seq<(Seq<char>, nat)>) -> bool {
    a.to_multiset() == b.to_multiset()
}

/// Whether a report says the same of two projects; the tools may be listed in another order.
pub open spec fn same_project(a: ProjectView, b: ProjectView) -> bool {
    &&& a.name == b.name
    &&& a.session_count == b.session_count
    &&& a.message_count == b.message_count
    &&& a.time_range == b.time_range
    &&& same_counts(a.tool_usage, b.tool_usage)
    &&& a.files_touched == b.files_touched
}

/// Whether two reports say the same of all sessions together; tools and hours may be listed in
/// another order, all else may not.
pub open spec fn same_stats(a: StatsView, b: StatsView) -> bool {
    &&& a.projects_worked_on.len() == b.projects_worked_on.len()
    &&& forall|i: int|
        0 <= i < a.projects_worked_on.len() ==> same_project(
            #[trigger] a.projects_worked_on[i],
            b.projects_worked_on[i],
        )
    &&& a.total_user_messages == b.total_user_messages
    &&& a.total_assistant_messages == b.total_assistant_messages
    &&& a.total_tool_uses == b.total_tool_uses
    &&& same_counts(a.tool_frequency, b.tool_frequency)
    &&& a.total_input_tokens == b.total_input_tokens
    &&& a.total_output_tokens == b.total_output_tokens
    &&& a.decisions_by_project == b.decisions_by_project
    &&& a.total_decisions == b.total_decisions
    &&& same_counts(a.sessions_by_hour, b.sessions_by_hour)
    &&& a.overall_time_range == b.overall_time_range
    &&& a.prompt_stats == b.prompt_stats
    &&& a.focus == b.focus
}

proof fn project_ignores_order(
    name: Seq<char>,
    own: Seq<SessionView>,
    others: Seq<SessionView>,
)
    requires
        own.to_multiset() == others.to_multiset(),
    ensures
        same_project(project_of(name, own), project_of(name, others)),
{
    broadcast use vstd::seq_lib::group_to_multiset_ensures;

    assert(own.len() == own.to_multiset().len() && others.len() == others.to_multiset().len());
    totals_ignore_order(own, others);
    tally::flat_by_of_permutation(own, others, |s: SessionView| session::timestamps(s));
    session::range_of_same_members(all_timestamps(own), all_timestamps(others));
    tally::tally_of_permutation(all_tools(own), all_tools(others));
    tally::flat_by_of_permutation(own, others, |s: SessionView| session::turn_files(s.turns));
    text::sorted_distinct_of_same_members(all_files(own), all_files(others));
}

/// A project without its tools.
spec fn without_tools(p: ProjectView) -> ProjectView {
    ProjectView { tool_usage: Seq::empty(), ..p }
}

proof fn projects_ignore_order(sessions: Seq<SessionView>, others: Seq<SessionView>)
    requires
        sessions.to_multiset() == others.to_multiset(),
    ensures
        projects_of(sessions).len() == projects_of(others).len(),
        forall|i: int|
            0 <= i < projects_of(sessions).len() ==> same_project(
                #[trigger] projects_of(sessions)[i],
                projects_of(others)[i],
            ),
{
    let leq = order::order_of::<ProjectStat, ByMessages>();
    let strip = |p: ProjectView| without_tools(p);
    let make = |name: Seq<char>| project_of(name, of_project(sessions, name));
    let make_other = |name: Seq<char>| project_of(name, of_project(others, name));
    let bare = |name: Seq<char>| without_tools(project_of(name, of_project(sessions, name)));
    let names = tally::distinct(project_names(sessions));
    let other_names = tally::distinct(project_names(others));
    tally::map_of_permutation(sessions, others, |s: SessionView| s.project);
    tally::distinct_of_permutation(project_names(sessions), project_names(others));
    tally::map_of_permutation(names, other_names, bare);
    totals_ignore_order(sessions, others);
    assert forall|name: Seq<char>| same_project(
        project_of(name, of_project(sessions, name)),
        #[trigger] project_of(name, of_project(others, name)),
    ) by {
        project_ignores_order(name, of_project(sessions, name), of_project(others, name));
    }
    assert(names.map_values(make).map_values(strip) =~= names.map_values(bare));
    assert(other_names.map_values(make_other).map_values(strip) =~= other_names.map_values(bare))
        by {
        assert forall|i: int| 0 <= i < other_names.len() implies strip(
            make_other(#[trigger] other_names[i]),
        ) == bare(other_names[i]) by {
            assert(same_project(make(other_names[i]), make_other(other_names[i])));
        }
    }
    let stripped = names.map_values(bare);
    assert forall|a: ProjectView, b: ProjectView|
        stripped.contains(a) && stripped.contains(b) && #[trigger] leq(a, b) && leq(b, a) implies a
        == b by {
        text::text_leq_antisymmetric(a.name, b.name);
        let i = choose|i: int| 0 <= i < stripped.len() && stripped[i] == a;
        let j = choose|j: int| 0 <= j < stripped.len() && stripped[j] == b;
        assert(names[i] == a.name && names[j] == b.name);
    }
    order::sorted_of_permutation::<ProjectStat, ByMessages>(stripped, other_names.map_values(bare));
    order::sorted_of_map(names.map_values(make), strip, leq, leq);
    order::sorted_of_map(other_names.map_values(make_other), strip, leq, leq);
    let all = projects_of(sessions);
    let all_others = projects_of(others);
    assert(all.map_values(strip) == all_others.map_values(strip));
    assert(all.map_values(strip).len() == all.len());
    assert(all_others.map_values(strip).len() == all_others.len());
    assert forall|i: int| 0 <= i < all.len() implies same_project(
        #[trigger] all[i],
        all_others[i],
    ) by {
        let a = all[i];
        let b = all_others[i];
        assert(all.map_values(strip)[i] == strip(a));
        assert(all_others.map_values(strip)[i] == strip(b));
        assert(strip(a).name == a.name && strip(b).name == b.name);
        assert(all.contains(a) && all_others.contains(b));
        projects_are_those_of_sessions(sessions, a);
        projects_are_those_of_sessions(others, b);
        assert(same_project(
            project_of(a.name, of_project(sessions, a.name)),
            project_of(a.name, of_project(others, a.name)),
        ));
    }
}

proof fn decision_counts_ignore_order(decisions: Seq<DecisionView>, others: Seq<DecisionView>)
    requires
        decisions.to_multiset() == others.to_multiset(),
    ensures
        decision_counts(decisions) == decision_counts(others),
{
    let leq = order::order_of::<DecisionsByProject, ByDecisions>();
    let names = decision_projects(decisions);
    let other_names = decision_projects(others);
    tally::map_of_permutation(decisions, others, |d: DecisionView| d.project);
    tally::tally_of_permutation(names, other_names);
    assert forall|a: (Seq<char>, nat), b: (Seq<char>, nat)|
        tally::tally(names).contains(a) && tally::tally(names).contains(b) && #[trigger] leq(a, b)
            && leq(b, a) implies a == b by {
        text::text_leq_antisymmetric(a.0, b.0);
    }
    order::sorted_of_permutation::<DecisionsByProject, ByDecisions>(
        tally::tally(names),
        tally::tally(other_names),
    );
}

/// The statistics do not depend on the order in which sessions and decisions are given. Projects,
/// their files and the counts of decisions come out in one order; the counts of tools and hours are
/// the same entry by entry.
pub proof fn stats_ignore_order(
    sessions: Seq<SessionView>,
    others: Seq<SessionView>,
    decisions: Seq<DecisionView>,
    other_decisions: Seq<DecisionView>,
    focus: FocusView,
    offsets: Map<i64, i32>,
)
    requires
        sessions.to_multiset() == others.to_multiset(),
        decisions.to_multiset() == other_decisions.to_multiset(),
    ensures
        same_stats(
            stats_of(sessions, decisions, focus, offsets),
            stats_of(others, other_decisions, focus, offsets),
        ),
{
    broadcast use vstd::seq_lib::group_to_multiset_ensures;

    totals_ignore_order(sessions, others);
    hours_ignore_order(sessions, others, offsets);
    projects_ignore_order(sessions, others);
    decision_counts_ignore_order(decisions, other_decisions);
    tally::tally_of_permutation(all_tools(sessions), all_tools(others));
    tally::tally_of_permutation(all_hours(sessions, offsets), all_hours(others, offsets));
    tally::flat_by_of_permutation(sessions, others, |s: SessionView| session::timestamps(s));
    session::range_of_same_members(all_timestamps(sessions), all_timestamps(others));
    let prompts = all_prompts(sessions);
    let other_prompts = all_prompts(others);
    assert(prompts.len() == prompts.to_multiset().len());
    assert(other_prompts.len() == other_prompts.to_multiset().len());
    lists::sum_by_of_permutation(
        prompts,
        other_prompts,
        |p: PromptView|
            if text::byte_len(p.text) < 20 {
                1nat
            } else {
                0
            },
    );
    assert(decisions.len() == decisions.to_multiset().len());
    assert(other_decisions.len() == other_decisions.to_multiset().len());
}

/// Where the totals of all sessions can be represented, those of each one can.
pub proof fn sessions_fit(sessions: Seq<SessionView>, i: int)
    requires
        totals_fit(sessions),
        0 <= i < sessions.len(),
    ensures
        session::session_fits(sessions[i]),
{
    lists::sum_by_of_item(sessions, i, |s: SessionView| session::turn_messages(s.turns));
    lists::sum_by_of_item(sessions, i, |s: SessionView| session::turn_input(s.turns));
    lists::sum_by_of_item(sessions, i, |s: SessionView| session::turn_output(s.turns));
    let tools = |s: SessionView| session::turn_tools(s.turns);
    assert forall|name: Seq<char>| #[trigger] tally::occurrences(
        session::turn_tools(sessions[i].turns),
        name,
    ) <= u32::MAX by {
        tally::occurrences_of_flat(sessions, tools, name);
        lists::sum_by_of_item(sessions, i, |s: SessionView| tally::occurrences(tools(s), name));
        assert(tally::occurrences(all_tools(sessions), name) <= u32::MAX);
    }
}

proof fn timestamps_of_project(sessions: Seq<SessionView>, name: Seq<char>, timestamp: Seq<char>)
    requires
        all_timestamps(of_project(sessions, name)).contains(timestamp),
    ensures
        all_timestamps(sessions).contains(timestamp),
{
    let f = |s: SessionView| session::timestamps(s);
    let own = of_project(sessions, name);
    lists::flat_by_members(own, f, timestamp);
    let i = choose|i: int| 0 <= i < own.len() && f(#[trigger] own[i]).contains(timestamp);
    assert(own.contains(own[i]));
    lists::filter_members(sessions, in_project(name), own[i]);
    let k = choose|k: int| 0 <= k < sessions.len() && sessions[k] == own[i];
    lists::flat_by_has(sessions, f, k, timestamp);
}

/// The time of a project lies within the time of all sessions.
pub proof fn project_range_lies_in_overall(sessions: Seq<SessionView>, name: Seq<char>)
    ensures
        ({
            let own = session::range_of(all_timestamps(of_project(sessions, name)));
            let all = session::range_of(all_timestamps(sessions));
            &&& own.start matches Some(a) ==> (all.start matches Some(b) && text::text_leq(b, a))
            &&& own.end matches Some(a) ==> (all.end matches Some(b) && text::text_leq(a, b))
        }),
{
    let times = all_timestamps(sessions);
    let own_times = all_timestamps(of_project(sessions, name));
    let own = session::range_of(own_times);
    session::range_of_bounds(times);
    session::range_of_bounds(own_times);
    if own.start is Some {
        timestamps_of_project(sessions, name, own.start->0);
        timestamps_of_project(sessions, name, own.end->0);
        let i = choose|i: int| 0 <= i < times.len() && times[i] == own.start->0;
        let j = choose|j: int| 0 <= j < times.len() && times[j] == own.end->0;
        assert(text::text_leq(session::range_of(times).start->0, times[i]));
        assert(text::text_leq(times[j], session::range_of(times).end->0));
    }
}

// ---------------------------------------------------------------------------
// What the statistics say
// ---------------------------------------------------------------------------

/// The views of the statistics are their fields.
pub proof fn stats_show_their_fields(
    stats: AggregateStats,
    project: ProjectStat,
    prompts: PromptStats,
    decisions: DecisionsByProject,
)
    ensures
        ({
            let view = stats.deep_view();
            &&& view.projects_worked_on == stats.projects_worked_on.deep_view()
            &&& view.total_user_messages == stats.total_user_messages
            &&& view.total_assistant_messages == stats.total_assistant_messages
            &&& view.total_tool_uses == stats.total_tool_uses
            &&& view.tool_frequency == stats.tool_frequency.deep_view()
            &&& view.total_input_tokens == stats.total_input_tokens
            &&& view.total_output_tokens == stats.total_output_tokens
            &&& view.decisions_by_project == stats.decisions_by_project.deep_view()
            &&& view.total_decisions == stats.total_decisions
            &&& view.sessions_by_hour == stats.sessions_by_hour.deep_view()
            &&& view.overall_time_range == stats.overall_time_range.deep_view()
            &&& view.prompt_stats == stats.prompt_stats.deep_view()
            &&& view.focus.context_switches == stats.focus.context_switches
            &&& view.focus.longest_focus_minutes == stats.focus.longest_focus_minutes
            &&& view.focus.focus_blocks == stats.focus.focus_blocks
        }),
        project.deep_view().name == project.name@,
        project.deep_view().session_count == project.session_count,
        project.deep_view().message_count == project.message_count,
        project.deep_view().time_range == project.time_range.deep_view(),
        project.deep_view().tool_usage == project.tool_usage.deep_view(),
        project.deep_view().files_touched == project.files_touched.deep_view(),
        prompts.deep_view().avg_length == prompts.avg_length,
        prompts.deep_view().short_prompts == prompts.short_prompts,
        prompts.deep_view().total_prompts == prompts.total_prompts,
        decisions.deep_view() == (decisions.project@, decisions.count as nat),
{
}

/// What a single session adds to the totals, and that the totals of two lists of sessions together
/// are those of either list.
pub proof fn totals_add_up(sessions: Seq<SessionView>, more: Seq<SessionView>, s: SessionView)
    ensures
        user_messages(sessions + more) == user_messages(sessions) + user_messages(more),
        user_messages(seq![s]) == s.prompts.len(),
        assistant_messages(sessions + more) == assistant_messages(sessions) + assistant_messages(
            more,
        ),
        assistant_messages(seq![s]) == lists::sum_by(s.turns, |t: TurnView| t.message_count),
        all_messages(sessions + more) == all_messages(sessions) + all_messages(more),
        all_messages(seq![s]) == s.prompts.len() + lists::sum_by(
            s.turns,
            |t: TurnView| t.message_count,
        ),
        all_input(sessions + more) == all_input(sessions) + all_input(more),
        all_input(seq![s]) == lists::sum_by(s.turns, |t: TurnView| t.input_tokens),
        all_output(sessions + more) == all_output(sessions) + all_output(more),
        all_output(seq![s]) == lists::sum_by(s.turns, |t: TurnView| t.output_tokens),
        all_tools(sessions + more) == all_tools(sessions) + all_tools(more),
        all_tools(seq![s]) == lists::flat_by(s.turns, |t: TurnView| t.tool_uses),
        all_files(sessions + more) == all_files(sessions) + all_files(more),
        all_files(seq![s]) == lists::flat_by(s.turns, |t: TurnView| t.file_paths),
        all_prompts(sessions + more) == all_prompts(sessions) + all_prompts(more),
        all_prompts(seq![s]) == s.prompts,
{
    lists::sum_by_of_parts(sessions, more, s, |s: SessionView| s.prompts.len());
    lists::sum_by_of_parts(sessions, more, s, |s: SessionView| session::turn_messages(s.turns));
    lists::sum_by_of_parts(
        sessions,
        more,
        s,
        |s: SessionView| s.prompts.len() + session::turn_messages(s.turns),
    );
    lists::sum_by_of_parts(sessions, more, s, |s: SessionView| session::turn_input(s.turns));
    lists::sum_by_of_parts(sessions, more, s, |s: SessionView| session::turn_output(s.turns));
    lists::flat_by_of_parts(sessions, more, s, |s: SessionView| session::turn_tools(s.turns));
    lists::flat_by_of_parts(sessions, more, s, |s: SessionView| session::turn_files(s.turns));
    lists::flat_by_of_parts(sessions, more, s, |s: SessionView| s.prompts);
}

/// The totals of a report are those of the sessions: prompts, messages of the assistant, uses of
/// tools, and tokens on either side. Each tool is counted as often as it was used.
pub proof fn totals_are_those_of_sessions(
    sessions: Seq<SessionView>,
    decisions: Seq<DecisionView>,
    focus: FocusView,
    offsets: Map<i64, i32>,
)
    ensures
        ({
            let stats = stats_of(sessions, decisions, focus, offsets);
            let tools = lists::flat_by(
                sessions,
                |s: SessionView| lists::flat_by(s.turns, |t: TurnView| t.tool_uses),
            );
            &&& stats.total_user_messages == lists::sum_by(
                sessions,
                |s: SessionView| s.prompts.len(),
            )
            &&& stats.total_assistant_messages == lists::sum_by(
                sessions,
                |s: SessionView| lists::sum_by(s.turns, |t: TurnView| t.message_count),
            )
            &&& stats.total_input_tokens == lists::sum_by(
                sessions,
                |s: SessionView| lists::sum_by(s.turns, |t: TurnView| t.input_tokens),
            )
            &&& stats.total_output_tokens == lists::sum_by(
                sessions,
                |s: SessionView| lists::sum_by(s.turns, |t: TurnView| t.output_tokens),
            )
            &&& stats.total_tool_uses == tools.len()
            &&& tally::counts_names(stats.tool_frequency, tools)
            &&& stats.total_decisions == decisions.len()
            &&& stats.focus == focus
        }),
{
    same_sum(
        sessions,
        |s: SessionView| session::turn_messages(s.turns),
        |s: SessionView| lists::sum_by(s.turns, |t: TurnView| t.message_count),
    );
    same_sum(
        sessions,
        |s: SessionView| session::turn_input(s.turns),
        |s: SessionView| lists::sum_by(s.turns, |t: TurnView| t.input_tokens),
    );
    same_sum(
        sessions,
        |s: SessionView| session::turn_output(s.turns),
        |s: SessionView| lists::sum_by(s.turns, |t: TurnView| t.output_tokens),
    );
    same_flat(
        sessions,
        |s: SessionView| session::turn_tools(s.turns),
        |s: SessionView| lists::flat_by(s.turns, |t: TurnView| t.tool_uses),
    );
    tally::tally_counts_names(all_tools(sessions));
}

proof fn same_sum(
    sessions: Seq<SessionView>,
    f: spec_fn(SessionView) -> nat,
    g: spec_fn(SessionView) -> nat,
)
    requires
        forall|s: SessionView| #[trigger] f(s) == g(s),
    ensures
        lists::sum_by(sessions, f) == lists::sum_by(sessions, g),
    decreases sessions.len(),
{
    if sessions.len() > 0 {
        same_sum(sessions.drop_last(), f, g);
        assert(f(sessions.last()) == g(sessions.last()));
    }
}

proof fn same_flat<W>(
    sessions: Seq<SessionView>,
    f: spec_fn(SessionView) -> Seq<W>,
    g: spec_fn(SessionView) -> Seq<W>,
)
    requires
        forall|s: SessionView| #[trigger] f(s) == g(s),
    ensures
        lists::flat_by(sessions, f) == lists::flat_by(sessions, g),
    decreases sessions.len(),
{
    if sessions.len() > 0 {
        same_flat(sessions.drop_last(), f, g);
        assert(f(sessions.last()) == g(sessions.last()));
    }
}

/// How many prompts of the sessions were given in this local hour.
pub open spec fn prompts_in_hour(
    sessions: Seq<SessionView>,
    offsets: Map<i64, i32>,
    hour: Seq<char>,
) -> nat {
    lists::flat_by(sessions, |s: SessionView| s.prompts).filter(
        |p: PromptView| clock::local_hour(p.timestamp, offsets) == Some(hour),
    ).len()
}

proof fn hours_of_prompts(prompts: Seq<PromptView>, offsets: Map<i64, i32>, hour: Seq<char>)
    ensures
        tally::occurrences(hours_of(prompts, offsets), hour) == prompts.filter(
            |p: PromptView| clock::local_hour(p.timestamp, offsets) == Some(hour),
        ).len(),
    decreases prompts.len(),
{
    reveal(Seq::filter);
    if prompts.len() > 0 {
        let front = prompts.drop_last();
        let own = hour_of(prompts.last(), offsets);
        hours_of_prompts(front, offsets, hour);
        tally::occurrences_of_sum(hours_of(front, offsets), own, hour);
        reveal_with_fuel(tally::occurrences, 2);
        if own.len() > 0 {
            assert(own.drop_last() =~= Seq::<Seq<char>>::empty());
        }
    }
}

proof fn all_hours_of_prompts(sessions: Seq<SessionView>, offsets: Map<i64, i32>)
    ensures
        all_hours(sessions, offsets) == hours_of(all_prompts(sessions), offsets),
    decreases sessions.len(),
{
    let f = |p: PromptView| hour_of(p, offsets);
    if sessions.len() > 0 {
        let front = sessions.drop_last();
        all_hours_of_prompts(front, offsets);
        let any = PromptView { timestamp: Seq::empty(), text: Seq::empty() };
        lists::flat_by_of_parts(all_prompts(front), sessions.last().prompts, any, f);
    } else {
        assert(all_hours(sessions, offsets) =~= hours_of(all_prompts(sessions), offsets));
    }
}

/// Whether `table` counts the prompts of the sessions by local hour: with one entry for each hour in
/// which one was given, and how many were.
pub open spec fn counts_prompts(
    table: Seq<(Seq<char>, nat)>,
    sessions: Seq<SessionView>,
    offsets: Map<i64, i32>,
) -> bool {
    &&& forall|i: int, j: int|
        0 <= i < table.len() && 0 <= j < table.len() && i != j ==> (#[trigger] table[i]).0 != (
        #[trigger] table[j]).0
    &&& forall|i: int|
        0 <= i < table.len() ==> (#[trigger] table[i]).1 > 0 && table[i].1 == prompts_in_hour(
            sessions,
            offsets,
            table[i].0,
        )
    &&& forall|hour: Seq<char>| #[trigger]
        prompts_in_hour(sessions, offsets, hour) > 0 ==> tally::lists(table, hour)
}

/// Each hour is counted once for every prompt that was given in it, by the local clock, and has one
/// entry where there is such a prompt and none otherwise.
pub proof fn prompts_are_counted_by_local_hour(
    sessions: Seq<SessionView>,
    decisions: Seq<DecisionView>,
    focus: FocusView,
    offsets: Map<i64, i32>,
)
    ensures
        counts_prompts(
            stats_of(sessions, decisions, focus, offsets).sessions_by_hour,
            sessions,
            offsets,
        ),
{
    let hours = all_hours(sessions, offsets);
    let table = tally::tally(hours);
    tally::tally_counts_names(hours);
    tally::tally_is_unique(hours);
    all_hours_of_prompts(sessions, offsets);
    assert forall|hour: Seq<char>| #[trigger] prompts_in_hour(sessions, offsets, hour)
        == tally::occurrences(hours, hour) by {
        hours_of_prompts(all_prompts(sessions), offsets, hour);
    }
    assert forall|i: int| 0 <= i < table.len() implies (#[trigger] table[i]).1 > 0 && table[i].1
        == prompts_in_hour(sessions, offsets, table[i].0) by {
        tally::tally_lists(hours, table[i].0);
    }
    assert forall|hour: Seq<char>| #[trigger]
        prompts_in_hour(sessions, offsets, hour) > 0 implies tally::lists(table, hour) by {
        tally::occurrences_zero(hours, hour);
        tally::tally_lists(hours, hour);
    }
}

/// The average length of the prompts is that in whole bytes, and short are those of less than twenty
/// bytes.
pub proof fn prompts_are_measured_in_bytes(
    sessions: Seq<SessionView>,
    decisions: Seq<DecisionView>,
    focus: FocusView,
    offsets: Map<i64, i32>,
)
    ensures
        ({
            let stats = stats_of(sessions, decisions, focus, offsets).prompt_stats;
            let prompts = lists::flat_by(sessions, |s: SessionView| s.prompts);
            let bytes = lists::sum_by(
                prompts,
                |p: PromptView| vstd::utf8::encode_utf8(p.text).len(),
            );
            &&& stats.total_prompts == prompts.len()
            &&& stats.short_prompts == prompts.filter(
                |p: PromptView| vstd::utf8::encode_utf8(p.text).len() < 20,
            ).len()
            &&& prompts.len() == 0 ==> stats.avg_length == 0
            &&& prompts.len() > 0 ==> stats.avg_length * prompts.len() <= bytes < (stats.avg_length
                + 1) * prompts.len()
        }),
{
    let prompts = all_prompts(sessions);
    let short = |p: PromptView| vstd::utf8::encode_utf8(p.text).len() < 20;
    let f = |p: PromptView|
        if text::byte_len(p.text) < 20 {
            1nat
        } else {
            0
        };
    lists::sum_by_counts(prompts, short, f);
    same_bytes(prompts);
    if prompts.len() > 0 {
        let bytes = prompt_bytes(prompts) as int;
        let n = prompts.len() as int;
        vstd::arithmetic::div_mod::lemma_fundamental_div_mod(bytes, n);
        vstd::arithmetic::div_mod::lemma_mod_bound(bytes, n);
        let q = bytes / n;
        assert(q * n <= bytes < (q + 1) * n) by (nonlinear_arith)
            requires
                bytes == n * q + bytes % n,
                0 <= bytes % n < n,
        ;
    }
}

proof fn same_bytes(prompts: Seq<PromptView>)
    ensures
        prompt_bytes(prompts) == lists::sum_by(
            prompts,
            |p: PromptView| vstd::utf8::encode_utf8(p.text).len(),
        ),
    decreases prompts.len(),
{
    if prompts.len() > 0 {
        same_bytes(prompts.drop_last());
    }
}

/// Whether a session of these has this timestamp.
pub open spec fn any_has_timestamp(sessions: Seq<SessionView>, timestamp: Seq<char>) -> bool {
    exists|k: int|
        0 <= k < sessions.len() && session::has_timestamp(#[trigger] sessions[k], timestamp)
}

/// The timestamps of the sessions are those that one of them has.
pub proof fn all_timestamps_members(sessions: Seq<SessionView>, timestamp: Seq<char>)
    ensures
        all_timestamps(sessions).contains(timestamp) <==> any_has_timestamp(sessions, timestamp),
{
    let f = |s: SessionView| session::timestamps(s);
    if all_timestamps(sessions).contains(timestamp) {
        lists::flat_by_members(sessions, f, timestamp);
        let k = choose|k: int| 0 <= k < sessions.len() && f(#[trigger] sessions[k]).contains(timestamp);
        session::timestamps_are_those_of_both_sides(sessions[k]);
        assert(session::timestamps(sessions[k]).contains(timestamp));
    }
    if any_has_timestamp(sessions, timestamp) {
        let k = choose|k: int|
            0 <= k < sessions.len() && session::has_timestamp(#[trigger] sessions[k], timestamp);
        session::timestamps_are_those_of_both_sides(sessions[k]);
        assert(session::timestamps(sessions[k]).contains(timestamp));
        lists::flat_by_has(sessions, f, k, timestamp);
    }
}

/// The time of a report goes from the first timestamp of all sessions to the last.
pub proof fn reports_cover_all_timestamps(
    sessions: Seq<SessionView>,
    decisions: Seq<DecisionView>,
    focus: FocusView,
    offsets: Map<i64, i32>,
)
    ensures
        session::is_range(
            stats_of(sessions, decisions, focus, offsets).overall_time_range,
            |x: Seq<char>| any_has_timestamp(sessions, x),
        ),
{
    let p = |x: Seq<char>| any_has_timestamp(sessions, x);
    assert forall|x: Seq<char>| #[trigger] all_timestamps(sessions).contains(x) <==> p(x) by {
        all_timestamps_members(sessions, x);
    }
    session::range_is_first_to_last(all_timestamps(sessions), p);
}

/// Whether a turn of one of the sessions worked on this file.
pub open spec fn any_worked_on(sessions: Seq<SessionView>, file: Seq<char>) -> bool {
    exists|k: int, t: int, f: int|
        0 <= k < sessions.len() && 0 <= t < sessions[k].turns.len() && 0 <= f
            < sessions[k].turns[t].file_paths.len()
            && #[trigger] sessions[k].turns[t].file_paths[f] == file
}

proof fn all_files_members(sessions: Seq<SessionView>, file: Seq<char>)
    ensures
        all_files(sessions).contains(file) <==> any_worked_on(sessions, file),
{
    let of_session = |s: SessionView| session::turn_files(s.turns);
    let of_turn = |t: TurnView| t.file_paths;
    if all_files(sessions).contains(file) {
        lists::flat_by_members(sessions, of_session, file);
        let k = choose|k: int|
            0 <= k < sessions.len() && of_session(#[trigger] sessions[k]).contains(file);
        let turns = sessions[k].turns;
        lists::flat_by_members(turns, of_turn, file);
        let t = choose|t: int| 0 <= t < turns.len() && of_turn(#[trigger] turns[t]).contains(file);
        let f = choose|f: int| 0 <= f < turns[t].file_paths.len() && turns[t].file_paths[f] == file;
        assert(sessions[k].turns[t].file_paths[f] == file);
    }
    if any_worked_on(sessions, file) {
        let (k, t, f) = choose|k: int, t: int, f: int|
            0 <= k < sessions.len() && 0 <= t < sessions[k].turns.len() && 0 <= f
                < sessions[k].turns[t].file_paths.len()
                && #[trigger] sessions[k].turns[t].file_paths[f] == file;
        lists::flat_by_has(sessions[k].turns, of_turn, t, file);
        lists::flat_by_has(sessions, of_session, k, file);
    }
}

/// Whether a report says of a project what its sessions `own` hold: how many they are, their messages
/// on both sides, the first and the last of their timestamps, how often each tool was used, and the
/// different files by name.
pub open spec fn tells_of(p: ProjectView, own: Seq<SessionView>) -> bool {
    &&& p.session_count == own.len()
    &&& p.message_count == lists::sum_by(own, |s: SessionView| s.prompts.len()) + lists::sum_by(
        own,
        |s: SessionView| lists::sum_by(s.turns, |t: TurnView| t.message_count),
    )
    &&& session::is_range(p.time_range, |x: Seq<char>| any_has_timestamp(own, x))
    &&& tally::counts_names(
        p.tool_usage,
        lists::flat_by(
            own,
            |s: SessionView| lists::flat_by(s.turns, |t: TurnView| t.tool_uses),
        ),
    )
    &&& text::strictly_ascending(p.files_touched)
    &&& forall|file: Seq<char>| #[trigger] p.files_touched.contains(file) <==> any_worked_on(own, file)
}

proof fn project_tells_of(name: Seq<char>, own: Seq<SessionView>)
    ensures
        tells_of(project_of(name, own), own),
{
    let p = project_of(name, own);
    let focus = FocusView { context_switches: 0, longest_focus_minutes: 0, focus_blocks: 0 };
    totals_are_those_of_sessions(own, Seq::empty(), focus, Map::empty());
    reports_cover_all_timestamps(own, Seq::empty(), focus, Map::empty());
    lists::sum_by_of_sum(
        own,
        |s: SessionView| s.prompts.len(),
        |s: SessionView| session::turn_messages(s.turns),
        |s: SessionView| s.prompts.len() + session::turn_messages(s.turns),
    );
    text::sorted_distinct_is_strict(all_files(own));
    assert forall|file: Seq<char>| #[trigger] p.files_touched.contains(file) <==> any_worked_on(
        own,
        file,
    ) by {
        assert(p.files_touched.contains(file) <==> all_files(own).contains(file));
        all_files_members(own, file);
    }
}

/// Each project that a session belongs to is listed once, and tells of the sessions that have it for
/// their project and of no others.
pub proof fn projects_tell_of_their_sessions(sessions: Seq<SessionView>)
    ensures
        forall|i: int|
            0 <= i < projects_of(sessions).len() ==> tells_of(
                #[trigger] projects_of(sessions)[i],
                sessions.filter(|s: SessionView| s.project == projects_of(sessions)[i].name),
            ) && projects_of(sessions)[i].session_count > 0,
        forall|i: int, j: int|
            0 <= i < projects_of(sessions).len() && 0 <= j < projects_of(sessions).len() && i != j
                ==> (#[trigger] projects_of(sessions)[i]).name != (
            #[trigger] projects_of(sessions)[j]).name,
        forall|k: int|
            0 <= k < sessions.len() ==> exists|i: int|
                0 <= i < projects_of(sessions).len() && (#[trigger] projects_of(sessions)[i]).name
                    == (#[trigger] sessions[k]).project,
{
    let all = projects_of(sessions);
    let names = tally::distinct(project_names(sessions));
    let make = |name: Seq<char>| project_of(name, of_project(sessions, name));
    let leq = order::order_of::<ProjectStat, ByMessages>();
    let made = names.map_values(make);
    assert forall|i: int| 0 <= i < all.len() implies tells_of(
        #[trigger] all[i],
        sessions.filter(|s: SessionView| s.project == all[i].name),
    ) && all[i].session_count > 0 by {
        let p = all[i];
        assert(all.contains(p));
        projects_are_those_of_sessions(sessions, p);
        project_tells_of(p.name, of_project(sessions, p.name));
        lists::filter_same(
            sessions,
            in_project(p.name),
            |s: SessionView| s.project == all[i].name,
        );
        let k = choose|k: int|
            0 <= k < project_names(sessions).len() && project_names(sessions)[k] == p.name;
        lists::filter_members(sessions, in_project(p.name), sessions[k]);
        assert(of_project(sessions, p.name).contains(sessions[k]));
    }
    tally::distinct_unique(project_names(sessions));
    order::sorted_keeps_items(made, leq);
    assert forall|i: int, j: int| 0 <= i < all.len() && 0 <= j < all.len() && i != j implies (
    #[trigger] all[i]).name != (#[trigger] all[j]).name by {
        names_of_sorted_differ(made, all, i, j);
    }
    assert forall|k: int| 0 <= k < sessions.len() implies exists|i: int|
        0 <= i < all.len() && (#[trigger] all[i]).name == (#[trigger] sessions[k]).project by {
        let name = sessions[k].project;
        assert(project_names(sessions)[k] == name);
        let p = project_of(name, of_project(sessions, name));
        projects_are_those_of_sessions(sessions, p);
        let i = choose|i: int| 0 <= i < all.len() && all[i] == p;
        assert(all[i].name == name);
    }
}

proof fn names_of_sorted_differ(made: Seq<ProjectView>, all: Seq<ProjectView>, i: int, j: int)
    requires
        all.to_multiset() == made.to_multiset(),
        forall|a: int, b: int|
            0 <= a < made.len() && 0 <= b < made.len() && a != b ==> (#[trigger] made[a]).name != (
            #[trigger] made[b]).name,
        0 <= i < all.len(),
        0 <= j < all.len(),
        i != j,
    ensures
        all[i].name != all[j].name,
{
    broadcast use vstd::seq_lib::group_to_multiset_ensures;

    assert(all.contains(all[i]) && all.contains(all[j]));
    assert(all.to_multiset().count(all[i]) > 0 && all.to_multiset().count(all[j]) > 0);
    assert(made.contains(all[i]) && made.contains(all[j]));
    let a = choose|a: int| 0 <= a < made.len() && made[a] == all[i];
    let b = choose|b: int| 0 <= b < made.len() && made[b] == all[j];
    if all[i].name == all[j].name {
        assert(a == b);
        let x = all[i];
        assert(made.to_multiset().count(x) == tally::occurrences(made, x)) by {
            tally::occurrences_are_counts(made, x);
        }
        tally::occurrences_are_counts(all, x);
        occurs_twice(all, i, j);
        occurs_once(made, a);
    }
}

proof fn occurs_twice(s: Seq<ProjectView>, i: int, j: int)
    requires
        0 <= i < s.len(),
        0 <= j < s.len(),
        i != j,
        s[i] == s[j],
    ensures
        tally::occurrences(s, s[i]) >= 2,
    decreases s.len(),
{
    let n = s.len() - 1;
    let front = s.drop_last();
    if i < n && j < n {
        occurs_twice(front, i, j);
    } else {
        let k = if i < n {
            i
        } else {
            j
        };
        assert(front[k] == s[i]);
        assert(front.contains(s[i]));
        tally::occurrences_zero(front, s[i]);
    }
}

proof fn occurs_once(s: Seq<ProjectView>, a: int)
    requires
        0 <= a < s.len(),
        forall|b: int, c: int|
            0 <= b < s.len() && 0 <= c < s.len() && b != c ==> (#[trigger] s[b]).name != (
            #[trigger] s[c]).name,
    ensures
        tally::occurrences(s, s[a]) == 1,
    decreases s.len(),
{
    let n = s.len() - 1;
    let front = s.drop_last();
    assert forall|b: int, c: int| 0 <= b < front.len() && 0 <= c < front.len() && b != c implies (
    #[trigger] front[b]).name != (#[trigger] front[c]).name by {
        assert(front[b] == s[b] && front[c] == s[c]);
    }
    if a < n {
        occurs_once(front, a);
        assert(s[a].name != s[n].name);
    } else {
        tally::occurrences_zero(front, s[a]);
        if front.contains(s[a]) {
            let b = choose|b: int| 0 <= b < front.len() && front[b] == s[a];
            assert(s[b].name != s[a].name);
        }
    }
}

/// Each project in which something was decided is listed once with the number of its decisions, the
/// greatest number first and equal ones by name.
pub proof fn decisions_are_counted_by_project(decisions: Seq<DecisionView>)
    ensures
        forall|i: int|
            0 <= i < decision_counts(decisions).len() ==> (
            #[trigger] decision_counts(decisions)[i]).1 > 0 && decision_counts(decisions)[i].1
                == decisions_of_project(decisions, decision_counts(decisions)[i].0),
        forall|k: int|
            0 <= k < decisions.len() ==> exists|i: int|
                0 <= i < decision_counts(decisions).len() && (
                #[trigger] decision_counts(decisions)[i]).0 == (#[trigger] decisions[k]).project,
        forall|i: int, j: int|
            0 <= i < j < decision_counts(decisions).len() ==> {
                let a = #[trigger] decision_counts(decisions)[i];
                let b = #[trigger] decision_counts(decisions)[j];
                a.1 > b.1 || (a.1 == b.1 && text::text_leq(a.0, b.0))
            },
        lists::sum_by(decision_counts(decisions), |e: (Seq<char>, nat)| e.1) == decisions.len(),
{
    let names = decision_projects(decisions);
    let table = tally::tally(names);
    let counts = decision_counts(decisions);
    let leq = order::order_of::<DecisionsByProject, ByDecisions>();
    tally::tally_counts_names(names);
    tally::tally_adds_up(names);
    order::sum_of_sorted(table, leq, |e: (Seq<char>, nat)| e.1);
    order::sorted_is_ascending::<DecisionsByProject, ByDecisions>(table);
    assert forall|i: int| 0 <= i < counts.len() implies (#[trigger] counts[i]).1 > 0 && counts[i].1
        == decisions_of_project(decisions, counts[i].0) by {
        assert(counts.contains(counts[i]));
        order::sorted_contains(table, leq, counts[i]);
        let k = choose|k: int| 0 <= k < table.len() && table[k] == counts[i];
        assert(table[k].1 == tally::times_in(names, table[k].0));
        decisions_of_one(decisions, counts[i].0);
        tally::occurrences_are_places(names, counts[i].0);
    }
    assert forall|k: int| 0 <= k < decisions.len() implies exists|i: int|
        0 <= i < counts.len() && (#[trigger] counts[i]).0 == (#[trigger] decisions[k]).project by {
        assert(names[k] == decisions[k].project);
        let j = choose|j: int| 0 <= j < table.len() && (#[trigger] table[j]).0 == names[k];
        assert(table.contains(table[j]));
        order::sorted_contains(table, leq, table[j]);
        let i = choose|i: int| 0 <= i < counts.len() && counts[i] == table[j];
        assert(counts[i].0 == decisions[k].project);
    }
    assert forall|i: int, j: int| 0 <= i < j < counts.len() implies {
        let a = #[trigger] counts[i];
        let b = #[trigger] counts[j];
        a.1 > b.1 || (a.1 == b.1 && text::text_leq(a.0, b.0))
    } by {
        assert(leq(counts[i], counts[j]));
    }
}

/// How many of the decisions were made in this project.
pub open spec fn decisions_of_project(decisions: Seq<DecisionView>, name: Seq<char>) -> nat {
    decisions.filter(|d: DecisionView| d.project == name).len()
}

proof fn decisions_of_one(decisions: Seq<DecisionView>, name: Seq<char>)
    ensures
        tally::occurrences(decision_projects(decisions), name) == decisions_of_project(
            decisions,
            name,
        ),
    decreases decisions.len(),
{
    reveal(Seq::filter);
    if decisions.len() > 0 {
        decisions_of_one(decisions.drop_last(), name);
        assert(decision_projects(decisions).drop_last() =~= decision_projects(
            decisions.drop_last(),
        ));
    }
}

/// How many messages of both sides the sessions of a project hold.
pub open spec fn messages_of_project(sessions: Seq<SessionView>, name: Seq<char>) -> nat {
    let own = sessions.filter(|s: SessionView| s.project == name);
    lists::sum_by(own, |s: SessionView| s.prompts.len()) + lists::sum_by(
        own,
        |s: SessionView| lists::sum_by(s.turns, |t: TurnView| t.message_count),
    )
}

/// The messages of a project are those of the sessions that have it for theirs.
pub proof fn messages_are_those_of_project(sessions: Seq<SessionView>, name: Seq<char>)
    ensures
        messages_of_project(sessions, name) == all_messages(of_project(sessions, name)),
{
    let own = of_project(sessions, name);
    lists::filter_same(sessions, in_project(name), |s: SessionView| s.project == name);
    project_tells_of(name, own);
}

/// The tools of sessions are those of their turns, in order.
pub proof fn tools_are_those_of_turns(sessions: Seq<SessionView>)
    ensures
        all_tools(sessions) == lists::flat_by(
            sessions,
            |s: SessionView| lists::flat_by(s.turns, |t: TurnView| t.tool_uses),
        ),
{
    same_flat(
        sessions,
        |s: SessionView| session::turn_tools(s.turns),
        |s: SessionView| lists::flat_by(s.turns, |t: TurnView| t.tool_uses),
    );
}

/// There are as many prompts as are counted, and as many bytes in them as are measured.
pub proof fn prompts_are_those_counted(sessions: Seq<SessionView>)
    ensures
        all_prompts(sessions).len() == user_messages(sessions),
        prompt_bytes(all_prompts(sessions)) == lists::sum_by(
            all_prompts(sessions),
            |p: PromptView| vstd::utf8::encode_utf8(p.text).len(),
        ),
{
    all_prompts_len(sessions);
    same_bytes(all_prompts(sessions));
}

} // verus!
