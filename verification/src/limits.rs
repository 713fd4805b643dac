//! Whether the totals of a report can be represented.

use crate::lists;
use crate::session;
use crate::session::{
    append_texts, ParsedAssistantEntry, ParsedUserEntry, PromptView, RawSession, SessionView,
    TurnView,
};
use crate::stats;
use crate::stats::list_projects;
use crate::tally;
use crate::tally::{count_name, distinct_names};
use crate::text;
use crate::text::{len_in_bytes, same_text};
use vstd::prelude::*;

verus! {

/// Whether a report can be made of the sessions: their totals can be represented, and so can the
/// number of prompts in one hour, whichever hours those are.
pub open spec fn reportable(sessions: Seq<SessionView>) -> bool {
    stats::totals_fit(sessions) && stats::user_messages(sessions) <= u32::MAX
}

/// Whether `sum` is `total`, or missing because `total` cannot be represented.
pub open spec fn is_sum(sum: Option<u64>, total: nat) -> bool {
    match sum {
        Some(n) => n == total,
        None => total > u64::MAX,
    }
}

/// What the messages and the tokens of turns add up to.
struct TurnSums {
    messages: Option<u64>,
    input: Option<u64>,
    output: Option<u64>,
}

/// Adds `n` to a sum.
fn plus(sum: Option<u64>, n: u64, Ghost(total): Ghost<nat>) -> (more: Option<u64>)
    requires
        is_sum(sum, total),
    ensures
        is_sum(more, total + n as nat),
{
    match sum {
        Some(m) => m.checked_add(n),
        None => None,
    }
}

/// Adds the messages and the tokens of the turns to the sums over earlier ones.
fn add_turns(
    sums: TurnSums,
    entries: &Vec<ParsedAssistantEntry>,
    Ghost(totals): Ghost<(nat, nat, nat)>,
) -> (more: TurnSums)
    requires
        is_sum(sums.messages, totals.0),
        is_sum(sums.input, totals.1),
        is_sum(sums.output, totals.2),
    ensures
        is_sum(more.messages, totals.0 + session::turn_messages(entries.deep_view())),
        is_sum(more.input, totals.1 + session::turn_input(entries.deep_view())),
        is_sum(more.output, totals.2 + session::turn_output(entries.deep_view())),
{
    let ghost turns = entries.deep_view();
    let ghost f = |t: TurnView| t.message_count;
    let ghost g = |t: TurnView| t.input_tokens;
    let ghost h = |t: TurnView| t.output_tokens;
    let mut messages: Option<u64> = sums.messages;
    let mut input: Option<u64> = sums.input;
    let mut output: Option<u64> = sums.output;
    let mut i: usize = 0;
    while i < entries.len()
        invariant
            i <= entries.len(),
            turns == entries.deep_view(),
            f == (|t: TurnView| t.message_count),
            g == (|t: TurnView| t.input_tokens),
            h == (|t: TurnView| t.output_tokens),
            is_sum(messages, totals.0 + session::turn_messages(turns.take(i as int))),
            is_sum(input, totals.1 + session::turn_input(turns.take(i as int))),
            is_sum(output, totals.2 + session::turn_output(turns.take(i as int))),
        decreases entries.len() - i,
    {
        let entry = &entries[i];
        let ghost so_far = turns.take(i as int);
        proof {
            assert(turns[i as int] == entry.deep_view());
            lists::sum_by_step(turns, i as int, f);
            lists::sum_by_step(turns, i as int, g);
            lists::sum_by_step(turns, i as int, h);
        }
        messages =
        plus(
            messages,
            entry.message_count as u64,
            Ghost(totals.0 + session::turn_messages(so_far)),
        );
        input = plus(input, entry.input_tokens, Ghost(totals.1 + session::turn_input(so_far)));
        output = plus(output, entry.output_tokens, Ghost(totals.2 + session::turn_output(so_far)));
        i = i + 1;
    }
    assert(turns.take(i as int) =~= turns);
    TurnSums { messages, input, output }
}

/// Adds up the messages and the tokens of the assistant.
fn sum_turns(sessions: &Vec<RawSession>) -> (sums: TurnSums)
    ensures
        is_sum(sums.messages, stats::assistant_messages(sessions.deep_view())),
        is_sum(sums.input, stats::all_input(sessions.deep_view())),
        is_sum(sums.output, stats::all_output(sessions.deep_view())),
{
    let ghost all = sessions.deep_view();
    let ghost f = |s: SessionView| session::turn_messages(s.turns);
    let ghost g = |s: SessionView| session::turn_input(s.turns);
    let ghost h = |s: SessionView| session::turn_output(s.turns);
    let mut sums = TurnSums { messages: Some(0), input: Some(0), output: Some(0) };
    let mut i: usize = 0;
    while i < sessions.len()
        invariant
            i <= sessions.len(),
            all == sessions.deep_view(),
            f == (|s: SessionView| session::turn_messages(s.turns)),
            g == (|s: SessionView| session::turn_input(s.turns)),
            h == (|s: SessionView| session::turn_output(s.turns)),
            is_sum(sums.messages, stats::assistant_messages(all.take(i as int))),
            is_sum(sums.input, stats::all_input(all.take(i as int))),
            is_sum(sums.output, stats::all_output(all.take(i as int))),
        decreases sessions.len() - i,
    {
        let ghost so_far = all.take(i as int);
        proof {
            assert(all[i as int] == sessions[i as int].deep_view());
            lists::sum_by_step(all, i as int, f);
            lists::sum_by_step(all, i as int, g);
            lists::sum_by_step(all, i as int, h);
        }
        sums =
        add_turns(
            sums,
            &sessions[i].assistant_entries,
            Ghost(
                (
                    stats::assistant_messages(so_far),
                    stats::all_input(so_far),
                    stats::all_output(so_far),
                ),
            ),
        );
        i = i + 1;
    }
    assert(all.take(i as int) =~= all);
    sums
}

/// Adds the bytes of the prompts to the sum over earlier ones.
fn add_prompt_bytes(
    sum: Option<u64>,
    entries: &Vec<ParsedUserEntry>,
    Ghost(total): Ghost<nat>,
) -> (more: Option<u64>)
    requires
        is_sum(sum, total),
    ensures
        is_sum(more, total + stats::prompt_bytes(entries.deep_view())),
{
    let ghost prompts = entries.deep_view();
    let ghost f = |p: PromptView| text::byte_len(p.text);
    let mut more: Option<u64> = sum;
    let mut i: usize = 0;
    while i < entries.len()
        invariant
            i <= entries.len(),
            prompts == entries.deep_view(),
            f == (|p: PromptView| text::byte_len(p.text)),
            is_sum(more, total + stats::prompt_bytes(prompts.take(i as int))),
        decreases entries.len() - i,
    {
        let length: usize = len_in_bytes(entries[i].text.as_str());
        proof {
            assert(prompts[i as int] == entries[i as int].deep_view());
            lists::sum_by_step(prompts, i as int, f);
        }
        more =
        plus(
            more,
            length as u64,
            Ghost(total + stats::prompt_bytes(prompts.take(i as int))),
        );
        i = i + 1;
    }
    assert(prompts.take(i as int) =~= prompts);
    more
}

/// Adds up the prompts and their bytes.
fn sum_prompts(sessions: &Vec<RawSession>) -> (sums: (Option<u64>, Option<u64>))
    ensures
        is_sum(sums.0, stats::user_messages(sessions.deep_view())),
        is_sum(sums.1, stats::prompt_bytes(stats::all_prompts(sessions.deep_view()))),
{
    let ghost all = sessions.deep_view();
    let ghost f = |s: SessionView| s.prompts.len();
    let ghost prompts = |s: SessionView| s.prompts;
    let ghost bytes = |p: PromptView| text::byte_len(p.text);
    let ghost g = |s: SessionView| lists::sum_by(prompts(s), bytes);
    let mut count: Option<u64> = Some(0);
    let mut length: Option<u64> = Some(0);
    let mut i: usize = 0;
    while i < sessions.len()
        invariant
            i <= sessions.len(),
            all == sessions.deep_view(),
            f == (|s: SessionView| s.prompts.len()),
            prompts == (|s: SessionView| s.prompts),
            bytes == (|p: PromptView| text::byte_len(p.text)),
            g == (|s: SessionView| lists::sum_by(prompts(s), bytes)),
            is_sum(count, stats::user_messages(all.take(i as int))),
            is_sum(length, lists::sum_by(all.take(i as int), g)),
        decreases sessions.len() - i,
    {
        let ghost so_far = all.take(i as int);
        let session = &sessions[i];
        proof {
            assert(all[i as int] == session.deep_view());
            lists::sum_by_step(all, i as int, f);
            lists::sum_by_step(all, i as int, g);
        }
        count =
        plus(count, session.user_entries.len() as u64, Ghost(stats::user_messages(so_far)));
        length =
        add_prompt_bytes(length, &session.user_entries, Ghost(lists::sum_by(so_far, g)));
        i = i + 1;
    }
    proof {
        assert(all.take(i as int) =~= all);
        lists::flat_by_sum(all, prompts, bytes);
    }
    (count, length)
}

/// Adds up the messages of both sides in the project `name`.
fn sum_project(sessions: &Vec<RawSession>, name: &str) -> (sum: Option<u64>)
    ensures
        is_sum(sum, stats::all_messages(stats::of_project(sessions.deep_view(), name@))),
{
    let ghost all = sessions.deep_view();
    let ghost p = stats::in_project(name@);
    let mut sum: Option<u64> = Some(0);
    let mut i: usize = 0;
    proof {
        reveal(Seq::filter);
        assert(all.take(0).filter(p) =~= Seq::empty());
    }
    while i < sessions.len()
        invariant
            i <= sessions.len(),
            all == sessions.deep_view(),
            p == stats::in_project(name@),
            is_sum(sum, stats::all_messages(all.take(i as int).filter(p))),
        decreases sessions.len() - i,
    {
        let session = &sessions[i];
        let ghost own = all.take(i as int).filter(p);
        proof {
            assert(all[i as int] == session.deep_view());
            lists::filter_step(all, i as int, p);
            assert(own.push(session.deep_view()).drop_last() =~= own);
        }
        if same_text(session.project.as_str(), name) {
            let ghost total = stats::all_messages(own);
            let prompts: u64 = session.user_entries.len() as u64;
            let sums: TurnSums = add_turns(
                TurnSums { messages: plus(sum, prompts, Ghost(total)), input: Some(0), output: Some(0) },
                &session.assistant_entries,
                Ghost((total + prompts as nat, 0, 0)),
            );
            sum = sums.messages;
        }
        i = i + 1;
    }
    assert(all.take(i as int) =~= all);
    sum
}

/// The tools that the sessions used, in order.
fn gather_tools(sessions: &Vec<RawSession>) -> (tools: Vec<String>)
    ensures
        tools.deep_view() == stats::all_tools(sessions.deep_view()),
{
    let ghost all = sessions.deep_view();
    let ghost f = |s: SessionView| session::turn_tools(s.turns);
    let ghost g = |t: TurnView| t.tool_uses;
    let mut tools: Vec<String> = Vec::new();
    let mut i: usize = 0;
    assert(tools.deep_view() =~= stats::all_tools(all.take(0)));
    while i < sessions.len()
        invariant
            i <= sessions.len(),
            all == sessions.deep_view(),
            f == (|s: SessionView| session::turn_tools(s.turns)),
            g == (|t: TurnView| t.tool_uses),
            tools.deep_view() == stats::all_tools(all.take(i as int)),
        decreases sessions.len() - i,
    {
        let entries: &Vec<ParsedAssistantEntry> = &sessions[i].assistant_entries;
        let ghost turns = entries.deep_view();
        let ghost start = tools.deep_view();
        let mut j: usize = 0;
        assert(tools.deep_view() =~= start + session::turn_tools(turns.take(0)));
        while j < entries.len()
            invariant
                j <= entries.len(),
                turns == entries.deep_view(),
                g == (|t: TurnView| t.tool_uses),
                tools.deep_view() == start + session::turn_tools(turns.take(j as int)),
            decreases entries.len() - j,
        {
            proof {
                lists::flat_by_step(turns, j as int, g);
                assert(turns[j as int].tool_uses == entries[j as int].tool_uses.deep_view());
                assert(start + session::turn_tools(turns.take(j as int)) + turns[j as int].tool_uses
                    =~= start + session::turn_tools(turns.take(j + 1)));
            }
            append_texts(&mut tools, &entries[j].tool_uses);
            j = j + 1;
        }
        proof {
            assert(turns.take(j as int) =~= turns);
            assert(all[i as int] == sessions[i as int].deep_view());
            lists::flat_by_step(all, i as int, f);
        }
        i = i + 1;
    }
    assert(all.take(i as int) =~= all);
    tools
}

/// Whether no name occurs more often than a count can hold.
fn is_countable(names: &Vec<String>) -> (answer: bool)
    ensures
        answer == tally::countable(names.deep_view()),
{
    let ghost all = names.deep_view();
    if names.len() as u64 <= u32::MAX as u64 {
        proof {
            assert forall|name: Seq<char>| #[trigger] tally::occurrences(all, name) <= u32::MAX by {
                tally::occurrences_at_most_len(all, name);
            }
        }
        return true;
    }
    let mut i: usize = 0;
    while i < names.len()
        invariant
            i <= names.len(),
            all == names.deep_view(),
            forall|k: int| 0 <= k < i ==> tally::occurrences(all, #[trigger] all[k]) <= u32::MAX,
        decreases names.len() - i,
    {
        assert(all[i as int] == names[i as int]@);
        if count_name(names, names[i].as_str()) as u64 > u32::MAX as u64 {
            return false;
        }
        i = i + 1;
    }
    proof {
        assert forall|name: Seq<char>| #[trigger] tally::occurrences(all, name) <= u32::MAX by {
            tally::occurrences_zero(all, name);
            if all.contains(name) {
                let k = choose|k: int| 0 <= k < all.len() && all[k] == name;
                assert(tally::occurrences(all, all[k]) <= u32::MAX);
            }
        }
    }
    true
}

/// Whether the sum is there and a `usize` holds it.
fn fits_usize(sum: Option<u64>, Ghost(total): Ghost<nat>) -> (answer: bool)
    requires
        is_sum(sum, total),
    ensures
        answer == (total <= usize::MAX),
{
    match sum {
        Some(n) => n <= usize::MAX as u64,
        None => false,
    }
}

/// Whether the messages of each project can be represented.
fn projects_fit(sessions: &Vec<RawSession>) -> (answer: bool)
    ensures
        answer == forall|name: Seq<char>|
            stats::all_messages(#[trigger] stats::of_project(sessions.deep_view(), name))
                <= usize::MAX,
{
    let ghost all = sessions.deep_view();
    let names: Vec<String> = distinct_names(&list_projects(sessions));
    let ghost given = names.deep_view();
    let mut i: usize = 0;
    while i < names.len()
        invariant
            i <= names.len(),
            all == sessions.deep_view(),
            given == names.deep_view(),
            forall|k: int|
                0 <= k < i ==> stats::all_messages(
                    stats::of_project(all, #[trigger] given[k]),
                ) <= usize::MAX,
        decreases names.len() - i,
    {
        let name: &str = names[i].as_str();
        let ghost total = stats::all_messages(stats::of_project(all, name@));
        assert(given[i as int] == name@);
        if !fits_usize(sum_project(sessions, name), Ghost(total)) {
            return false;
        }
        i = i + 1;
    }
    proof {
        assert forall|name: Seq<char>|
            stats::all_messages(#[trigger] stats::of_project(all, name)) <= usize::MAX by {
            let own = stats::of_project(all, name);
            if given.contains(name) {
                let k = choose|k: int| 0 <= k < given.len() && given[k] == name;
                assert(stats::all_messages(stats::of_project(all, given[k])) <= usize::MAX);
            } else if own.len() > 0 {
                let x = own[0];
                assert(own.contains(x));
                lists::filter_members(all, stats::in_project(name), x);
                let k = choose|k: int| 0 <= k < all.len() && all[k] == x;
                assert(stats::project_names(all)[k] == name);
                tally::distinct_members(stats::project_names(all), name);
            }
        }
    }
    true
}

/// Whether a report can be made of `sessions`.
pub fn is_reportable(sessions: &Vec<RawSession>) -> (answer: bool)
    ensures
        answer == reportable(sessions.deep_view()),
{
    let ghost all = sessions.deep_view();
    let turns: TurnSums = sum_turns(sessions);
    let (prompts, bytes): (Option<u64>, Option<u64>) = sum_prompts(sessions);
    let tools: Vec<String> = gather_tools(sessions);
    assert(stats::all_tools(all).len() == tools.len());
    let few_prompts: bool = match prompts {
        Some(n) => n <= u32::MAX as u64,
        None => false,
    };
    few_prompts && fits_usize(turns.messages, Ghost(stats::assistant_messages(all)))
        && turns.input.is_some() && turns.output.is_some() && fits_usize(
        bytes,
        Ghost(stats::prompt_bytes(stats::all_prompts(all))),
    ) && is_countable(&tools) && projects_fit(sessions)
}

/// Whether no total of the sessions is too great: prompts, messages of the assistant, tokens on either
/// side, bytes of the prompts, uses of tools, uses of each single tool, and messages of each project.
pub open spec fn can_be_counted(sessions: Seq<SessionView>) -> bool {
    let prompts = lists::flat_by(sessions, |s: SessionView| s.prompts);
    let tools = lists::flat_by(
        sessions,
        |s: SessionView| lists::flat_by(s.turns, |t: TurnView| t.tool_uses),
    );
    &&& prompts.len() <= usize::MAX
    &&& prompts.len() <= u32::MAX
    &&& lists::sum_by(
        sessions,
        |s: SessionView| lists::sum_by(s.turns, |t: TurnView| t.message_count),
    ) <= usize::MAX
    &&& lists::sum_by(
        sessions,
        |s: SessionView| lists::sum_by(s.turns, |t: TurnView| t.input_tokens),
    ) <= u64::MAX
    &&& lists::sum_by(
        sessions,
        |s: SessionView| lists::sum_by(s.turns, |t: TurnView| t.output_tokens),
    ) <= u64::MAX
    &&& lists::sum_by(prompts, |p: PromptView| vstd::utf8::encode_utf8(p.text).len()) <= usize::MAX
    &&& tools.len() <= usize::MAX
    &&& forall|name: Seq<char>| #[trigger] tally::times_in(tools, name) <= u32::MAX
    &&& forall|name: Seq<char>| #[trigger]
        stats::messages_of_project(sessions, name) <= usize::MAX
}

/// A report can be made exactly where no total is too great.
pub proof fn reports_can_be_made_of_what_can_be_counted(sessions: Seq<SessionView>)
    ensures
        reportable(sessions) <==> can_be_counted(sessions),
{
    let focus = crate::focus::FocusView {
        context_switches: 0,
        longest_focus_minutes: 0,
        focus_blocks: 0,
    };
    let tools = stats::all_tools(sessions);
    stats::totals_are_those_of_sessions(sessions, Seq::empty(), focus, Map::empty());
    stats::prompts_are_those_counted(sessions);
    stats::tools_are_those_of_turns(sessions);
    assert forall|name: Seq<char>| tally::times_in(tools, name) == #[trigger] tally::occurrences(
        tools,
        name,
    ) by {
        tally::occurrences_are_places(tools, name);
    }
    assert forall|name: Seq<char>| #[trigger] stats::messages_of_project(sessions, name)
        == stats::all_messages(stats::of_project(sessions, name)) by {
        stats::messages_are_those_of_project(sessions, name);
    }
    if reportable(sessions) {
        assert forall|name: Seq<char>| #[trigger] tally::times_in(tools, name) <= u32::MAX by {
            assert(tally::occurrences(tools, name) <= u32::MAX);
        }
        assert forall|name: Seq<char>| #[trigger]
            stats::messages_of_project(sessions, name) <= usize::MAX by {
            assert(stats::all_messages(stats::of_project(sessions, name)) <= usize::MAX);
        }
    }
    if forall|name: Seq<char>| #[trigger] tally::times_in(tools, name) <= u32::MAX {
        assert forall|name: Seq<char>| #[trigger] tally::occurrences(tools, name) <= u32::MAX by {
            assert(tally::times_in(tools, name) <= u32::MAX);
        }
    }
    if forall|name: Seq<char>| #[trigger]
        stats::messages_of_project(sessions, name) <= usize::MAX {
        assert forall|name: Seq<char>|
            stats::all_messages(#[trigger] stats::of_project(sessions, name)) <= usize::MAX by {
            assert(stats::messages_of_project(sessions, name) <= usize::MAX);
        }
    }
}

} // verus!
