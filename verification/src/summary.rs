//! The output of a collection run as text for a reader.

use crate::decisions::{DecisionPoint, DecisionView};
use crate::lists;
use crate::order;
use crate::output::{CollectorOutput, MetaView, OutputView, SourceMeta, SourceView};
use crate::stats::{AggregateStats, ProjectStat, ProjectView, StatsView};
use crate::tally;
use crate::tally::{rank, Count};
use crate::text;
use crate::text::{
    decimal_text, join, pad_left, pad_right, signed_decimal_text, take_chars,
};
use vstd::prelude::*;
use vstd::string::*;

verus! {

// ---------------------------------------------------------------------------
// Source
// ---------------------------------------------------------------------------

/// The source that was asked for, and those that were read.
pub open spec fn source_line(source: SourceView) -> Seq<char> {
    "requested "@ + source.requested + " | resolved "@ + if source.resolved.len() == 0 {
        "なし"@
    } else {
        text::joined(source.resolved, ", "@)
    }
}

/// Writes the source that was asked for, and those that were read.
pub fn format_source_line(source: &SourceMeta) -> (line: String)
    ensures
        line@ == source_line(source.deep_view()),
{
    let resolved: String = if source.resolved.len() == 0 {
        "なし".to_owned()
    } else {
        join(&source.resolved, ", ")
    };
    let mut line: String = "requested ".to_owned();
    line.append(source.requested.as_str());
    line.append(" | resolved ");
    line.append(resolved.as_str());
    line
}

// ---------------------------------------------------------------------------
// Without sessions
// ---------------------------------------------------------------------------

/// What is said where there is no session.
pub open spec fn empty_summary(meta: MetaView) -> Seq<char> {
    "指定期間（"@ + meta.filter_label + "）にセッションデータが見つかりませんでした。\n"@ + "ソース: "@
        + source_line(meta.source) + "\n"@ + "\n"@ + "ヒント:\n"@
        + "  - 期間を広げてみてください: --days 7 や --days 30\n"@
        + "  - プロジェクトフィルタを外してみてください（--project を省略）\n"@
        + "  - 全期間を確認: --days 0\n"@
}

/// Writes what is said where there is no session.
fn format_empty(filter_label: &str, source: &SourceMeta, Ghost(meta): Ghost<MetaView>) -> (text: String)
    requires
        meta.filter_label == filter_label@,
        meta.source == source.deep_view(),
    ensures
        text@ == empty_summary(meta),
{
    let mut text: String = "指定期間（".to_owned();
    text.append(filter_label);
    text.append("）にセッションデータが見つかりませんでした。\n");
    text.append("ソース: ");
    text.append(format_source_line(source).as_str());
    text.append("\n");
    text.append("\n");
    text.append("ヒント:\n");
    text.append("  - 期間を広げてみてください: --days 7 や --days 30\n");
    text.append("  - プロジェクトフィルタを外してみてください（--project を省略）\n");
    text.append("  - 全期間を確認: --days 0\n");
    text
}

// ---------------------------------------------------------------------------
// Totals
// ---------------------------------------------------------------------------

/// The first lines: source, period, messages, tokens and focus.
pub open spec fn totals_text(output: OutputView) -> Seq<char> {
    let meta = output.meta;
    let stats = output.stats;
    "ソース: "@ + source_line(meta.source) + "\n"@ + "期間: "@ + meta.filter_label
        + " | セッション: "@ + text::decimal(meta.total_sessions) + " | プロジェクト: "@ + text::decimal(
        stats.projects_worked_on.len(),
    ) + " | 意思決定: "@ + text::decimal(output.decisions.len()) + "\n"@ + "メッセージ: user "@
        + text::decimal(stats.total_user_messages) + " / assistant "@ + text::decimal(
        stats.total_assistant_messages,
    ) + " | ツール使用: "@ + text::decimal(stats.total_tool_uses) + "\n"@ + "トークン: input "@
        + text::decimal(stats.total_input_tokens) + " / output "@ + text::decimal(
        stats.total_output_tokens,
    ) + "\n"@ + "集中: "@ + text::decimal(stats.focus.focus_blocks) + " ブロック | 最長: "@
        + text::signed_decimal(stats.focus.longest_focus_minutes) + " 分 | プロジェクト切替: "@
        + text::decimal(stats.focus.context_switches) + " 回\n"@
}

/// Writes the first lines.
fn format_totals(output: &CollectorOutput) -> (text: String)
    ensures
        text@ == totals_text(output.deep_view()),
{
    let stats = &output.stats;
    let mut text: String = "ソース: ".to_owned();
    text.append(format_source_line(&output.meta.source).as_str());
    text.append("\n");
    text.append("期間: ");
    text.append(output.meta.filter_label.as_str());
    text.append(" | セッション: ");
    text.append(decimal_text(output.meta.total_sessions as u64).as_str());
    text.append(" | プロジェクト: ");
    text.append(decimal_text(stats.projects_worked_on.len() as u64).as_str());
    text.append(" | 意思決定: ");
    text.append(decimal_text(output.decisions.len() as u64).as_str());
    text.append("\n");
    text.append("メッセージ: user ");
    text.append(decimal_text(stats.total_user_messages as u64).as_str());
    text.append(" / assistant ");
    text.append(decimal_text(stats.total_assistant_messages as u64).as_str());
    text.append(" | ツール使用: ");
    text.append(decimal_text(stats.total_tool_uses as u64).as_str());
    text.append("\n");
    text.append("トークン: input ");
    text.append(decimal_text(stats.total_input_tokens).as_str());
    text.append(" / output ");
    text.append(decimal_text(stats.total_output_tokens).as_str());
    text.append("\n");
    text.append("集中: ");
    text.append(decimal_text(stats.focus.focus_blocks as u64).as_str());
    text.append(" ブロック | 最長: ");
    text.append(signed_decimal_text(stats.focus.longest_focus_minutes).as_str());
    text.append(" 分 | プロジェクト切替: ");
    text.append(decimal_text(stats.focus.context_switches as u64).as_str());
    text.append(" 回\n");
    text
}

// ---------------------------------------------------------------------------
// Projects
// ---------------------------------------------------------------------------

/// The line of a project.
pub open spec fn project_line(p: ProjectView) -> Seq<char> {
    "  "@ + text::padded_right(p.name, 30) + " "@ + text::padded_left(
        text::decimal(p.session_count),
        3,
    ) + " セッション  "@ + text::padded_left(text::decimal(p.message_count), 6) + " メッセージ\n"@
}

/// The lines of the projects; nothing where there are none.
pub open spec fn projects_text(projects: Seq<ProjectView>) -> Seq<char> {
    if projects.len() == 0 {
        Seq::empty()
    } else {
        "\nプロジェクト:\n"@ + lists::flat_by(projects, |p: ProjectView| project_line(p))
    }
}

/// Writes the line of a project.
fn format_project(p: &ProjectStat) -> (line: String)
    ensures
        line@ == project_line(p.deep_view()),
{
    let sessions: String = decimal_text(p.session_count as u64);
    let messages: String = decimal_text(p.message_count as u64);
    let mut line: String = "  ".to_owned();
    line.append(pad_right(p.name.as_str(), 30).as_str());
    line.append(" ");
    line.append(pad_left(sessions.as_str(), 3).as_str());
    line.append(" セッション  ");
    line.append(pad_left(messages.as_str(), 6).as_str());
    line.append(" メッセージ\n");
    line
}

/// Writes the lines of the projects.
fn format_projects(projects: &Vec<ProjectStat>) -> (text: String)
    ensures
        text@ == projects_text(projects.deep_view()),
{
    let ghost all = projects.deep_view();
    let ghost f = |p: ProjectView| project_line(p);
    if projects.len() == 0 {
        return String::new();
    }
    let mut text: String = "\nプロジェクト:\n".to_owned();
    let ghost head = text@;
    let mut i: usize = 0;
    assert(text@ =~= head + lists::flat_by(all.take(0), f));
    while i < projects.len()
        invariant
            i <= projects.len(),
            all == projects.deep_view(),
            f == (|p: ProjectView| project_line(p)),
            text@ == head + lists::flat_by(all.take(i as int), f),
        decreases projects.len() - i,
    {
        proof {
            assert(all[i as int] == projects[i as int].deep_view());
            lists::flat_by_step(all, i as int, f);
            assert(head + lists::flat_by(all.take(i as int), f) + f(all[i as int]) =~= head
                + lists::flat_by(all.take(i + 1), f));
        }
        text.append(format_project(&projects[i]).as_str());
        i = i + 1;
    }
    assert(all.take(i as int) =~= all);
    text
}

// ---------------------------------------------------------------------------
// Tools
// ---------------------------------------------------------------------------

/// The tools that the summary names: the eight that were used most.
pub open spec fn shown_tools(stats: StatsView) -> Seq<(Seq<char>, nat)> {
    lists::first_items(tally::ranked(stats.tool_frequency), 8)
}

/// Lists the tools that the summary names, the most used first.
pub fn summary_tools(stats: &AggregateStats) -> (tools: Vec<Count>)
    ensures
        tools.deep_view() == shown_tools(stats.deep_view()),
{
    let ranked: Vec<Count> = rank(&stats.tool_frequency);
    let ghost all = ranked.deep_view();
    let mut tools: Vec<Count> = Vec::new();
    for tool in it: ranked
        invariant
            it.seq().len() == all.len(),
            forall|k: int| 0 <= k < all.len() ==> all[k] == (#[trigger] it.seq()[k]).deep_view(),
            tools.deep_view() == lists::first_items(all.take(it.index()), 8),
    {
        let ghost before = tools.deep_view();
        if tools.len() < 8 {
            tools.push(tool);
            assert(tools.deep_view() =~= before.push(all[it.index() as int]));
        }
        assert(tools.deep_view() =~= lists::first_items(all.take(it.index() + 1), 8));
    }
    assert(all.take(all.len() as int) =~= all);
    tools
}

/// The line of a tool that was used `tool.1` times, which is `share` percent of all uses.
pub open spec fn tool_line(tool: (Seq<char>, nat), share: Seq<char>) -> Seq<char> {
    "  "@ + text::padded_right(tool.0, 12) + " "@ + text::padded_left(text::decimal(tool.1), 5)
        + " ("@ + share + "%)\n"@
}

/// The lines of tools with their shares.
pub open spec fn tool_lines(tools: Seq<(Seq<char>, nat)>, shares: Seq<Seq<char>>) -> Seq<char>
    decreases tools.len(),
{
    if tools.len() == 0 {
        Seq::empty()
    } else {
        tool_lines(tools.drop_last(), shares) + tool_line(tools.last(), shares[tools.len() - 1])
    }
}

/// The lines of the tools; nothing where none was used.
pub open spec fn tools_text(tools: Seq<(Seq<char>, nat)>, shares: Seq<Seq<char>>) -> Seq<char> {
    if tools.len() == 0 {
        Seq::empty()
    } else {
        "\nツール:\n"@ + tool_lines(tools, shares)
    }
}

/// Writes the line of a tool.
fn format_tool(tool: &Count, share: &str) -> (line: String)
    ensures
        line@ == tool_line(tool.deep_view(), share@),
{
    let count: String = decimal_text(tool.count as u64);
    let mut line: String = "  ".to_owned();
    line.append(pad_right(tool.name.as_str(), 12).as_str());
    line.append(" ");
    line.append(pad_left(count.as_str(), 5).as_str());
    line.append(" (");
    line.append(share);
    line.append("%)\n");
    line
}

/// Writes the lines of the tools.
fn format_tools(tools: &Vec<Count>, shares: &Vec<String>) -> (text: String)
    requires
        shares.len() == tools.len(),
    ensures
        text@ == tools_text(tools.deep_view(), shares.deep_view()),
{
    let ghost all = tools.deep_view();
    if tools.len() == 0 {
        return String::new();
    }
    let mut text: String = "\nツール:\n".to_owned();
    let ghost head = text@;
    let mut i: usize = 0;
    assert(text@ =~= head + tool_lines(all.take(0), shares.deep_view()));
    while i < tools.len()
        invariant
            i <= tools.len(),
            shares.len() == tools.len(),
            all == tools.deep_view(),
            text@ == head + tool_lines(all.take(i as int), shares.deep_view()),
        decreases tools.len() - i,
    {
        let ghost line = tool_line(all[i as int], shares.deep_view()[i as int]);
        proof {
            assert(all.take(i + 1).drop_last() =~= all.take(i as int));
            assert(all[i as int] == tools[i as int].deep_view());
            assert(shares.deep_view()[i as int] == shares[i as int]@);
            assert(head + tool_lines(all.take(i as int), shares.deep_view()) + line =~= head
                + tool_lines(all.take(i + 1), shares.deep_view()));
        }
        text.append(format_tool(&tools[i], shares[i].as_str()).as_str());
        i = i + 1;
    }
    assert(all.take(i as int) =~= all);
    text
}

// ---------------------------------------------------------------------------
// Decisions
// ---------------------------------------------------------------------------

/// The line of a decision.
pub open spec fn decision_line(d: DecisionView) -> Seq<char> {
    "  ["@ + d.project + "] "@ + text::first_chars(d.context, 60) + "\n"@
}

/// The lines of the decisions: the first five, and how many more there are; nothing where there are
/// none.
pub open spec fn decisions_text(decisions: Seq<DecisionView>) -> Seq<char> {
    if decisions.len() == 0 {
        Seq::empty()
    } else {
        "\n意思決定 ("@ + text::decimal(decisions.len()) + "):\n"@ + lists::flat_by(
            lists::first_items(decisions, 5),
            |d: DecisionView| decision_line(d),
        ) + if decisions.len() > 5 {
            "  ... 他 "@ + text::decimal((decisions.len() - 5) as nat) + " 件\n"@
        } else {
            Seq::empty()
        }
    }
}

/// Writes the line of a decision.
fn format_decision(d: &DecisionPoint) -> (line: String)
    ensures
        line@ == decision_line(d.deep_view()),
{
    let mut line: String = "  [".to_owned();
    line.append(d.project.as_str());
    line.append("] ");
    line.append(take_chars(d.context.as_str(), 60).as_str());
    line.append("\n");
    line
}

/// Writes the lines of the decisions.
fn format_decisions(decisions: &Vec<DecisionPoint>) -> (text: String)
    ensures
        text@ == decisions_text(decisions.deep_view()),
{
    let ghost all = decisions.deep_view();
    let ghost f = |d: DecisionView| decision_line(d);
    if decisions.len() == 0 {
        return String::new();
    }
    let mut text: String = "\n意思決定 (".to_owned();
    text.append(decimal_text(decisions.len() as u64).as_str());
    text.append("):\n");
    let ghost head = text@;
    let mut i: usize = 0;
    assert(text@ =~= head + lists::flat_by(all.take(0), f));
    while i < decisions.len() && i < 5
        invariant
            i <= decisions.len(),
            i <= 5,
            all == decisions.deep_view(),
            f == (|d: DecisionView| decision_line(d)),
            text@ == head + lists::flat_by(all.take(i as int), f),
        decreases decisions.len() - i,
    {
        proof {
            assert(all[i as int] == decisions[i as int].deep_view());
            lists::flat_by_step(all, i as int, f);
            assert(head + lists::flat_by(all.take(i as int), f) + f(all[i as int]) =~= head
                + lists::flat_by(all.take(i + 1), f));
        }
        text.append(format_decision(&decisions[i]).as_str());
        i = i + 1;
    }
    assert(all.take(i as int) =~= lists::first_items(all, 5));
    if decisions.len() > 5 {
        let mut rest: String = "  ... 他 ".to_owned();
        rest.append(decimal_text((decisions.len() - 5) as u64).as_str());
        rest.append(" 件\n");
        text.append(rest.as_str());
    } else {
        assert(text@ + Seq::<char>::empty() =~= text@);
    }
    text
}

// ---------------------------------------------------------------------------
// Summary
// ---------------------------------------------------------------------------

/// The output as text for a reader; `shares` holds the percentages of the tools that are named.
pub open spec fn summary_text(output: OutputView, shares: Seq<Seq<char>>) -> Seq<char> {
    if output.meta.total_sessions == 0 {
        empty_summary(output.meta)
    } else {
        totals_text(output) + projects_text(output.stats.projects_worked_on) + tools_text(
            shown_tools(output.stats),
            shares,
        ) + decisions_text(output.decisions)
    }
}

/// Writes the output as text for a reader. `shares` holds the percentages of the tools of
/// [`summary_tools`], as they are to be shown.
pub fn format_summary(output: &CollectorOutput, shares: &Vec<String>) -> (summary: String)
    requires
        shares.len() == shown_tools(output.deep_view().stats).len(),
    ensures
        summary@ == summary_text(output.deep_view(), shares.deep_view()),
{
    if output.meta.total_sessions == 0 {
        return format_empty(
            output.meta.filter_label.as_str(),
            &output.meta.source,
            Ghost(output.meta.deep_view()),
        );
    }
    let tools: Vec<Count> = summary_tools(&output.stats);
    assert(tools.deep_view().len() == tools.len());
    let mut summary: String = format_totals(output);
    summary.append(format_projects(&output.stats.projects_worked_on).as_str());
    summary.append(format_tools(&tools, shares).as_str());
    summary.append(format_decisions(&output.decisions).as_str());
    summary
}

// ---------------------------------------------------------------------------
// Laws
// ---------------------------------------------------------------------------

proof fn occurs_in_middle(before: Seq<char>, part: Seq<char>, behind: Seq<char>)
    ensures
        text::contains_text(before + part + behind, part),
{
    let all = before + part + behind;
    assert(all.subrange(before.len() as int, (before.len() + part.len()) as int) =~= part);
    assert(text::occurs_at(all, part, before.len() as int));
}

proof fn behind(x: Seq<char>, a: Seq<char>, b: Seq<char>)
    ensures
        x + (a + b) == x + a + b,
{
    assert(x + (a + b) =~= x + a + b);
}

proof fn five_behind(x: Seq<char>, a: Seq<char>, b: Seq<char>, c: Seq<char>, d: Seq<char>, e: Seq<char>)
    ensures
        x + (a + b + c + d + e) == x + a + b + c + d + e,
{
    behind(x, a, b);
    behind(x, a + b, c);
    behind(x, a + b + c, d);
    behind(x, a + b + c + d, e);
}

proof fn two_behind(x: Seq<char>, q: Seq<char>, a: Seq<char>, b: Seq<char>)
    ensures
        x + (q + a + b) == x + q + a + b,
{
    behind(x, q, a);
    behind(x, q + a, b);
}

/// The first lines are the five with the source, the period, the messages, the tokens and the focus.
proof fn totals_are_lines(output: OutputView)
    ensures
        totals_text(output) == "ソース: "@ + source_line(output.meta.source) + "\n"@ + period_line(
            output,
        ) + messages_line(output) + tokens_line(output) + focus_line(output),
{
    let meta = output.meta;
    let stats = output.stats;
    let source = "ソース: "@ + source_line(meta.source) + "\n"@;
    let sessions = text::decimal(meta.total_sessions);
    let projects = text::decimal(stats.projects_worked_on.len());
    let decisions = text::decimal(output.decisions.len());
    let p1 = "期間: "@ + meta.filter_label + " | セッション: "@ + sessions + " | プロジェクト: "@;
    five_behind(
        source,
        "期間: "@,
        meta.filter_label,
        " | セッション: "@,
        sessions,
        " | プロジェクト: "@,
    );
    two_behind(source, p1, projects, " | 意思決定: "@);
    two_behind(source, p1 + projects + " | 意思決定: "@, decisions, "\n"@);
    let x = source + period_line(output);
    let user = text::decimal(stats.total_user_messages);
    let assistant = text::decimal(stats.total_assistant_messages);
    let uses = text::decimal(stats.total_tool_uses);
    five_behind(
        x,
        "メッセージ: user "@,
        user,
        " / assistant "@,
        assistant,
        " | ツール使用: "@,
    );
    two_behind(
        x,
        "メッセージ: user "@ + user + " / assistant "@ + assistant + " | ツール使用: "@,
        uses,
        "\n"@,
    );
    let y = x + messages_line(output);
    five_behind(
        y,
        "トークン: input "@,
        text::decimal(stats.total_input_tokens),
        " / output "@,
        text::decimal(stats.total_output_tokens),
        "\n"@,
    );
    let z = y + tokens_line(output);
    let blocks = text::decimal(stats.focus.focus_blocks);
    let minutes = text::signed_decimal(stats.focus.longest_focus_minutes);
    let switches = text::decimal(stats.focus.context_switches);
    five_behind(
        z,
        "集中: "@,
        blocks,
        " ブロック | 最長: "@,
        minutes,
        " 分 | プロジェクト切替: "@,
    );
    two_behind(
        z,
        "集中: "@ + blocks + " ブロック | 最長: "@ + minutes + " 分 | プロジェクト切替: "@,
        switches,
        " 回\n"@,
    );
}

/// Each of some texts stands in what they make together, and what they make stands at its beginning.
proof fn five_stand_in_all(
    a: Seq<char>,
    b: Seq<char>,
    c: Seq<char>,
    d: Seq<char>,
    e: Seq<char>,
    rest: Seq<char>,
)
    ensures
        text::begins_with(a + b + c + d + e + rest, a + b + c + d + e),
        text::contains_text(a + b + c + d + e + rest, a),
        text::contains_text(a + b + c + d + e + rest, b),
        text::contains_text(a + b + c + d + e + rest, c),
        text::contains_text(a + b + c + d + e + rest, d),
        text::contains_text(a + b + c + d + e + rest, e),
{
    let head = a + b + c + d + e;
    let all = head + rest;
    assert(all.subrange(0, head.len() as int) =~= head);
    occurs_in_middle(Seq::empty(), a, b + c + d + e + rest);
    assert(Seq::<char>::empty() + a + (b + c + d + e + rest) =~= all);
    occurs_in_middle(a, b, c + d + e + rest);
    assert(a + b + (c + d + e + rest) =~= all);
    occurs_in_middle(a + b, c, d + e + rest);
    assert(a + b + c + (d + e + rest) =~= all);
    occurs_in_middle(a + b + c, d, e + rest);
    assert(a + b + c + d + (e + rest) =~= all);
    occurs_in_middle(a + b + c + d, e, rest);
}

proof fn middle_of_empty(
    before: Seq<char>,
    a: Seq<char>,
    b: Seq<char>,
    c: Seq<char>,
    d: Seq<char>,
    e: Seq<char>,
    f: Seq<char>,
    g: Seq<char>,
    h: Seq<char>,
)
    ensures
        before + a + b + c + d + e + f + g + h == before + (a + b + c) + (d + e + f + g + h),
        text::contains_text(before + a + b + c + d + e + f + g + h, a + b + c),
{
    two_behind(before, a, b, c);
    five_behind(before + (a + b + c), d, e, f, g, h);
    occurs_in_middle(before, a + b + c, d + e + f + g + h);
}

/// Every summary names the source that was asked for and those that were read, with or without
/// sessions.
pub proof fn summary_names_source(output: OutputView, shares: Seq<Seq<char>>)
    ensures
        text::contains_text(
            summary_text(output, shares),
            "ソース: "@ + source_line(output.meta.source) + "\n"@,
        ),
{
    if output.meta.total_sessions == 0 {
        middle_of_empty(
            "指定期間（"@ + output.meta.filter_label
                + "）にセッションデータが見つかりませんでした。\n"@,
            "ソース: "@,
            source_line(output.meta.source),
            "\n"@,
            "\n"@,
            "ヒント:\n"@,
            "  - 期間を広げてみてください: --days 7 や --days 30\n"@,
            "  - プロジェクトフィルタを外してみてください（--project を省略）\n"@,
            "  - 全期間を確認: --days 0\n"@,
        );
    } else {
        lines_stand_in_summary(output, shares);
    }
}

proof fn lines_stand_in_summary(output: OutputView, shares: Seq<Seq<char>>)
    requires
        output.meta.total_sessions > 0,
    ensures
        ({
            let source = "ソース: "@ + source_line(output.meta.source) + "\n"@;
            let all = summary_text(output, shares);
            &&& text::begins_with(
                all,
                source + period_line(output) + messages_line(output) + tokens_line(output)
                    + focus_line(output),
            )
            &&& text::contains_text(all, source)
            &&& text::contains_text(all, period_line(output))
            &&& text::contains_text(all, messages_line(output))
            &&& text::contains_text(all, tokens_line(output))
            &&& text::contains_text(all, focus_line(output))
        }),
{
    let projects = projects_text(output.stats.projects_worked_on);
    let tools = tools_text(shown_tools(output.stats), shares);
    let decisions = decisions_text(output.decisions);
    totals_are_lines(output);
    two_behind(totals_text(output), projects, tools, decisions);
    five_stand_in_all(
        "ソース: "@ + source_line(output.meta.source) + "\n"@,
        period_line(output),
        messages_line(output),
        tokens_line(output),
        focus_line(output),
        projects + tools + decisions,
    );
}

/// The line with the period and how many sessions, projects and decisions there are.
pub open spec fn period_line(output: OutputView) -> Seq<char> {
    "期間: "@ + output.meta.filter_label + " | セッション: "@ + text::decimal(
        output.meta.total_sessions,
    ) + " | プロジェクト: "@ + text::decimal(output.stats.projects_worked_on.len())
        + " | 意思決定: "@ + text::decimal(output.decisions.len()) + "\n"@
}

/// The line with the messages of both sides and the uses of tools.
pub open spec fn messages_line(output: OutputView) -> Seq<char> {
    "メッセージ: user "@ + text::decimal(output.stats.total_user_messages) + " / assistant "@
        + text::decimal(output.stats.total_assistant_messages) + " | ツール使用: "@ + text::decimal(
        output.stats.total_tool_uses,
    ) + "\n"@
}

/// The line with the tokens of both sides.
pub open spec fn tokens_line(output: OutputView) -> Seq<char> {
    "トークン: input "@ + text::decimal(output.stats.total_input_tokens) + " / output "@
        + text::decimal(output.stats.total_output_tokens) + "\n"@
}

/// The line with the blocks of work, the minutes of the longest and the switches of the project.
pub open spec fn focus_line(output: OutputView) -> Seq<char> {
    "集中: "@ + text::decimal(output.stats.focus.focus_blocks) + " ブロック | 最長: "@
        + text::signed_decimal(output.stats.focus.longest_focus_minutes)
        + " 分 | プロジェクト切替: "@ + text::decimal(output.stats.focus.context_switches) + " 回\n"@
}

/// Every summary of an output with sessions begins with five lines: the source; the period with the
/// numbers of sessions, projects and decisions; the messages of the user and of the assistant and
/// the uses of tools; the tokens that went in and those that came out; the blocks of work, the
/// longest in minutes, and the switches. Each number stands behind the word for it.
pub proof fn summary_begins_with_totals(output: OutputView, shares: Seq<Seq<char>>)
    requires
        output.meta.total_sessions > 0,
    ensures
        ({
            let head = "ソース: "@ + source_line(output.meta.source) + "\n"@ + period_line(output)
                + messages_line(output) + tokens_line(output) + focus_line(output);
            &&& text::begins_with(summary_text(output, shares), head)
            &&& text::contains_text(summary_text(output, shares), period_line(output))
            &&& text::contains_text(summary_text(output, shares), messages_line(output))
            &&& text::contains_text(summary_text(output, shares), tokens_line(output))
            &&& text::contains_text(summary_text(output, shares), focus_line(output))
        }),
{
    lines_stand_in_summary(output, shares);
}

/// The source line says what was asked for and then what was read: the names with commas between
/// them, or that there is none.
pub proof fn source_line_names_what_was_read(source: SourceView)
    ensures
        source.resolved.len() == 0 ==> source_line(source) == "requested "@ + source.requested
            + " | resolved なし"@,
        source.resolved.len() == 1 ==> source_line(source) == "requested "@ + source.requested
            + " | resolved "@ + source.resolved[0],
        source.resolved.len() == 2 ==> source_line(source) == "requested "@ + source.requested
            + " | resolved "@ + source.resolved[0] + ", "@ + source.resolved[1],
        source.resolved.len() > 0 ==> source_line(source) == "requested "@ + source.requested
            + " | resolved "@ + text::joined(source.resolved, ", "@),
{
    reveal_strlit(" | resolved なし");
    reveal_strlit(" | resolved ");
    reveal_strlit("なし");
    assert(" | resolved なし"@ =~= " | resolved "@ + "なし"@);
    reveal_with_fuel(text::joined, 3);
    assert(source_line(source) =~= "requested "@ + source.requested + (" | resolved "@
        + if source.resolved.len() == 0 {
        "なし"@
    } else {
        text::joined(source.resolved, ", "@)
    }));
    if source.resolved.len() == 2 {
        assert(source.resolved.drop_last()[0] == source.resolved[0]);
        assert(source_line(source) =~= "requested "@ + source.requested + " | resolved "@
            + source.resolved[0] + ", "@ + source.resolved[1]);
    }
}

/// Behind the totals come the projects, the tools and the decisions, each under a heading where there
/// are any and nothing otherwise.
pub proof fn summary_has_its_sections(output: OutputView, shares: Seq<Seq<char>>)
    requires
        output.meta.total_sessions > 0,
    ensures
        exists|head: Seq<char>, projects: Seq<char>, tools: Seq<char>, decisions: Seq<char>|
            summary_text(output, shares) == #[trigger] (head + projects + tools + decisions) && head
                == totals_text(output) && projects == projects_text(
                output.stats.projects_worked_on,
            ) && tools == tools_text(shown_tools(output.stats), shares) && decisions
                == decisions_text(output.decisions),
        output.stats.projects_worked_on.len() == 0 <==> projects_text(
            output.stats.projects_worked_on,
        ).len() == 0,
        output.stats.tool_frequency.len() == 0 <==> tools_text(
            shown_tools(output.stats),
            shares,
        ).len() == 0,
        output.decisions.len() == 0 <==> decisions_text(output.decisions).len() == 0,
{
    reveal_strlit("\nプロジェクト:\n");
    reveal_strlit("\nツール:\n");
    reveal_strlit("\n意思決定 (");
    let table = output.stats.tool_frequency;
    order::sorted_keeps_items(table, order::order_of::<Count, tally::ByCount>());
    assert(summary_text(output, shares) == totals_text(output) + projects_text(
        output.stats.projects_worked_on,
    ) + tools_text(shown_tools(output.stats), shares) + decisions_text(output.decisions));
}

/// A project has one line: its name over thirty places, the number of its sessions and that of its
/// messages, each before the word for it. The lines stand in the order of the projects.
pub proof fn projects_have_one_line_each(projects: Seq<ProjectView>, p: ProjectView)
    ensures
        projects_text(seq![p]) == "\nプロジェクト:\n"@ + ("  "@ + text::padded_right(p.name, 30)
            + " "@ + text::padded_left(text::decimal(p.session_count), 3) + " セッション  "@
            + text::padded_left(text::decimal(p.message_count), 6) + " メッセージ\n"@),
        projects.len() > 0 ==> projects_text(projects.push(p)) == projects_text(projects) + ("  "@
            + text::padded_right(p.name, 30) + " "@ + text::padded_left(
            text::decimal(p.session_count),
            3,
        ) + " セッション  "@ + text::padded_left(text::decimal(p.message_count), 6)
            + " メッセージ\n"@),
{
    let f = |p: ProjectView| project_line(p);
    lists::flat_by_of_parts(projects, seq![p], p, f);
    assert(projects.push(p) =~= projects + seq![p]);
    if projects.len() > 0 {
        assert(projects_text(projects.push(p)) =~= projects_text(projects) + project_line(p));
    }
}

/// A tool has one line: its name over twelve places, how often it was used, and its share in percent.
/// The lines stand in the order of the tools.
pub proof fn tools_have_one_line_each(
    tools: Seq<(Seq<char>, nat)>,
    tool: (Seq<char>, nat),
    shares: Seq<Seq<char>>,
)
    ensures
        tools_text(seq![tool], shares) == "\nツール:\n"@ + ("  "@ + text::padded_right(tool.0, 12)
            + " "@ + text::padded_left(text::decimal(tool.1), 5) + " ("@ + shares[0] + "%)\n"@),
        tools.len() > 0 ==> tools_text(tools.push(tool), shares) == tools_text(tools, shares) + (
        "  "@ + text::padded_right(tool.0, 12) + " "@ + text::padded_left(text::decimal(tool.1), 5)
            + " ("@ + shares[tools.len() as int] + "%)\n"@),
{
    reveal_with_fuel(tool_lines, 2);
    assert(seq![tool].drop_last() =~= Seq::empty());
    assert(tool_lines(seq![tool], shares) =~= tool_line(tool, shares[0]));
    assert(tools.push(tool).drop_last() =~= tools);
    if tools.len() > 0 {
        assert(tools_text(tools.push(tool), shares) =~= tools_text(tools, shares) + tool_line(
            tool,
            shares[tools.len() as int],
        ));
    }
}

/// The tools of the summary are the first eight of the ranking, or all where there are fewer: each is
/// an entry of the table, those with greater counts stand ahead, and those with equal counts by name.
pub proof fn eight_tools_are_shown(stats: StatsView, i: int, j: int)
    requires
        0 <= i <= j < shown_tools(stats).len(),
    ensures
        shown_tools(stats).len() == if stats.tool_frequency.len() < 8 {
            stats.tool_frequency.len()
        } else {
            8
        },
        stats.tool_frequency.contains(shown_tools(stats)[i]),
        i < j ==> shown_tools(stats)[i].1 > shown_tools(stats)[j].1 || (shown_tools(stats)[i].1
            == shown_tools(stats)[j].1 && text::text_leq(
            shown_tools(stats)[i].0,
            shown_tools(stats)[j].0,
        )),
        forall|e: (Seq<char>, nat)| #[trigger]
            stats.tool_frequency.contains(e) && e.1 > shown_tools(stats)[j].1 ==> shown_tools(
                stats,
            ).contains(e),
{
    let table = stats.tool_frequency;
    let leq = order::order_of::<Count, tally::ByCount>();
    let all = tally::ranked(table);
    let shown = shown_tools(stats);
    order::sorted_keeps_items(table, leq);
    order::sorted_is_ascending::<Count, tally::ByCount>(table);
    assert(shown[i] == all[i] && shown[j] == all[j]);
    assert(all.contains(all[i]));
    order::sorted_contains(table, leq, all[i]);
    if i < j {
        assert(leq(all[i], all[j]));
    }
    assert forall|e: (Seq<char>, nat)| #[trigger] table.contains(e) && e.1 > shown[j].1 implies shown.contains(
        e,
    ) by {
        order::sorted_contains(table, leq, e);
        let k = choose|k: int| 0 <= k < all.len() && all[k] == e;
        if j < k {
            assert(leq(all[j], all[k]));
        }
        assert(shown[k] == e);
    }
}

/// The heading of the decisions has their number. Up to five have a line, with the project and the
/// first sixty characters of the context, and where there are more a last line says how many.
pub proof fn five_decisions_are_shown(decisions: Seq<DecisionView>, d: DecisionView)
    ensures
        decisions_text(seq![d]) == "\n意思決定 ("@ + text::decimal(1) + "):\n"@ + ("  ["@ + d.project
            + "] "@ + text::first_chars(d.context, 60) + "\n"@),
        0 < decisions.len() <= 5 ==> decisions_text(decisions) == "\n意思決定 ("@ + text::decimal(
            decisions.len(),
        ) + "):\n"@ + decision_lines(decisions),
        decisions.len() > 5 ==> decisions_text(decisions) == "\n意思決定 ("@ + text::decimal(
            decisions.len(),
        ) + "):\n"@ + decision_lines(decisions.take(5)) + "  ... 他 "@ + text::decimal(
            (decisions.len() - 5) as nat,
        ) + " 件\n"@,
        decision_lines(decisions.push(d)) == decision_lines(decisions) + ("  ["@ + d.project + "] "@
            + text::first_chars(d.context, 60) + "\n"@),
        decision_lines(Seq::empty()) == Seq::<char>::empty(),
{
    let f = |d: DecisionView| decision_line(d);
    lists::flat_by_of_parts(decisions, seq![d], d, f);
    assert(decisions.push(d) =~= decisions + seq![d]);
    let none = Seq::<char>::empty();
    assert(decisions_text(seq![d]) =~= "\n意思決定 ("@ + text::decimal(1) + "):\n"@ + decision_line(d));
    if 0 < decisions.len() <= 5 {
        assert(decisions_text(decisions) =~= "\n意思決定 ("@ + text::decimal(decisions.len())
            + "):\n"@ + decision_lines(decisions));
    }
    if decisions.len() > 5 {
        assert(decisions_text(decisions) =~= "\n意思決定 ("@ + text::decimal(decisions.len())
            + "):\n"@ + decision_lines(decisions.take(5)) + "  ... 他 "@ + text::decimal(
            (decisions.len() - 5) as nat,
        ) + " 件\n"@);
    }
}

/// The lines of decisions.
pub open spec fn decision_lines(decisions: Seq<DecisionView>) -> Seq<char> {
    lists::flat_by(decisions, |d: DecisionView| decision_line(d))
}

/// Where there is no session, the summary says so, names the period and the source, and gives three
/// hints.
pub proof fn empty_summary_gives_hints(output: OutputView, shares: Seq<Seq<char>>)
    requires
        output.meta.total_sessions == 0,
    ensures
        ({
            let all = summary_text(output, shares);
            &&& text::begins_with(
                all,
                "指定期間（"@ + output.meta.filter_label
                    + "）にセッションデータが見つかりませんでした。\n"@ + "ソース: "@ + source_line(
                    output.meta.source,
                ) + "\n"@,
            )
            &&& text::ends_with(
                all,
                "\n"@ + "ヒント:\n"@ + "  - 期間を広げてみてください: --days 7 や --days 30\n"@
                    + "  - プロジェクトフィルタを外してみてください（--project を省略）\n"@
                    + "  - 全期間を確認: --days 0\n"@,
            )
        }),
{
    let all = summary_text(output, shares);
    let head = "指定期間（"@ + output.meta.filter_label
        + "）にセッションデータが見つかりませんでした。\n"@ + "ソース: "@ + source_line(output.meta.source)
        + "\n"@;
    let hints = "\n"@ + "ヒント:\n"@ + "  - 期間を広げてみてください: --days 7 や --days 30\n"@
        + "  - プロジェクトフィルタを外してみてください（--project を省略）\n"@
        + "  - 全期間を確認: --days 0\n"@;
    assert(all =~= head + hints);
    assert(all.subrange(0, head.len() as int) =~= head);
    assert(all.subrange(all.len() - hints.len(), all.len() as int) =~= hints);
}

} // verus!
