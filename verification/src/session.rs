//! Sessions as a source delivers them, and what a report says of a single one.

use crate::lists;
use crate::order;
use crate::order::Order;
use crate::tally;
use crate::tally::{record_all, CountTable};
use crate::text;
use crate::text::{has_prefix, sort_distinct, text_at_or_before};
use vstd::prelude::*;
use vstd::string::*;

verus! {

// ---------------------------------------------------------------------------
// Types
// ---------------------------------------------------------------------------

/// A prompt of the user.
pub struct ParsedUserEntry {
    pub timestamp: String,
    pub text: String,
}

/// A prompt: when it was given and what it says.
pub struct PromptView {
    pub timestamp: Seq<char>,
    pub text: Seq<char>,
}

impl DeepView for ParsedUserEntry {
    type V = PromptView;

    open spec fn deep_view(&self) -> PromptView {
        PromptView { timestamp: self.timestamp@, text: self.text@ }
    }
}

/// A turn of the assistant.
pub struct ParsedAssistantEntry {
    pub timestamp: String,
    pub message_count: usize,
    pub tool_uses: Vec<String>,
    pub input_tokens: u64,
    pub output_tokens: u64,
    pub file_paths: Vec<String>,
}

/// A turn of the assistant: when it took place, how many messages it holds, the tools that it
/// used in order, what it cost, and the files that it worked on.
#[verifier::ext_equal]
pub struct TurnView {
    pub timestamp: Seq<char>,
    pub message_count: nat,
    pub tool_uses: Seq<Seq<char>>,
    pub input_tokens: nat,
    pub output_tokens: nat,
    pub file_paths: Seq<Seq<char>>,
}

impl DeepView for ParsedAssistantEntry {
    type V = TurnView;

    open spec fn deep_view(&self) -> TurnView {
        TurnView {
            timestamp: self.timestamp@,
            message_count: self.message_count as nat,
            tool_uses: self.tool_uses.deep_view(),
            input_tokens: self.input_tokens as nat,
            output_tokens: self.output_tokens as nat,
            file_paths: self.file_paths.deep_view(),
        }
    }
}

/// A session of one project.
pub struct RawSession {
    pub session_id: String,
    pub project: String,
    pub project_path: String,
    pub git_branch: Option<String>,
    pub user_entries: Vec<ParsedUserEntry>,
    pub assistant_entries: Vec<ParsedAssistantEntry>,
}

/// A session: its name, its project, and its prompts and turns.
#[verifier::ext_equal]
pub struct SessionView {
    pub session_id: Seq<char>,
    pub project: Seq<char>,
    pub project_path: Seq<char>,
    pub git_branch: Option<Seq<char>>,
    pub prompts: Seq<PromptView>,
    pub turns: Seq<TurnView>,
}

impl DeepView for RawSession {
    type V = SessionView;

    open spec fn deep_view(&self) -> SessionView {
        SessionView {
            session_id: self.session_id@,
            project: self.project@,
            project_path: self.project_path@,
            git_branch: self.git_branch.deep_view(),
            prompts: self.user_entries.deep_view(),
            turns: self.assistant_entries.deep_view(),
        }
    }
}

/// The first and the last timestamp of something; both missing where it has none.
pub struct DateRange {
    pub start: Option<String>,
    pub end: Option<String>,
}

/// The first and the last of some timestamps.
pub struct RangeView {
    pub start: Option<Seq<char>>,
    pub end: Option<Seq<char>>,
}

impl DeepView for DateRange {
    type V = RangeView;

    open spec fn deep_view(&self) -> RangeView {
        RangeView { start: self.start.deep_view(), end: self.end.deep_view() }
    }
}

/// How many messages the two sides sent.
pub struct MessageCounts {
    pub user: usize,
    pub assistant: usize,
}

/// What a report says of one session.
pub struct SessionSummary {
    pub session_id: String,
    pub project: String,
    pub time_range: DateRange,
    pub message_counts: MessageCounts,
    pub tool_usage: CountTable,
    pub total_input_tokens: u64,
    pub total_output_tokens: u64,
    pub files_touched: Vec<String>,
}

/// What a report says of one session.
#[verifier::ext_equal]
pub struct SessionSummaryView {
    pub session_id: Seq<char>,
    pub project: Seq<char>,
    pub time_range: RangeView,
    pub user_messages: nat,
    pub assistant_messages: nat,
    pub tool_usage: Seq<(Seq<char>, nat)>,
    pub total_input_tokens: nat,
    pub total_output_tokens: nat,
    pub files_touched: Seq<Seq<char>>,
}

impl DeepView for SessionSummary {
    type V = SessionSummaryView;

    open spec fn deep_view(&self) -> SessionSummaryView {
        SessionSummaryView {
            session_id: self.session_id@,
            project: self.project@,
            time_range: self.time_range.deep_view(),
            user_messages: self.message_counts.user as nat,
            assistant_messages: self.message_counts.assistant as nat,
            tool_usage: self.tool_usage.deep_view(),
            total_input_tokens: self.total_input_tokens as nat,
            total_output_tokens: self.total_output_tokens as nat,
            files_touched: self.files_touched.deep_view(),
        }
    }
}

// ---------------------------------------------------------------------------
// Timestamps
// ---------------------------------------------------------------------------

/// The first of `texts` in dictionary order.
pub open spec fn least(texts: Seq<Seq<char>>) -> Option<Seq<char>>
    decreases texts.len(),
{
    if texts.len() == 0 {
        None
    } else {
        match least(texts.drop_last()) {
            Some(m) if text::text_leq(m, texts.last()) => Some(m),
            _ => Some(texts.last()),
        }
    }
}

/// The last of `texts` in dictionary order.
pub open spec fn greatest(texts: Seq<Seq<char>>) -> Option<Seq<char>>
    decreases texts.len(),
{
    if texts.len() == 0 {
        None
    } else {
        match greatest(texts.drop_last()) {
            Some(m) if text::text_leq(texts.last(), m) => Some(m),
            _ => Some(texts.last()),
        }
    }
}

/// The first and the last of `texts`.
pub open spec fn range_of(texts: Seq<Seq<char>>) -> RangeView {
    RangeView { start: least(texts), end: greatest(texts) }
}

/// A range starts and ends with timestamps that it was made of, and all the others lie between the
/// two; it is open at both ends exactly where there are none.
pub proof fn range_of_bounds(texts: Seq<Seq<char>>)
    ensures
        range_of(texts).start is None <==> texts.len() == 0,
        range_of(texts).end is None <==> texts.len() == 0,
        range_of(texts).start matches Some(m) ==> texts.contains(m) && forall|i: int|
            0 <= i < texts.len() ==> text::text_leq(m, #[trigger] texts[i]),
        range_of(texts).end matches Some(m) ==> texts.contains(m) && forall|i: int|
            0 <= i < texts.len() ==> text::text_leq(#[trigger] texts[i], m),
    decreases texts.len(),
{
    if texts.len() > 0 {
        let front = texts.drop_last();
        let x = texts.last();
        range_of_bounds(front);
        text::text_leq_total(x, x);
        assert(texts[texts.len() - 1] == x);
        if front.len() > 0 {
            let low = least(front)->0;
            let high = greatest(front)->0;
            let i = choose|i: int| 0 <= i < front.len() && front[i] == low;
            assert(texts[i] == low);
            let j = choose|j: int| 0 <= j < front.len() && front[j] == high;
            assert(texts[j] == high);
            text::text_leq_total(low, x);
            text::text_leq_total(high, x);
            assert forall|k: int| 0 <= k < texts.len() implies text::text_leq(
                least(texts)->0,
                #[trigger] texts[k],
            ) && text::text_leq(texts[k], greatest(texts)->0) by {
                if k < front.len() {
                    assert(front[k] == texts[k]);
                    if !text::text_leq(low, x) {
                        text::text_leq_transitive(x, low, texts[k]);
                    }
                    if !text::text_leq(x, high) {
                        text::text_leq_transitive(texts[k], high, x);
                    }
                }
            }
        }
    }
}

/// A range depends only on which timestamps it was made of.
pub proof fn range_of_same_members(texts: Seq<Seq<char>>, others: Seq<Seq<char>>)
    requires
        forall|x: Seq<char>| #[trigger] texts.contains(x) <==> others.contains(x),
    ensures
        range_of(texts) == range_of(others),
{
    range_of_bounds(texts);
    range_of_bounds(others);
    if texts.len() > 0 {
        assert(texts.contains(texts[0]));
    }
    if others.len() > 0 {
        assert(others.contains(others[0]) <==> texts.contains(others[0]));
        assert(others.contains(others[0]));
    }
    if texts.len() > 0 && others.len() > 0 {
        let a = range_of(texts);
        let b = range_of(others);
        assert(texts.contains(b.start->0) && texts.contains(b.end->0));
        assert(texts.contains(a.start->0) && texts.contains(a.end->0));
        let i = choose|i: int| 0 <= i < others.len() && others[i] == a.start->0;
        let j = choose|j: int| 0 <= j < others.len() && others[j] == a.end->0;
        let k = choose|k: int| 0 <= k < texts.len() && texts[k] == b.start->0;
        let m = choose|m: int| 0 <= m < texts.len() && texts[m] == b.end->0;
        assert(text::text_leq(b.start->0, others[i]) && text::text_leq(others[j], b.end->0));
        assert(text::text_leq(a.start->0, texts[k]) && text::text_leq(texts[m], a.end->0));
        text::text_leq_antisymmetric(a.start->0, b.start->0);
        text::text_leq_antisymmetric(a.end->0, b.end->0);
    }
}

impl DateRange {
    /// The range of no timestamps.
    pub fn empty() -> (range: DateRange)
        ensures
            range.deep_view() == range_of(Seq::empty()),
    {
        DateRange { start: None, end: None }
    }

    /// Extends the range of `seen` by `timestamp`.
    pub(crate) fn widen(&mut self, timestamp: &str, Ghost(seen): Ghost<Seq<Seq<char>>>)
        requires
            old(self).deep_view() == range_of(seen),
        ensures
            final(self).deep_view() == range_of(seen.push(timestamp@)),
    {
        assert(seen.push(timestamp@).drop_last() =~= seen);
        let keep_start: bool = match &self.start {
            Some(m) => text_at_or_before(m.as_str(), timestamp),
            None => false,
        };
        let keep_end: bool = match &self.end {
            Some(m) => text_at_or_before(timestamp, m.as_str()),
            None => false,
        };
        if !keep_start {
            self.start = Some(timestamp.to_owned());
        }
        if !keep_end {
            self.end = Some(timestamp.to_owned());
        }
    }
}

/// The timestamps of the prompts.
pub open spec fn prompt_times(prompts: Seq<PromptView>) -> Seq<Seq<char>> {
    prompts.map_values(|p: PromptView| p.timestamp)
}

/// The timestamps of the turns.
pub open spec fn turn_times(turns: Seq<TurnView>) -> Seq<Seq<char>> {
    turns.map_values(|t: TurnView| t.timestamp)
}

/// The timestamps of a session: those of its prompts, then those of its turns.
pub open spec fn timestamps(session: SessionView) -> Seq<Seq<char>> {
    prompt_times(session.prompts) + turn_times(session.turns)
}

/// Extends the range of `seen` by the timestamps of `session`.
pub(crate) fn widen_by_session(
    range: &mut DateRange,
    session: &RawSession,
    Ghost(seen): Ghost<Seq<Seq<char>>>,
)
    requires
        old(range).deep_view() == range_of(seen),
    ensures
        final(range).deep_view() == range_of(seen + timestamps(session.deep_view())),
{
    let ghost prompts = session.deep_view().prompts;
    let ghost turns = session.deep_view().turns;
    let mut i: usize = 0;
    assert(seen + prompt_times(prompts).take(0) =~= seen);
    while i < session.user_entries.len()
        invariant
            i <= session.user_entries.len(),
            prompts == session.user_entries.deep_view(),
            range.deep_view() == range_of(seen + prompt_times(prompts).take(i as int)),
        decreases session.user_entries.len() - i,
    {
        let ghost so_far = seen + prompt_times(prompts).take(i as int);
        let timestamp: &str = session.user_entries[i].timestamp.as_str();
        assert(prompt_times(prompts)[i as int] == timestamp@);
        range.widen(timestamp, Ghost(so_far));
        assert(so_far.push(timestamp@) =~= seen + prompt_times(prompts).take(i + 1));
        i = i + 1;
    }
    let ghost base = seen + prompt_times(prompts);
    assert(prompt_times(prompts).take(i as int) =~= prompt_times(prompts));
    assert(base + turn_times(turns).take(0) =~= base);
    let mut j: usize = 0;
    while j < session.assistant_entries.len()
        invariant
            j <= session.assistant_entries.len(),
            turns == session.assistant_entries.deep_view(),
            range.deep_view() == range_of(base + turn_times(turns).take(j as int)),
        decreases session.assistant_entries.len() - j,
    {
        let ghost so_far = base + turn_times(turns).take(j as int);
        let timestamp: &str = session.assistant_entries[j].timestamp.as_str();
        assert(turn_times(turns)[j as int] == timestamp@);
        range.widen(timestamp, Ghost(so_far));
        assert(so_far.push(timestamp@) =~= base + turn_times(turns).take(j + 1));
        j = j + 1;
    }
    assert(turn_times(turns).take(j as int) =~= turn_times(turns));
    assert(base + turn_times(turns) =~= seen + timestamps(session.deep_view()));
}

// ---------------------------------------------------------------------------
// Totals over turns
// ---------------------------------------------------------------------------

/// How many messages the turns hold.
pub open spec fn turn_messages(turns: Seq<TurnView>) -> nat {
    lists::sum_by(turns, |t: TurnView| t.message_count)
}

/// How many tokens went into the turns.
pub open spec fn turn_input(turns: Seq<TurnView>) -> nat {
    lists::sum_by(turns, |t: TurnView| t.input_tokens)
}

/// How many tokens came out of the turns.
pub open spec fn turn_output(turns: Seq<TurnView>) -> nat {
    lists::sum_by(turns, |t: TurnView| t.output_tokens)
}

/// The tools that the turns used, in order.
pub open spec fn turn_tools(turns: Seq<TurnView>) -> Seq<Seq<char>> {
    lists::flat_by(turns, |t: TurnView| t.tool_uses)
}

/// The files that the turns worked on, in order.
pub open spec fn turn_files(turns: Seq<TurnView>) -> Seq<Seq<char>> {
    lists::flat_by(turns, |t: TurnView| t.file_paths)
}

/// How many messages the turns hold.
pub fn assistant_message_count(entries: &Vec<ParsedAssistantEntry>) -> (count: usize)
    requires
        turn_messages(entries.deep_view()) <= usize::MAX,
    ensures
        count == turn_messages(entries.deep_view()),
{
    let ghost turns = entries.deep_view();
    let ghost f = |t: TurnView| t.message_count;
    let mut count: usize = 0;
    let mut i: usize = 0;
    while i < entries.len()
        invariant
            i <= entries.len(),
            turns == entries.deep_view(),
            f == (|t: TurnView| t.message_count),
            turn_messages(turns) <= usize::MAX,
            count == turn_messages(turns.take(i as int)),
        decreases entries.len() - i,
    {
        proof {
            lists::sum_by_step(turns, i as int, f);
            lists::sum_by_of_prefix(turns, i + 1, f);
            assert(turns[i as int].message_count == entries[i as int].message_count);
        }
        count = count + entries[i].message_count;
        i = i + 1;
    }
    assert(turns.take(i as int) =~= turns);
    count
}

/// The tokens that went into the turns and those that came out of them.
pub(crate) fn token_totals(entries: &Vec<ParsedAssistantEntry>) -> (totals: (u64, u64))
    requires
        turn_input(entries.deep_view()) <= u64::MAX,
        turn_output(entries.deep_view()) <= u64::MAX,
    ensures
        totals.0 == turn_input(entries.deep_view()),
        totals.1 == turn_output(entries.deep_view()),
{
    let ghost turns = entries.deep_view();
    let ghost f = |t: TurnView| t.input_tokens;
    let ghost g = |t: TurnView| t.output_tokens;
    let mut input: u64 = 0;
    let mut output: u64 = 0;
    let mut i: usize = 0;
    while i < entries.len()
        invariant
            i <= entries.len(),
            turns == entries.deep_view(),
            f == (|t: TurnView| t.input_tokens),
            g == (|t: TurnView| t.output_tokens),
            turn_input(turns) <= u64::MAX,
            turn_output(turns) <= u64::MAX,
            input == turn_input(turns.take(i as int)),
            output == turn_output(turns.take(i as int)),
        decreases entries.len() - i,
    {
        proof {
            lists::sum_by_step(turns, i as int, f);
            lists::sum_by_of_prefix(turns, i + 1, f);
            lists::sum_by_step(turns, i as int, g);
            lists::sum_by_of_prefix(turns, i + 1, g);
            assert(turns[i as int].input_tokens == entries[i as int].input_tokens);
            assert(turns[i as int].output_tokens == entries[i as int].output_tokens);
        }
        input = input + entries[i].input_tokens;
        output = output + entries[i].output_tokens;
        i = i + 1;
    }
    assert(turns.take(i as int) =~= turns);
    (input, output)
}

/// Counts the tools of the turns on top of those that `table` has counted.
pub(crate) fn record_tools(
    table: &mut CountTable,
    entries: &Vec<ParsedAssistantEntry>,
    Ghost(seen): Ghost<Seq<Seq<char>>>,
)
    requires
        old(table).deep_view() == tally::tally(seen),
        tally::countable(seen + turn_tools(entries.deep_view())),
    ensures
        final(table).deep_view() == tally::tally(seen + turn_tools(entries.deep_view())),
{
    let ghost turns = entries.deep_view();
    let ghost f = |t: TurnView| t.tool_uses;
    let mut i: usize = 0;
    assert(seen + turn_tools(turns.take(0)) =~= seen);
    while i < entries.len()
        invariant
            i <= entries.len(),
            turns == entries.deep_view(),
            f == (|t: TurnView| t.tool_uses),
            tally::countable(seen + turn_tools(turns)),
            table.deep_view() == tally::tally(seen + turn_tools(turns.take(i as int))),
        decreases entries.len() - i,
    {
        let ghost so_far = seen + turn_tools(turns.take(i as int));
        let ghost tools = entries[i as int].tool_uses.deep_view();
        proof {
            assert(tools == turns[i as int].tool_uses);
            lists::flat_by_step(turns, i as int, f);
            lists::flat_by_of_prefix(turns, i + 1, f);
            let next = seen + turn_tools(turns.take(i + 1));
            assert(so_far + tools =~= next);
            assert(next =~= (seen + turn_tools(turns)).take(next.len() as int));
            assert forall|name: Seq<char>| #[trigger] tally::occurrences(so_far + tools, name)
                <= u32::MAX by {
                tally::occurrences_of_prefix(seen + turn_tools(turns), next.len() as int, name);
            }
        }
        record_all(table, &entries[i].tool_uses, Ghost(so_far));
        i = i + 1;
    }
    assert(turns.take(i as int) =~= turns);
}

/// Copies `from` to the end of `to`.
pub(crate) fn append_texts(to: &mut Vec<String>, from: &Vec<String>)
    ensures
        final(to).deep_view() == old(to).deep_view() + from.deep_view(),
{
    let ghost start = to.deep_view();
    let ghost all = from.deep_view();
    let mut i: usize = 0;
    assert(start + all.take(0) =~= start);
    while i < from.len()
        invariant
            i <= from.len(),
            all == from.deep_view(),
            to.deep_view() == start + all.take(i as int),
        decreases from.len() - i,
    {
        let ghost before = to.deep_view();
        to.push(from[i].clone());
        assert(to.deep_view() =~= before.push(all[i as int]));
        i = i + 1;
        assert(to.deep_view() =~= start + all.take(i as int));
    }
    assert(all.take(i as int) =~= all);
}

/// Copies the files of the turns to the end of `files`.
pub(crate) fn append_files(files: &mut Vec<String>, entries: &Vec<ParsedAssistantEntry>)
    ensures
        final(files).deep_view() == old(files).deep_view() + turn_files(entries.deep_view()),
{
    let ghost start = files.deep_view();
    let ghost turns = entries.deep_view();
    let ghost f = |t: TurnView| t.file_paths;
    let mut i: usize = 0;
    assert(start + turn_files(turns.take(0)) =~= start);
    while i < entries.len()
        invariant
            i <= entries.len(),
            turns == entries.deep_view(),
            f == (|t: TurnView| t.file_paths),
            files.deep_view() == start + turn_files(turns.take(i as int)),
        decreases entries.len() - i,
    {
        proof {
            lists::flat_by_step(turns, i as int, f);
            assert(turns[i as int].file_paths == entries[i as int].file_paths.deep_view());
            assert(start + turn_files(turns.take(i as int)) + turns[i as int].file_paths =~= start
                + turn_files(turns.take(i + 1)));
        }
        append_texts(files, &entries[i].file_paths);
        i = i + 1;
    }
    assert(turns.take(i as int) =~= turns);
}

// ---------------------------------------------------------------------------
// Prompts
// ---------------------------------------------------------------------------

/// Whether a prompt is the user's own words, and not the preamble that a skill puts in their
/// place.
pub open spec fn meaningful(text: Seq<char>) -> bool {
    !text::begins_with(text, "Base directory for this skill:"@) && !text::begins_with(
        text,
        "(Re-invocation of "@,
    )
}

/// Whether a prompt is the user's own words.
pub fn is_meaningful_prompt(text: &str) -> (answer: bool)
    ensures
        answer == meaningful(text@),
{
    !has_prefix(text, "Base directory for this skill:") && !has_prefix(text, "(Re-invocation of ")
}

// ---------------------------------------------------------------------------
// Recency
// ---------------------------------------------------------------------------

/// Whether a session whose last timestamp is `a` may stand before one whose last is `b`: the later
/// one first, those without a timestamp last.
pub open spec fn newer_first(a: Option<Seq<char>>, b: Option<Seq<char>>) -> bool {
    match (a, b) {
        (_, None) => true,
        (None, Some(_)) => false,
        (Some(x), Some(y)) => text::text_leq(y, x),
    }
}

/// The last timestamp of a session.
pub open spec fn newest(session: SessionView) -> Option<Seq<char>> {
    greatest(timestamps(session))
}

/// Sessions from the most recent one back.
pub struct ByRecency;

/// A session with its last timestamp.
struct Dated {
    newest: Option<String>,
    session: RawSession,
}

impl DeepView for Dated {
    type V = (Option<Seq<char>>, SessionView);

    closed spec fn deep_view(&self) -> (Option<Seq<char>>, SessionView) {
        (self.newest.deep_view(), self.session.deep_view())
    }
}

impl Order<Dated> for ByRecency {
    open spec fn leq(
        a: (Option<Seq<char>>, SessionView),
        b: (Option<Seq<char>>, SessionView),
    ) -> bool {
        newer_first(a.0, b.0)
    }

    fn at_or_before(a: &Dated, b: &Dated) -> (answer: bool) {
        match (&a.newest, &b.newest) {
            (_, None) => true,
            (None, Some(_)) => false,
            (Some(x), Some(y)) => text_at_or_before(y.as_str(), x.as_str()),
        }
    }

    proof fn total(
        a: (Option<Seq<char>>, SessionView),
        b: (Option<Seq<char>>, SessionView),
    ) {
        if a.0 is Some && b.0 is Some {
            text::text_leq_total(a.0->0, b.0->0);
        }
    }

    proof fn transitive(
        a: (Option<Seq<char>>, SessionView),
        b: (Option<Seq<char>>, SessionView),
        c: (Option<Seq<char>>, SessionView),
    ) {
        if a.0 is Some && b.0 is Some && c.0 is Some {
            text::text_leq_transitive(c.0->0, b.0->0, a.0->0);
        }
    }
}

/// Whether session `a` may stand before session `b`.
pub open spec fn more_recent() -> spec_fn(SessionView, SessionView) -> bool {
    |a: SessionView, b: SessionView| newer_first(newest(a), newest(b))
}

/// The sessions from the most recent one back; those of one time keep their order.
pub open spec fn by_recency(sessions: Seq<SessionView>) -> Seq<SessionView> {
    order::sorted(sessions, more_recent())
}

/// Sorts `sessions` from the most recent one back.
pub fn sort_sessions_by_recency(sessions: Vec<RawSession>) -> (out: Vec<RawSession>)
    ensures
        out.deep_view() == by_recency(sessions.deep_view()),
{
    let ghost input = sessions.deep_view();
    let ghost date = |s: SessionView| (newest(s), s);
    let mut dated: Vec<Dated> = Vec::new();
    assert(dated.deep_view() =~= input.take(0).map_values(date));
    for session in it: sessions
        invariant
            input.len() == it.seq().len(),
            forall|k: int| 0 <= k < input.len() ==> input[k] == (#[trigger] it.seq()[k]).deep_view(),
            date == (|s: SessionView| (newest(s), s)),
            dated.deep_view() == input.take(it.index()).map_values(date),
    {
        let ghost before = dated.deep_view();
        let mut range: DateRange = DateRange::empty();
        widen_by_session(&mut range, &session, Ghost(Seq::empty()));
        proof {
            assert(Seq::<Seq<char>>::empty() + timestamps(session.deep_view()) =~= timestamps(
                session.deep_view(),
            ));
            assert(input[it.index() as int] == session.deep_view());
        }
        dated.push(Dated { newest: range.end, session });
        proof {
            assert(dated.deep_view() =~= before.push(date(input[it.index() as int])));
            assert(dated.deep_view() =~= input.take(it.index() + 1).map_values(date));
        }
    }
    assert(input.take(input.len() as int) =~= input);
    let ordered: Vec<Dated> = order::stable_sort::<Dated, ByRecency>(dated);
    let ghost result = by_recency(input);
    proof {
        order::sorted_of_map(input, date, more_recent(), order::order_of::<Dated, ByRecency>());
        assert(ordered.deep_view() == result.map_values(date));
        assert(ordered.deep_view().len() == result.len());
        assert forall|k: int| 0 <= k < result.len() implies (#[trigger] ordered@[k]).deep_view().1
            == result[k] by {
            assert(ordered.deep_view()[k] == date(result[k]));
        }
    }
    let mut out: Vec<RawSession> = Vec::new();
    assert(out.deep_view() =~= result.take(0));
    for entry in it: ordered
        invariant
            it.seq().len() == result.len(),
            forall|k: int| 0 <= k < result.len() ==> (#[trigger] it.seq()[k]).deep_view().1 == result[k],
            out.deep_view() == result.take(it.index()),
    {
        let ghost before = out.deep_view();
        out.push(entry.session);
        proof {
            assert(out.deep_view() =~= before.push(result[it.index() as int]));
            assert(out.deep_view() =~= result.take(it.index() + 1));
        }
    }
    assert(result.take(result.len() as int) =~= result);
    out
}

/// The sessions stand by their last timestamp, the latest first and those without one last; none is
/// added and none is lost.
pub proof fn recent_sessions_come_first(sessions: Seq<SessionView>, i: int, j: int)
    requires
        0 <= i < j < by_recency(sessions).len(),
    ensures
        newer_first(newest(by_recency(sessions)[i]), newest(by_recency(sessions)[j])),
        by_recency(sessions).to_multiset() == sessions.to_multiset(),
{
    let date = |s: SessionView| (newest(s), s);
    let leq = order::order_of::<Dated, ByRecency>();
    order::sorted_keeps_items(sessions, more_recent());
    order::sorted_of_map(sessions, date, more_recent(), leq);
    order::sorted_is_ascending::<Dated, ByRecency>(sessions.map_values(date));
    let dated = order::sorted(sessions.map_values(date), leq);
    assert(leq(dated[i], dated[j]));
}

// ---------------------------------------------------------------------------
// Summary
// ---------------------------------------------------------------------------

/// `path` as seen from the directory `base`; unchanged where it does not lie in it.
pub open spec fn relative_to(path: Seq<char>, base: Seq<char>) -> Seq<char> {
    if base.len() > 0 && text::begins_with(path, base + "/"@) {
        path.skip(base.len() as int + 1)
    } else {
        path
    }
}

/// `path` as seen from the directory `base`.
fn relative_path(path: &str, base: &str) -> (inner: String)
    ensures
        inner@ == relative_to(path@, base@),
{
    let prefix: String = base.to_owned().concat("/");
    proof {
        reveal_strlit("/");
    }
    if !base.is_empty() && has_prefix(path, prefix.as_str()) {
        let from: usize = prefix.as_str().unicode_len();
        let inner: &str = path.substring_char(from, path.unicode_len());
        assert(inner@ =~= path@.skip(base@.len() as int + 1));
        inner.to_owned()
    } else {
        path.to_owned()
    }
}

/// Whether the totals of a session can be represented.
pub open spec fn session_fits(session: SessionView) -> bool {
    &&& turn_messages(session.turns) <= usize::MAX
    &&& turn_input(session.turns) <= u64::MAX
    &&& turn_output(session.turns) <= u64::MAX
    &&& tally::countable(turn_tools(session.turns))
}

/// What a report says of a session. Files are named as seen from the project's directory.
pub open spec fn summary_of(session: SessionView) -> SessionSummaryView {
    SessionSummaryView {
        session_id: session.session_id,
        project: session.project,
        time_range: range_of(timestamps(session)),
        user_messages: session.prompts.len(),
        assistant_messages: turn_messages(session.turns),
        tool_usage: tally::tally(turn_tools(session.turns)),
        total_input_tokens: turn_input(session.turns),
        total_output_tokens: turn_output(session.turns),
        files_touched: text::sorted_distinct(
            turn_files(session.turns).map_values(
                |path: Seq<char>| relative_to(path, session.project_path),
            ),
        ),
    }
}

/// Sums up a session.
pub fn summarize_session(session: &RawSession) -> (summary: SessionSummary)
    requires
        session_fits(session.deep_view()),
    ensures
        summary.deep_view() == summary_of(session.deep_view()),
        tally::one_entry_each(summary.tool_usage.deep_view()),
{
    let ghost model = session.deep_view();
    proof {
        tally::tally_is_unique(turn_tools(model.turns));
    }
    let ghost none = Seq::<Seq<char>>::empty();
    let mut time_range: DateRange = DateRange::empty();
    widen_by_session(&mut time_range, session, Ghost(none));
    assert(none + timestamps(model) =~= timestamps(model));
    let mut tool_usage: CountTable = CountTable::new();
    assert(none + turn_tools(model.turns) =~= turn_tools(model.turns));
    record_tools(&mut tool_usage, &session.assistant_entries, Ghost(none));
    let (input, output): (u64, u64) = token_totals(&session.assistant_entries);
    let mut paths: Vec<String> = Vec::new();
    append_files(&mut paths, &session.assistant_entries);
    let ghost all = turn_files(model.turns);
    let ghost shorten = |path: Seq<char>| relative_to(path, model.project_path);
    assert(paths.deep_view() =~= all);
    let mut files: Vec<String> = Vec::new();
    assert(files.deep_view() =~= all.map_values(shorten).take(0));
    let mut i: usize = 0;
    while i < paths.len()
        invariant
            i <= paths.len(),
            paths.deep_view() == all,
            model == session.deep_view(),
            shorten == (|path: Seq<char>| relative_to(path, model.project_path)),
            files.deep_view() == all.map_values(shorten).take(i as int),
        decreases paths.len() - i,
    {
        let ghost before = files.deep_view();
        files.push(relative_path(paths[i].as_str(), session.project_path.as_str()));
        assert(all[i as int] == paths[i as int]@);
        assert(files.deep_view() =~= before.push(shorten(all[i as int])));
        i = i + 1;
        assert(files.deep_view() =~= all.map_values(shorten).take(i as int));
    }
    assert(all.map_values(shorten).take(i as int) =~= all.map_values(shorten));
    SessionSummary {
        session_id: session.session_id.clone(),
        project: session.project.clone(),
        time_range,
        message_counts: MessageCounts {
            user: session.user_entries.len(),
            assistant: assistant_message_count(&session.assistant_entries),
        },
        tool_usage,
        total_input_tokens: input,
        total_output_tokens: output,
        files_touched: sort_distinct(files),
    }
}

// ---------------------------------------------------------------------------
// Laws
// ---------------------------------------------------------------------------

/// The views of a session and of what it holds are its fields.
pub proof fn sessions_show_their_fields(
    session: RawSession,
    prompt: ParsedUserEntry,
    turn: ParsedAssistantEntry,
)
    ensures
        session.deep_view().session_id == session.session_id@,
        session.deep_view().project == session.project@,
        session.deep_view().project_path == session.project_path@,
        session.deep_view().git_branch is Some <==> session.git_branch is Some,
        session.git_branch matches Some(branch) ==> session.deep_view().git_branch == Some(branch@),
        session.deep_view().prompts.len() == session.user_entries.len(),
        forall|i: int|
            0 <= i < session.user_entries.len() ==> (
            #[trigger] session.deep_view().prompts[i]).timestamp
                == session.user_entries[i].timestamp@ && session.deep_view().prompts[i].text
                == session.user_entries[i].text@,
        session.deep_view().turns.len() == session.assistant_entries.len(),
        forall|i: int|
            0 <= i < session.assistant_entries.len() ==> #[trigger] session.deep_view().turns[i]
                == session.assistant_entries[i].deep_view(),
        prompt.deep_view().timestamp == prompt.timestamp@,
        prompt.deep_view().text == prompt.text@,
        turn.deep_view().timestamp == turn.timestamp@,
        turn.deep_view().message_count == turn.message_count,
        turn.deep_view().input_tokens == turn.input_tokens,
        turn.deep_view().output_tokens == turn.output_tokens,
        turn.deep_view().tool_uses.len() == turn.tool_uses.len(),
        forall|i: int|
            0 <= i < turn.tool_uses.len() ==> #[trigger] turn.deep_view().tool_uses[i]
                == turn.tool_uses[i]@,
        turn.deep_view().file_paths.len() == turn.file_paths.len(),
        forall|i: int|
            0 <= i < turn.file_paths.len() ==> #[trigger] turn.deep_view().file_paths[i]
                == turn.file_paths[i]@,
{
}

/// The views of a summary and of a range are their fields.
pub proof fn summaries_show_their_fields(summary: SessionSummary, range: DateRange)
    ensures
        summary.deep_view().session_id == summary.session_id@,
        summary.deep_view().project == summary.project@,
        summary.deep_view().time_range == summary.time_range.deep_view(),
        summary.deep_view().user_messages == summary.message_counts.user,
        summary.deep_view().assistant_messages == summary.message_counts.assistant,
        summary.deep_view().tool_usage == summary.tool_usage.deep_view(),
        summary.deep_view().total_input_tokens == summary.total_input_tokens,
        summary.deep_view().total_output_tokens == summary.total_output_tokens,
        summary.deep_view().files_touched.len() == summary.files_touched.len(),
        forall|i: int|
            0 <= i < summary.files_touched.len() ==> #[trigger] summary.deep_view().files_touched[i]
                == summary.files_touched[i]@,
        range.start is Some <==> range.deep_view().start is Some,
        range.end is Some <==> range.deep_view().end is Some,
        range.start matches Some(start) ==> range.deep_view().start == Some(start@),
        range.end matches Some(end) ==> range.deep_view().end == Some(end@),
{
}

/// Whether a prompt or a turn of the session has this timestamp.
pub open spec fn has_timestamp(session: SessionView, timestamp: Seq<char>) -> bool {
    ||| exists|i: int|
        0 <= i < session.prompts.len() && (#[trigger] session.prompts[i]).timestamp == timestamp
    ||| exists|i: int|
        0 <= i < session.turns.len() && (#[trigger] session.turns[i]).timestamp == timestamp
}

/// The timestamps of a session are those of its prompts and of its turns, one for each.
pub proof fn timestamps_are_those_of_both_sides(session: SessionView)
    ensures
        timestamps(session).len() == session.prompts.len() + session.turns.len(),
        forall|timestamp: Seq<char>| #[trigger]
            timestamps(session).contains(timestamp) <==> has_timestamp(session, timestamp),
{
    let all = timestamps(session);
    assert forall|timestamp: Seq<char>| #[trigger] all.contains(timestamp) <==> has_timestamp(
        session,
        timestamp,
    ) by {
        if all.contains(timestamp) {
            let k = choose|k: int| 0 <= k < all.len() && all[k] == timestamp;
            if k < session.prompts.len() {
                assert(session.prompts[k].timestamp == timestamp);
            } else {
                assert(session.turns[k - session.prompts.len()].timestamp == timestamp);
            }
        }
        if has_timestamp(session, timestamp) {
            if exists|i: int|
                0 <= i < session.prompts.len() && (#[trigger] session.prompts[i]).timestamp
                    == timestamp {
                let i = choose|i: int|
                    0 <= i < session.prompts.len() && (#[trigger] session.prompts[i]).timestamp
                        == timestamp;
                assert(all[i] == timestamp);
            } else {
                let i = choose|i: int|
                    0 <= i < session.turns.len() && (#[trigger] session.turns[i]).timestamp
                        == timestamp;
                assert(all[session.prompts.len() + i] == timestamp);
            }
        }
    }
}

/// What turns add up to is what each of them adds: its messages, its tokens on either side, its tools
/// and its files.
pub proof fn turns_add_up(turns: Seq<TurnView>, more: Seq<TurnView>, turn: TurnView)
    ensures
        turn_messages(turns + more) == turn_messages(turns) + turn_messages(more),
        turn_messages(seq![turn]) == turn.message_count,
        turn_input(turns + more) == turn_input(turns) + turn_input(more),
        turn_input(seq![turn]) == turn.input_tokens,
        turn_output(turns + more) == turn_output(turns) + turn_output(more),
        turn_output(seq![turn]) == turn.output_tokens,
        turn_tools(turns + more) == turn_tools(turns) + turn_tools(more),
        turn_tools(seq![turn]) == turn.tool_uses,
        turn_files(turns + more) == turn_files(turns) + turn_files(more),
        turn_files(seq![turn]) == turn.file_paths,
{
    lists::sum_by_of_parts(turns, more, turn, |t: TurnView| t.message_count);
    lists::sum_by_of_parts(turns, more, turn, |t: TurnView| t.input_tokens);
    lists::sum_by_of_parts(turns, more, turn, |t: TurnView| t.output_tokens);
    lists::flat_by_of_parts(turns, more, turn, |t: TurnView| t.tool_uses);
    lists::flat_by_of_parts(turns, more, turn, |t: TurnView| t.file_paths);
}

/// A file in a directory is named from there on, behind the slash. Any other path stays as it is, and
/// so does every path where the directory is not known.
pub proof fn relative_paths_start_in_the_directory(path: Seq<char>, base: Seq<char>)
    ensures
        forall|inner: Seq<char>|
            base.len() > 0 && path == #[trigger] (base + seq!['/'] + inner) ==> relative_to(path, base)
                == inner,
        base.len() == 0 ==> relative_to(path, base) == path,
        (forall|inner: Seq<char>| path != #[trigger] (base + seq!['/'] + inner)) ==> relative_to(
            path,
            base,
        ) == path,
{
    reveal_strlit("/");
    assert("/"@ =~= seq!['/']);
    let prefix = base + seq!['/'];
    text::begins_and_ends(path, prefix);
    assert forall|inner: Seq<char>|
        base.len() > 0 && path == #[trigger] (base + seq!['/'] + inner) implies relative_to(path, base)
        == inner by {
        assert(path == prefix + inner);
        assert(text::begins_with(path, base + "/"@));
        assert(path.skip(base.len() as int + 1) =~= inner);
    }
    if base.len() > 0 && text::begins_with(path, base + "/"@) {
        let inner = choose|behind: Seq<char>| path == #[trigger] (prefix + behind);
        assert(path == base + seq!['/'] + inner);
    }
}

/// Whether `file` is a path that a turn of the session worked on, as seen from its directory.
pub open spec fn worked_on(session: SessionView, file: Seq<char>) -> bool {
    exists|t: int, f: int|
        0 <= t < session.turns.len() && 0 <= f < session.turns[t].file_paths.len() && file
            == relative_to(#[trigger] session.turns[t].file_paths[f], session.project_path)
}

proof fn turn_files_members(turns: Seq<TurnView>, path: Seq<char>)
    ensures
        turn_files(turns).contains(path) <==> exists|t: int, f: int|
            0 <= t < turns.len() && 0 <= f < turns[t].file_paths.len()
                && #[trigger] turns[t].file_paths[f] == path,
{
    let files = |t: TurnView| t.file_paths;
    if turn_files(turns).contains(path) {
        lists::flat_by_members(turns, files, path);
        let t = choose|t: int| 0 <= t < turns.len() && files(#[trigger] turns[t]).contains(path);
        let f = choose|f: int|
            0 <= f < turns[t].file_paths.len() && turns[t].file_paths[f] == path;
        assert(turns[t].file_paths[f] == path);
    }
    if exists|t: int, f: int|
        0 <= t < turns.len() && 0 <= f < turns[t].file_paths.len()
            && #[trigger] turns[t].file_paths[f] == path {
        let (t, f) = choose|t: int, f: int|
            0 <= t < turns.len() && 0 <= f < turns[t].file_paths.len()
                && #[trigger] turns[t].file_paths[f] == path;
        lists::flat_by_has(turns, files, t, path);
    }
}

/// A summary has the name and the project of its session, the first and the last of its timestamps,
/// the number of its prompts, the messages and the tokens of its turns, how often each tool was used,
/// and the different files that the turns worked on, by name and as seen from the directory.
pub proof fn summaries_say_what_sessions_hold(session: SessionView)
    ensures
        ({
            let summary = summary_of(session);
            &&& summary.session_id == session.session_id
            &&& summary.project == session.project
            &&& summary.user_messages == session.prompts.len()
            &&& summary.assistant_messages == lists::sum_by(
                session.turns,
                |t: TurnView| t.message_count,
            )
            &&& summary.total_input_tokens == lists::sum_by(
                session.turns,
                |t: TurnView| t.input_tokens,
            )
            &&& summary.total_output_tokens == lists::sum_by(
                session.turns,
                |t: TurnView| t.output_tokens,
            )
            &&& tally::counts_names(
                summary.tool_usage,
                lists::flat_by(session.turns, |t: TurnView| t.tool_uses),
            )
            &&& text::strictly_ascending(summary.files_touched)
            &&& forall|file: Seq<char>| #[trigger]
                summary.files_touched.contains(file) <==> worked_on(session, file)
            &&& is_range(summary.time_range, |x: Seq<char>| has_timestamp(session, x))
        }),
{
    let summary = summary_of(session);
    let all = turn_files(session.turns);
    let shorten = |path: Seq<char>| relative_to(path, session.project_path);
    tally::tally_counts_names(turn_tools(session.turns));
    text::sorted_distinct_is_strict(all.map_values(shorten));
    assert forall|file: Seq<char>| #[trigger] summary.files_touched.contains(file) <==> worked_on(
        session,
        file,
    ) by {
        assert(summary.files_touched.contains(file) <==> all.map_values(shorten).contains(file));
        if all.map_values(shorten).contains(file) {
            let k = choose|k: int| 0 <= k < all.len() && all.map_values(shorten)[k] == file;
            assert(all.contains(all[k]));
            turn_files_members(session.turns, all[k]);
            let (t, f) = choose|t: int, f: int|
                0 <= t < session.turns.len() && 0 <= f < session.turns[t].file_paths.len()
                    && #[trigger] session.turns[t].file_paths[f] == all[k];
            assert(file == relative_to(session.turns[t].file_paths[f], session.project_path));
        }
        if worked_on(session, file) {
            let (t, f) = choose|t: int, f: int|
                0 <= t < session.turns.len() && 0 <= f < session.turns[t].file_paths.len() && file
                    == relative_to(#[trigger] session.turns[t].file_paths[f], session.project_path);
            let path = session.turns[t].file_paths[f];
            turn_files_members(session.turns, path);
            assert(session.turns[t].file_paths[f] == path);
            let k = choose|k: int| 0 <= k < all.len() && all[k] == path;
            assert(all.map_values(shorten)[k] == file);
        }
    }
    timestamps_are_those_of_both_sides(session);
    range_is_first_to_last(timestamps(session), |x: Seq<char>| has_timestamp(session, x));
}

/// Whether a range goes from the first of the texts with the property `p` in dictionary order to the
/// last, and is open at both ends exactly where there are none.
pub open spec fn is_range(range: RangeView, p: spec_fn(Seq<char>) -> bool) -> bool {
    &&& range.start is Some <==> exists|x: Seq<char>| #[trigger] p(x)
    &&& range.end is Some <==> exists|x: Seq<char>| #[trigger] p(x)
    &&& range.start matches Some(first) ==> p(first) && forall|x: Seq<char>| #[trigger]
        p(x) ==> text::text_leq(first, x)
    &&& range.end matches Some(last) ==> p(last) && forall|x: Seq<char>| #[trigger]
        p(x) ==> text::text_leq(x, last)
}

/// The range of some texts goes from the first of them to the last.
pub proof fn range_is_first_to_last(texts: Seq<Seq<char>>, p: spec_fn(Seq<char>) -> bool)
    requires
        forall|x: Seq<char>| #[trigger] texts.contains(x) <==> p(x),
    ensures
        is_range(range_of(texts), p),
{
    let range = range_of(texts);
    range_of_bounds(texts);
    if texts.len() > 0 {
        assert(texts.contains(texts[0]));
        assert(p(texts[0]));
        assert(texts.contains(range.start->0) && texts.contains(range.end->0));
    }
    assert forall|x: Seq<char>| #[trigger] p(x) implies texts.len() > 0 && text::text_leq(
        range.start->0,
        x,
    ) && text::text_leq(x, range.end->0) by {
        assert(texts.contains(x));
        let k = choose|k: int| 0 <= k < texts.len() && texts[k] == x;
        assert(text::text_leq(range.start->0, texts[k]));
        assert(text::text_leq(texts[k], range.end->0));
    }
}

/// The later its last timestamp, the further ahead a session stands, and sessions without timestamps
/// stand last: each timestamp of a session is at or before one of every session ahead of it.
pub proof fn later_sessions_come_first(sessions: Seq<SessionView>, i: int, j: int, x: Seq<char>)
    requires
        0 <= i < j < by_recency(sessions).len(),
        has_timestamp(by_recency(sessions)[j], x),
    ensures
        exists|y: Seq<char>| #[trigger]
            has_timestamp(by_recency(sessions)[i], y) && text::text_leq(x, y),
{
    let a = by_recency(sessions)[i];
    let b = by_recency(sessions)[j];
    recent_sessions_come_first(sessions, i, j);
    timestamps_are_those_of_both_sides(a);
    timestamps_are_those_of_both_sides(b);
    range_of_bounds(timestamps(a));
    range_of_bounds(timestamps(b));
    assert(timestamps(b).contains(x));
    let k = choose|k: int| 0 <= k < timestamps(b).len() && timestamps(b)[k] == x;
    assert(range_of(timestamps(a)).end == newest(a) && range_of(timestamps(b)).end == newest(b));
    let last = newest(b)->0;
    let y = newest(a)->0;
    assert(text::text_leq(timestamps(b)[k], last));
    text::text_leq_transitive(x, last, y);
    assert(timestamps(a).contains(y));
    assert(has_timestamp(a, y));
}

/// Sorting by recency neither adds a session nor loses one, and sessions whose last timestamp is the
/// same keep their order.
pub proof fn recency_keeps_ties(sessions: Seq<SessionView>, x: SessionView)
    ensures
        by_recency(sessions).to_multiset() == sessions.to_multiset(),
        by_recency(sessions).len() == sessions.len(),
        by_recency(sessions).filter(|s: SessionView| newest(s) == newest(x)) == sessions.filter(
            |s: SessionView| newest(s) == newest(x),
        ),
{
    let date = |s: SessionView| (newest(s), s);
    let same = |s: SessionView| newest(s) == newest(x);
    let leq = order::order_of::<Dated, ByRecency>();
    let level = order::level_with::<Dated, ByRecency>((newest(x), x));
    order::sorted_keeps_items(sessions, more_recent());
    order::sorted_of_map(sessions, date, more_recent(), leq);
    order::sorted_is_stable::<Dated, ByRecency>(sessions.map_values(date), (newest(x), x));
    assert forall|s: SessionView| #[trigger] same(s) == level(date(s)) by {
        if newest(s) is Some && newest(x) is Some {
            if level(date(s)) {
                text::text_leq_antisymmetric(newest(s)->0, newest(x)->0);
            }
            text::text_leq_total(newest(s)->0, newest(s)->0);
        }
    }
    lists::filter_of_map(sessions, date, same, level);
    lists::filter_of_map(by_recency(sessions), date, same, level);
    let a = by_recency(sessions).filter(same);
    let b = sessions.filter(same);
    assert(a.map_values(date) == b.map_values(date));
    assert(a.map_values(date).len() == a.len() && b.map_values(date).len() == b.len());
    assert forall|k: int| 0 <= k < a.len() implies a[k] == b[k] by {
        assert(a.map_values(date)[k] == date(a[k]));
        assert(b.map_values(date)[k] == date(b[k]));
    }
    assert(a =~= b);
}

} // verus!
