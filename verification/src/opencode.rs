//! The history of opencode.
//!
//! opencode keeps its sessions in SQLite databases with the tables `project`, `session`, `message`
//! and `part`. The rows are read elsewhere; here they become sessions.

use crate::clock;
use crate::filter::DateFilter;
use crate::focus;
use crate::json;
use crate::lists;
use crate::messages;
use crate::messages::{
    cut_to_seconds, read_message, read_part, truncate, ContentView, Message, MessageRole,
    MessageRow, MessageRowView, MessageView, Part, PartContent, PartRow, PartRowView, PartView,
    MAX_PROMPT_LEN,
};
use crate::order;
use crate::order::Order;
use crate::projects;
use crate::projects::{
    load_session_meta, MetaView, ProjectRow, ProjectRowView, SessionMeta, SessionRow,
    SessionRowView,
};
use crate::session;
use crate::session::{
    append_texts, ParsedAssistantEntry, ParsedUserEntry, PromptView, RawSession, SessionView,
    TurnView,
};
use crate::text;
use crate::text::{join, same_text, sort_distinct, text_at_or_before};
use vstd::hash_map::StringHashMap;
use vstd::prelude::*;
use vstd::string::*;

verus! {

// ---------------------------------------------------------------------------
// Rows
// ---------------------------------------------------------------------------

/// The rows of a database. Messages and parts stand by session, time and name.
pub struct HistoryRows {
    pub projects: Vec<ProjectRow>,
    pub sessions: Vec<SessionRow>,
    pub messages: Vec<MessageRow>,
    pub parts: Vec<PartRow>,
}

/// The rows of a database.
#[verifier::ext_equal]
pub struct RowsView {
    pub projects: Seq<ProjectRowView>,
    pub sessions: Seq<SessionRowView>,
    pub messages: Seq<MessageRowView>,
    pub parts: Seq<PartRowView>,
}

impl DeepView for HistoryRows {
    type V = RowsView;

    open spec fn deep_view(&self) -> RowsView {
        RowsView {
            projects: self.projects.deep_view(),
            sessions: self.sessions.deep_view(),
            messages: self.messages.deep_view(),
            parts: self.parts.deep_view(),
        }
    }
}

// ---------------------------------------------------------------------------
// From messages and parts to sessions
// ---------------------------------------------------------------------------

/// The names of the sessions.
pub open spec fn meta_ids(metas: Seq<MetaView>) -> Seq<Seq<char>> {
    metas.map_values(|meta: MetaView| meta.id)
}

/// Which messages are collected: those of a known session in the time that the filter lets pass.
pub open spec fn is_kept(metas: Seq<MetaView>, filter: DateFilter) -> spec_fn(MessageView) -> bool {
    |m: MessageView| meta_ids(metas).contains(m.session_id) && filter.includes(m.seconds)
}

/// The names of the sessions, as a table.
fn known_sessions(metas: &Vec<SessionMeta>) -> (known: StringHashMap<usize>)
    ensures
        forall|id: Seq<char>| #[trigger]
            known@.contains_key(id) <==> meta_ids(metas.deep_view()).contains(id),
{
    let ghost ids = meta_ids(metas.deep_view());
    let mut known: StringHashMap<usize> = StringHashMap::new();
    let mut i: usize = 0;
    while i < metas.len()
        invariant
            i <= metas.len(),
            ids == meta_ids(metas.deep_view()),
            forall|id: Seq<char>| #[trigger]
                known@.contains_key(id) <==> exists|k: int| 0 <= k < i && ids[k] == id,
        decreases metas.len() - i,
    {
        let ghost before = known@;
        assert(ids[i as int] == metas[i as int].id@);
        known.insert(metas[i].id.clone(), i);
        proof {
            assert forall|id: Seq<char>| #[trigger] known@.contains_key(id) <==> exists|k: int|
                0 <= k < i + 1 && ids[k] == id by {
                if before.contains_key(id) {
                    let k = choose|k: int| 0 <= k < i && ids[k] == id;
                    assert(0 <= k < i + 1 && ids[k] == id);
                }
                if id == ids[i as int] {
                    assert(0 <= i < i + 1 && ids[i as int] == id);
                }
            }
        }
        i = i + 1;
    }
    known
}

/// Reads the messages that are collected. Rows that cannot be placed in time, or whose data are no
/// JSON, are left out.
pub fn read_messages(
    rows: &Vec<MessageRow>,
    metas: &Vec<SessionMeta>,
    filter: &DateFilter,
) -> (messages: Vec<Message>)
    ensures
        messages.deep_view() == messages::messages_in(rows.deep_view()).filter(
            is_kept(metas.deep_view(), *filter),
        ),
        messages::in_four_digit_years(rows.deep_view()) ==> messages::are_readable(messages.deep_view()),
{
    let ghost all = rows.deep_view();
    let ghost p = is_kept(metas.deep_view(), *filter);
    let known: StringHashMap<usize> = known_sessions(metas);
    let mut messages: Vec<Message> = Vec::new();
    let mut i: usize = 0;
    proof {
        reveal(Seq::filter);
        assert(messages.deep_view() =~= messages::messages_in(all.take(0)).filter(p));
    }
    while i < rows.len()
        invariant
            i <= rows.len(),
            all == rows.deep_view(),
            p == is_kept(metas.deep_view(), *filter),
            forall|id: Seq<char>| #[trigger]
                known@.contains_key(id) <==> meta_ids(metas.deep_view()).contains(id),
            messages.deep_view() == messages::messages_in(all.take(i as int)).filter(p),
            messages::in_four_digit_years(all) ==> messages::are_readable(messages.deep_view()),
        decreases rows.len() - i,
    {
        let ghost before = messages.deep_view();
        let row = &rows[i];
        let ghost front = messages::messages_in(all.take(i as int));
        proof {
            reveal(Seq::filter);
            assert(all[i as int] == row.deep_view());
            assert(all.take(i + 1).drop_last() =~= all.take(i as int));
            assert(all.take(i + 1).last() == row.deep_view());
            if let Some(m) = messages::message_in(row.deep_view()) {
                assert(front.push(m).drop_last() =~= front);
            }
        }
        let secs: i64 = cut_to_seconds(row.time_created_ms);
        if known.contains_key(row.session_id.as_str()) && filter.matches_unix_seconds(secs) {
            if let Some(message) = read_message(row) {
                let ghost model = message.deep_view();
                messages.push(message);
                assert(messages.deep_view() =~= before.push(model));
            }
        }
        i = i + 1;
    }
    assert(all.take(i as int) =~= all);
    messages
}

/// Which parts belong to one of `messages`.
pub open spec fn belongs(messages: Seq<MessageView>) -> spec_fn(PartView) -> bool {
    |p: PartView| holder(messages, p.message_id) is Some
}

/// The message that a part with the name `id` for its message belongs to: the last one with that
/// name.
pub open spec fn holder(messages: Seq<MessageView>, id: Seq<char>) -> Option<int>
    decreases messages.len(),
{
    if messages.len() == 0 {
        None
    } else if messages.last().id == id {
        Some(messages.len() - 1)
    } else {
        holder(messages.drop_last(), id)
    }
}

/// The words that a part adds to message `k`: only to one of the user.
pub open spec fn words_for(messages: Seq<MessageView>, part: PartView, k: int) -> Seq<Seq<char>> {
    match part.content {
        ContentView::Text(text) if holder(messages, part.message_id) == Some(k) && messages[k].role
            is User => seq![text],
        _ => Seq::empty(),
    }
}

/// The tools that a part adds to message `k`: only to one of the assistant.
pub open spec fn tools_for(messages: Seq<MessageView>, part: PartView, k: int) -> Seq<Seq<char>> {
    match part.content {
        ContentView::Tool { name, file_paths } if holder(messages, part.message_id) == Some(k)
            && messages[k].role is Assistant => seq![name],
        _ => Seq::empty(),
    }
}

/// The files that a part adds to message `k`: only to one of the assistant.
pub open spec fn files_for(messages: Seq<MessageView>, part: PartView, k: int) -> Seq<Seq<char>> {
    match part.content {
        ContentView::Tool { name, file_paths } if holder(messages, part.message_id) == Some(k)
            && messages[k].role is Assistant => file_paths,
        _ => Seq::empty(),
    }
}

/// The words that the parts add to message `k`.
pub open spec fn words_of(
    messages: Seq<MessageView>,
    parts: Seq<PartView>,
    k: int,
) -> Seq<Seq<char>> {
    lists::flat_by(parts, |p: PartView| words_for(messages, p, k))
}

/// The tools that the parts add to message `k`.
pub open spec fn tools_of(
    messages: Seq<MessageView>,
    parts: Seq<PartView>,
    k: int,
) -> Seq<Seq<char>> {
    lists::flat_by(parts, |p: PartView| tools_for(messages, p, k))
}

/// The files that the parts add to message `k`.
pub open spec fn files_of(
    messages: Seq<MessageView>,
    parts: Seq<PartView>,
    k: int,
) -> Seq<Seq<char>> {
    lists::flat_by(parts, |p: PartView| files_for(messages, p, k))
}

/// The messages with words of the user, in the order in which their first words come.
pub open spec fn prompts_in(messages: Seq<MessageView>, parts: Seq<PartView>) -> Seq<int>
    decreases parts.len(),
{
    if parts.len() == 0 {
        Seq::empty()
    } else {
        let front = parts.drop_last();
        match holder(messages, parts.last().message_id) {
            Some(k) if words_for(messages, parts.last(), k).len() > 0 && words_of(
                messages,
                front,
                k,
            ).len() == 0 => prompts_in(messages, front).push(k),
            _ => prompts_in(messages, front),
        }
    }
}

/// The prompt that message `k` is: its words, line by line.
pub open spec fn prompt_of(messages: Seq<MessageView>, parts: Seq<PartView>, k: int) -> PromptView {
    PromptView {
        timestamp: messages[k].timestamp,
        text: messages::truncated(
            text::joined(words_of(messages, parts, k), "\n"@),
            MAX_PROMPT_LEN as nat,
        ),
    }
}

/// The turn that message `k` is.
pub open spec fn turn_of(messages: Seq<MessageView>, parts: Seq<PartView>, k: int) -> TurnView {
    TurnView {
        timestamp: messages[k].timestamp,
        message_count: 1,
        tool_uses: tools_of(messages, parts, k),
        input_tokens: messages[k].role->input_tokens,
        output_tokens: messages[k].role->output_tokens,
        file_paths: text::sorted_distinct(files_of(messages, parts, k)),
    }
}

/// Prompts by their time.
pub struct ByTime;

impl Order<ParsedUserEntry> for ByTime {
    open spec fn leq(a: PromptView, b: PromptView) -> bool {
        text::text_leq(a.timestamp, b.timestamp)
    }

    fn at_or_before(a: &ParsedUserEntry, b: &ParsedUserEntry) -> (answer: bool) {
        text_at_or_before(a.timestamp.as_str(), b.timestamp.as_str())
    }

    proof fn total(a: PromptView, b: PromptView) {
        text::text_leq_total(a.timestamp, b.timestamp);
    }

    proof fn transitive(a: PromptView, b: PromptView, c: PromptView) {
        text::text_leq_transitive(a.timestamp, b.timestamp, c.timestamp);
    }
}

/// The prompts at the places `at` that belong to the session `id`.
pub open spec fn prompts_at(
    messages: Seq<MessageView>,
    parts: Seq<PartView>,
    at: Seq<int>,
    id: Seq<char>,
) -> Seq<PromptView>
    decreases at.len(),
{
    if at.len() == 0 {
        Seq::empty()
    } else if messages[at.last()].session_id == id {
        prompts_at(messages, parts, at.drop_last(), id).push(prompt_of(messages, parts, at.last()))
    } else {
        prompts_at(messages, parts, at.drop_last(), id)
    }
}

/// The prompts of the session `id`, by their time.
pub open spec fn session_prompts(
    messages: Seq<MessageView>,
    parts: Seq<PartView>,
    id: Seq<char>,
) -> Seq<PromptView> {
    order::sorted(
        prompts_at(messages, parts, prompts_in(messages, parts), id),
        order::order_of::<ParsedUserEntry, ByTime>(),
    )
}

/// The turns among the first `n` messages that belong to the session `id`.
pub open spec fn turns_among(
    messages: Seq<MessageView>,
    parts: Seq<PartView>,
    n: nat,
    id: Seq<char>,
) -> Seq<TurnView>
    decreases n,
{
    if n == 0 {
        Seq::empty()
    } else {
        let k = n - 1;
        if messages[k].session_id == id && messages[k].role is Assistant {
            turns_among(messages, parts, k as nat, id).push(turn_of(messages, parts, k))
        } else {
            turns_among(messages, parts, k as nat, id)
        }
    }
}

/// The session that the messages and parts make of `meta`.
pub open spec fn session_from(
    meta: MetaView,
    messages: Seq<MessageView>,
    parts: Seq<PartView>,
) -> SessionView {
    SessionView {
        session_id: meta.id,
        project: meta.project,
        project_path: meta.project_path,
        git_branch: None,
        prompts: session_prompts(messages, parts, meta.id),
        turns: turns_among(messages, parts, messages.len(), meta.id),
    }
}

/// Which sessions hold something.
pub open spec fn is_used() -> spec_fn(SessionView) -> bool {
    |s: SessionView| s.prompts.len() > 0 || s.turns.len() > 0
}

/// The time of the last prompt; an empty text where there is none.
pub open spec fn last_prompt(s: SessionView) -> Seq<char> {
    if s.prompts.len() == 0 {
        ""@
    } else {
        s.prompts.last().timestamp
    }
}

/// Sessions by their last prompt, the latest first.
pub struct ByLastPrompt;

/// The time of the last prompt of `session`.
fn last_prompt_time(session: &RawSession) -> (time: &str)
    ensures
        time@ == last_prompt(session.deep_view()),
{
    let count: usize = session.user_entries.len();
    if count == 0 {
        ""
    } else {
        assert(session.deep_view().prompts.last() == session.user_entries[count - 1].deep_view());
        session.user_entries[count - 1].timestamp.as_str()
    }
}

impl Order<RawSession> for ByLastPrompt {
    open spec fn leq(a: SessionView, b: SessionView) -> bool {
        text::text_leq(last_prompt(b), last_prompt(a))
    }

    fn at_or_before(a: &RawSession, b: &RawSession) -> (answer: bool) {
        text_at_or_before(last_prompt_time(b), last_prompt_time(a))
    }

    proof fn total(a: SessionView, b: SessionView) {
        text::text_leq_total(last_prompt(a), last_prompt(b));
    }

    proof fn transitive(a: SessionView, b: SessionView, c: SessionView) {
        text::text_leq_transitive(last_prompt(c), last_prompt(b), last_prompt(a));
    }
}

/// The sessions that hold something, by their last prompt, the latest first. Those of one time keep
/// the order of `metas`.
pub open spec fn sessions_from(
    metas: Seq<MetaView>,
    messages: Seq<MessageView>,
    parts: Seq<PartView>,
    filter: DateFilter,
) -> Seq<SessionView> {
    let kept = messages.filter(is_kept(metas, filter));
    order::sorted(
        metas.map_values(|meta: MetaView| session_from(meta, kept, parts)).filter(is_used()),
        order::order_of::<RawSession, ByLastPrompt>(),
    )
}

/// Whether `kept` holds the places in `all` at which the items of `model` stand.
spec fn places(kept: Seq<usize>, all: Seq<MessageView>, model: Seq<MessageView>) -> bool {
    kept.len() == model.len() && forall|k: int|
        0 <= k < model.len() ==> (#[trigger] kept[k]) < all.len() && all[kept[k] as int] == model[k]
}

/// The places of the messages that are collected.
fn keep_messages(
    metas: &Vec<SessionMeta>,
    messages: &Vec<Message>,
    filter: &DateFilter,
) -> (kept: Vec<usize>)
    ensures
        places(
            kept@,
            messages.deep_view(),
            messages.deep_view().filter(is_kept(metas.deep_view(), *filter)),
        ),
{
    let ghost all = messages.deep_view();
    let ghost ids = meta_ids(metas.deep_view());
    let ghost p = is_kept(metas.deep_view(), *filter);
    let known: StringHashMap<usize> = known_sessions(metas);
    let mut kept: Vec<usize> = Vec::new();
    let mut i: usize = 0;
    proof {
        reveal(Seq::filter);
        assert(all.take(0).filter(p) =~= Seq::empty());
    }
    while i < messages.len()
        invariant
            i <= messages.len(),
            all == messages.deep_view(),
            ids == meta_ids(metas.deep_view()),
            p == is_kept(metas.deep_view(), *filter),
            forall|id: Seq<char>| #[trigger] known@.contains_key(id) <==> ids.contains(id),
            places(kept@, all, all.take(i as int).filter(p)),
        decreases messages.len() - i,
    {
        let message = &messages[i];
        let is_known: bool = known.contains_key(message.session_id.as_str());
        proof {
            assert(all[i as int] == message.deep_view());
            lists::filter_step(all, i as int, p);
            assert(is_known == ids.contains(message.session_id@));
        }
        if is_known && filter.matches_unix_seconds(message.seconds) {
            kept.push(i);
        }
        i = i + 1;
    }
    assert(all.take(i as int) =~= all);
    kept
}

/// Whether `index` leads from names to the messages that hold their parts.
spec fn is_index(index: Map<Seq<char>, usize>, model: Seq<MessageView>) -> bool {
    forall|id: Seq<char>|
        match #[trigger] holder(model, id) {
            Some(k) => index.contains_key(id) && index[id] == k,
            None => !index.contains_key(id),
        }
}

/// Makes the index from names to messages.
fn index_messages(
    messages: &Vec<Message>,
    kept: &Vec<usize>,
    Ghost(model): Ghost<Seq<MessageView>>,
) -> (index: StringHashMap<usize>)
    requires
        places(kept@, messages.deep_view(), model),
    ensures
        is_index(index@, model),
{
    let mut index: StringHashMap<usize> = StringHashMap::new();
    let mut i: usize = 0;
    while i < kept.len()
        invariant
            i <= kept.len(),
            places(kept@, messages.deep_view(), model),
            is_index(index@, model.take(i as int)),
        decreases kept.len() - i,
    {
        let ghost before = index@;
        let ghost next = model.take(i + 1);
        proof {
            assert(kept[i as int] < messages.len());
            assert(model[i as int] == messages[kept[i as int] as int].deep_view());
            assert(next.drop_last() =~= model.take(i as int));
        }
        index.insert(messages[kept[i]].id.clone(), i);
        proof {
            assert forall|id: Seq<char>|
                match #[trigger] holder(next, id) {
                    Some(k) => index@.contains_key(id) && index@[id] == k,
                    None => !index@.contains_key(id),
                } by {
                if id != next.last().id {
                    assert(holder(next, id) == holder(model.take(i as int), id));
                }
            }
        }
        i = i + 1;
    }
    assert(model.take(i as int) =~= model);
    index
}

/// A part belongs to one of the messages.
proof fn holder_bound(messages: Seq<MessageView>, id: Seq<char>)
    ensures
        holder(messages, id) matches Some(k) ==> 0 <= k < messages.len() && messages[k].id == id,
    decreases messages.len(),
{
    if messages.len() > 0 {
        holder_bound(messages.drop_last(), id);
    }
}

/// Reads the parts of `messages`. A part whose data are no JSON adds nothing.
pub fn read_parts(rows: &Vec<PartRow>, messages: &Vec<Message>) -> (parts: Vec<Part>)
    ensures
        parts.deep_view() == messages::parts_in(rows.deep_view()).filter(belongs(messages.deep_view())),
{
    let ghost all = messages::parts_in(rows.deep_view());
    let ghost model = messages.deep_view();
    let mut places: Vec<usize> = Vec::new();
    let mut k: usize = 0;
    while k < messages.len()
        invariant
            k <= messages.len(),
            places.len() == k,
            forall|j: int| 0 <= j < k ==> (#[trigger] places@[j]) == j,
        decreases messages.len() - k,
    {
        places.push(k);
        k = k + 1;
    }
    let index: StringHashMap<usize> = index_messages(messages, &places, Ghost(model));
    let mut parts: Vec<Part> = Vec::new();
    let mut i: usize = 0;
    proof {
        reveal(Seq::filter);
        assert(parts.deep_view() =~= all.take(0).filter(belongs(model)));
    }
    while i < rows.len()
        invariant
            i <= rows.len(),
            all == messages::parts_in(rows.deep_view()),
            is_index(index@, model),
            parts.deep_view() == all.take(i as int).filter(belongs(model)),
        decreases rows.len() - i,
    {
        let ghost before = parts.deep_view();
        proof {
            assert(all[i as int] == messages::part_in(rows[i as int].deep_view()));
            lists::filter_step(all, i as int, belongs(model));
            assert(holder(model, rows[i as int].message_id@) is Some <==> index@.contains_key(
                rows[i as int].message_id@,
            ));
        }
        if index.contains_key(rows[i].message_id.as_str()) {
            parts.push(read_part(&rows[i]));
            assert(parts.deep_view() =~= before.push(all[i as int]));
        }
        i = i + 1;
    }
    assert(all.take(i as int) =~= all);
    parts
}

/// What the parts add to each message, and the messages with words in the order of their first ones.
struct Gathered {
    words: Vec<Vec<String>>,
    tools: Vec<Vec<String>>,
    files: Vec<Vec<String>>,
    prompts: Vec<usize>,
}

impl Gathered {
    /// Whether this is what `parts` add to `messages`.
    spec fn stems_from(self, messages: Seq<MessageView>, parts: Seq<PartView>) -> bool {
        &&& self.words.len() == messages.len()
        &&& self.tools.len() == messages.len()
        &&& self.files.len() == messages.len()
        &&& forall|k: int|
            0 <= k < messages.len() ==> (#[trigger] self.words@[k]).deep_view() == words_of(
                messages,
                parts,
                k,
            )
        &&& forall|k: int|
            0 <= k < messages.len() ==> (#[trigger] self.tools@[k]).deep_view() == tools_of(
                messages,
                parts,
                k,
            )
        &&& forall|k: int|
            0 <= k < messages.len() ==> (#[trigger] self.files@[k]).deep_view() == files_of(
                messages,
                parts,
                k,
            )
        &&& self.prompts@.map_values(|k: usize| k as int) == prompts_in(messages, parts)
    }

    /// What no parts add to `count` messages.
    fn empty(count: usize, Ghost(messages): Ghost<Seq<MessageView>>) -> (gathered: Gathered)
        requires
            count == messages.len(),
        ensures
            gathered.stems_from(messages, Seq::empty()),
    {
        let mut words: Vec<Vec<String>> = Vec::new();
        let mut tools: Vec<Vec<String>> = Vec::new();
        let mut files: Vec<Vec<String>> = Vec::new();
        let mut i: usize = 0;
        while i < count
            invariant
                i <= count,
                words.len() == i,
                tools.len() == i,
                files.len() == i,
                forall|k: int| 0 <= k < i ==> (#[trigger] words@[k]).deep_view() =~= Seq::<Seq<char>>::empty(),
                forall|k: int| 0 <= k < i ==> (#[trigger] tools@[k]).deep_view() =~= Seq::<Seq<char>>::empty(),
                forall|k: int| 0 <= k < i ==> (#[trigger] files@[k]).deep_view() =~= Seq::<Seq<char>>::empty(),
            decreases count - i,
        {
            words.push(Vec::new());
            tools.push(Vec::new());
            files.push(Vec::new());
            i = i + 1;
        }
        let gathered = Gathered { words, tools, files, prompts: Vec::new() };
        assert(gathered.prompts@.map_values(|k: usize| k as int) =~= prompts_in(
            messages,
            Seq::empty(),
        ));
        gathered
    }
}

/// What a part adds to a message is nothing unless the message holds it.
proof fn only_holder_gains(messages: Seq<MessageView>, parts: Seq<PartView>, i: int, k: int)
    requires
        0 <= i < parts.len(),
    ensures
        words_of(messages, parts.take(i + 1), k) == words_of(messages, parts.take(i), k)
            + words_for(messages, parts[i], k),
        tools_of(messages, parts.take(i + 1), k) == tools_of(messages, parts.take(i), k)
            + tools_for(messages, parts[i], k),
        files_of(messages, parts.take(i + 1), k) == files_of(messages, parts.take(i), k)
            + files_for(messages, parts[i], k),
        holder(messages, parts[i].message_id) != Some(k) ==> words_of(
            messages,
            parts.take(i + 1),
            k,
        ) == words_of(messages, parts.take(i), k) && tools_of(messages, parts.take(i + 1), k)
            == tools_of(messages, parts.take(i), k) && files_of(messages, parts.take(i + 1), k)
            == files_of(messages, parts.take(i), k),
{
    lists::flat_by_step(parts, i, |p: PartView| words_for(messages, p, k));
    lists::flat_by_step(parts, i, |p: PartView| tools_for(messages, p, k));
    lists::flat_by_step(parts, i, |p: PartView| files_for(messages, p, k));
    assert(words_of(messages, parts.take(i), k) + Seq::<Seq<char>>::empty() =~= words_of(
        messages,
        parts.take(i),
        k,
    ));
    assert(tools_of(messages, parts.take(i), k) + Seq::<Seq<char>>::empty() =~= tools_of(
        messages,
        parts.take(i),
        k,
    ));
    assert(files_of(messages, parts.take(i), k) + Seq::<Seq<char>>::empty() =~= files_of(
        messages,
        parts.take(i),
        k,
    ));
}

/// Adds `text` to the list at place `k`.
fn push_at(lists: &mut Vec<Vec<String>>, k: usize, text: String)
    requires
        k < old(lists).len(),
    ensures
        final(lists).len() == old(lists).len(),
        final(lists)@[k as int].deep_view() == old(lists)@[k as int].deep_view().push(text@),
        forall|j: int|
            0 <= j < old(lists).len() && j != k ==> #[trigger] final(lists)@[j] == old(lists)@[j],
{
    let ghost before = lists@[k as int].deep_view();
    lists[k].push(text);
    assert(lists@[k as int].deep_view() =~= before.push(text@));
}

/// Adds what part `i` adds to the message `k` that holds it.
fn add_part(
    gathered: &mut Gathered,
    part: &Part,
    role: &MessageRole,
    k: usize,
    Ghost(messages): Ghost<Seq<MessageView>>,
    Ghost(parts): Ghost<Seq<PartView>>,
    Ghost(i): Ghost<int>,
)
    requires
        0 <= i < parts.len(),
        parts[i] == part.deep_view(),
        k < messages.len(),
        messages[k as int].role == role.deep_view(),
        holder(messages, part.message_id@) == Some(k as int),
        old(gathered).stems_from(messages, parts.take(i)),
    ensures
        final(gathered).stems_from(messages, parts.take(i + 1)),
{
    let ghost before = *gathered;
    let ghost next = parts.take(i + 1);
    proof {
        assert(next.drop_last() =~= parts.take(i));
        assert(next.last() == parts[i]);
        assert forall|j: int| 0 <= j < messages.len() implies words_of(messages, next, j)
            == #[trigger] words_of(messages, parts.take(i), j) + words_for(messages, parts[i], j) by {
            only_holder_gains(messages, parts, i, j);
        }
        assert forall|j: int| 0 <= j < messages.len() implies tools_of(messages, next, j)
            == #[trigger] tools_of(messages, parts.take(i), j) + tools_for(messages, parts[i], j) by {
            only_holder_gains(messages, parts, i, j);
        }
        assert forall|j: int| 0 <= j < messages.len() implies files_of(messages, next, j)
            == #[trigger] files_of(messages, parts.take(i), j) + files_for(messages, parts[i], j) by {
            only_holder_gains(messages, parts, i, j);
        }
        assert(forall|s: Seq<Seq<char>>| #[trigger] (s + Seq::<Seq<char>>::empty()) =~= s);
        assert(before.words@[k as int].deep_view() == words_of(messages, parts.take(i), k as int));
        assert(before.tools@[k as int].deep_view() == tools_of(messages, parts.take(i), k as int));
        assert(before.files@[k as int].deep_view() == files_of(messages, parts.take(i), k as int));
    }
    match (role, &part.content) {
        (MessageRole::User, PartContent::Text(text)) => {
            if gathered.words[k].len() == 0 {
                gathered.prompts.push(k);
                assert(gathered.prompts@.map_values(|k: usize| k as int)
                    =~= before.prompts@.map_values(|k: usize| k as int).push(k as int));
            }
            push_at(&mut gathered.words, k, text.clone());
            assert(gathered.words@[k as int].deep_view() =~= words_of(
                messages,
                parts.take(i),
                k as int,
            ) + seq![text@]);
        },
        (MessageRole::Assistant { .. }, PartContent::Tool { name, file_paths }) => {
            push_at(&mut gathered.tools, k, name.clone());
            assert(gathered.tools@[k as int].deep_view() =~= tools_of(
                messages,
                parts.take(i),
                k as int,
            ) + seq![name@]);
            append_texts(&mut gathered.files[k], file_paths);
        },
        _ => {},
    }
}

/// Gathers what the parts add to the messages.
fn gather_parts(
    messages: &Vec<Message>,
    kept: &Vec<usize>,
    parts: &Vec<Part>,
    Ghost(model): Ghost<Seq<MessageView>>,
) -> (gathered: Gathered)
    requires
        places(kept@, messages.deep_view(), model),
    ensures
        gathered.stems_from(model, parts.deep_view()),
{
    let ghost all = parts.deep_view();
    let index: StringHashMap<usize> = index_messages(messages, kept, Ghost(model));
    let mut gathered: Gathered = Gathered::empty(kept.len(), Ghost(model));
    let mut i: usize = 0;
    assert(all.take(0) =~= Seq::empty());
    while i < parts.len()
        invariant
            i <= parts.len(),
            all == parts.deep_view(),
            places(kept@, messages.deep_view(), model),
            is_index(index@, model),
            gathered.stems_from(model, all.take(i as int)),
        decreases parts.len() - i,
    {
        let part = &parts[i];
        proof {
            assert(all[i as int] == part.deep_view());
            assert(all.take(i + 1).drop_last() =~= all.take(i as int));
            assert(all.take(i + 1).last() == part.deep_view());
            holder_bound(model, part.message_id@);
        }
        match index.get(part.message_id.as_str()) {
            Some(k) => {
                proof {
                    assert(holder(model, part.message_id@) == Some(*k as int));
                    assert(kept[*k as int] < messages.len());
                    assert(model[*k as int] == messages[kept[*k as int] as int].deep_view());
                }
                let role: &MessageRole = &messages[kept[*k]].role;
                add_part(
                    &mut gathered,
                    part,
                    role,
                    *k,
                    Ghost(model),
                    Ghost(all),
                    Ghost(i as int),
                );
            },
            None => {
                proof {
                    assert(holder(model, part.message_id@) is None);
                    assert forall|j: int| 0 <= j < model.len() implies (
                    #[trigger] gathered.words@[j]).deep_view() == words_of(model, all.take(i + 1), j) by {
                        only_holder_gains(model, all, i as int, j);
                    }
                    assert forall|j: int| 0 <= j < model.len() implies (
                    #[trigger] gathered.tools@[j]).deep_view() == tools_of(model, all.take(i + 1), j) by {
                        only_holder_gains(model, all, i as int, j);
                    }
                    assert forall|j: int| 0 <= j < model.len() implies (
                    #[trigger] gathered.files@[j]).deep_view() == files_of(model, all.take(i + 1), j) by {
                        only_holder_gains(model, all, i as int, j);
                    }
                }
            },
        }
        i = i + 1;
    }
    assert(all.take(i as int) =~= all);
    gathered
}

/// The messages with words of the user are messages.
proof fn prompts_in_bound(messages: Seq<MessageView>, parts: Seq<PartView>, i: int)
    requires
        0 <= i < prompts_in(messages, parts).len(),
    ensures
        0 <= prompts_in(messages, parts)[i] < messages.len(),
    decreases parts.len(),
{
    let front = parts.drop_last();
    holder_bound(messages, parts.last().message_id);
    if i < prompts_in(messages, front).len() {
        prompts_in_bound(messages, front, i);
    }
}

/// Makes the prompts of the session `id`.
fn make_prompts(
    messages: &Vec<Message>,
    kept: &Vec<usize>,
    gathered: &Gathered,
    id: &str,
    Ghost(model): Ghost<Seq<MessageView>>,
    Ghost(parts): Ghost<Seq<PartView>>,
) -> (prompts: Vec<ParsedUserEntry>)
    requires
        places(kept@, messages.deep_view(), model),
        gathered.stems_from(model, parts),
    ensures
        prompts.deep_view() == session_prompts(model, parts, id@),
{
    let ghost at = prompts_in(model, parts);
    let mut prompts: Vec<ParsedUserEntry> = Vec::new();
    let mut i: usize = 0;
    assert(prompts.deep_view() =~= prompts_at(model, parts, at.take(0), id@));
    assert(at.len() == gathered.prompts.len());
    while i < gathered.prompts.len()
        invariant
            i <= gathered.prompts.len(),
            places(kept@, messages.deep_view(), model),
            gathered.stems_from(model, parts),
            at == prompts_in(model, parts),
            at.len() == gathered.prompts.len(),
            prompts.deep_view() == prompts_at(model, parts, at.take(i as int), id@),
        decreases gathered.prompts.len() - i,
    {
        let k: usize = gathered.prompts[i];
        let ghost before = prompts.deep_view();
        proof {
            assert(gathered.prompts@.map_values(|k: usize| k as int)[i as int] == k as int);
            assert(at[i as int] == k);
            prompts_in_bound(model, parts, i as int);
            assert(kept[k as int] < messages.len());
            assert(model[k as int] == messages[kept[k as int] as int].deep_view());
            assert(at.take(i + 1).drop_last() =~= at.take(i as int));
            assert(at.take(i + 1).last() == k);
            assert(gathered.words@[k as int].deep_view() == words_of(model, parts, k as int));
        }
        let message = &messages[kept[k]];
        if same_text(message.session_id.as_str(), id) {
            let whole: String = join(&gathered.words[k], "\n");
            let text: String = truncate(whole.as_str(), MAX_PROMPT_LEN);
            prompts.push(ParsedUserEntry { timestamp: message.timestamp.clone(), text });
            assert(prompts.deep_view() =~= before.push(prompt_of(model, parts, k as int)));
        }
        i = i + 1;
    }
    assert(at.take(i as int) =~= at);
    order::stable_sort::<ParsedUserEntry, ByTime>(prompts)
}

/// Copies a list of texts.
fn copy_texts(from: &Vec<String>) -> (copy: Vec<String>)
    ensures
        copy.deep_view() == from.deep_view(),
{
    let mut copy: Vec<String> = Vec::new();
    append_texts(&mut copy, from);
    assert(copy.deep_view() =~= from.deep_view());
    copy
}

/// Makes the turns of the session `id`.
fn make_turns(
    messages: &Vec<Message>,
    kept: &Vec<usize>,
    gathered: &Gathered,
    id: &str,
    Ghost(model): Ghost<Seq<MessageView>>,
    Ghost(parts): Ghost<Seq<PartView>>,
) -> (turns: Vec<ParsedAssistantEntry>)
    requires
        places(kept@, messages.deep_view(), model),
        gathered.stems_from(model, parts),
    ensures
        turns.deep_view() == turns_among(model, parts, model.len(), id@),
{
    let mut turns: Vec<ParsedAssistantEntry> = Vec::new();
    let mut k: usize = 0;
    assert(turns.deep_view() =~= turns_among(model, parts, 0, id@));
    while k < kept.len()
        invariant
            k <= kept.len(),
            places(kept@, messages.deep_view(), model),
            gathered.stems_from(model, parts),
            turns.deep_view() == turns_among(model, parts, k as nat, id@),
        decreases kept.len() - k,
    {
        let ghost before = turns.deep_view();
        proof {
            assert(kept[k as int] < messages.len());
            assert(model[k as int] == messages[kept[k as int] as int].deep_view());
            assert(gathered.tools@[k as int].deep_view() == tools_of(model, parts, k as int));
            assert(gathered.files@[k as int].deep_view() == files_of(model, parts, k as int));
        }
        let message = &messages[kept[k]];
        if same_text(message.session_id.as_str(), id) {
            if let MessageRole::Assistant { input_tokens, output_tokens } = &message.role {
                turns.push(
                    ParsedAssistantEntry {
                        timestamp: message.timestamp.clone(),
                        message_count: 1,
                        tool_uses: copy_texts(&gathered.tools[k]),
                        input_tokens: *input_tokens,
                        output_tokens: *output_tokens,
                        file_paths: sort_distinct(copy_texts(&gathered.files[k])),
                    },
                );
                assert(turns.deep_view() =~= before.push(turn_of(model, parts, k as int)));
            }
        }
        k = k + 1;
    }
    turns
}

/// Makes sessions of messages and parts.
pub fn build_sessions(
    metas: &Vec<SessionMeta>,
    messages: &Vec<Message>,
    parts: &Vec<Part>,
    filter: &DateFilter,
) -> (sessions: Vec<RawSession>)
    ensures
        sessions.deep_view() == sessions_from(
            metas.deep_view(),
            messages.deep_view(),
            parts.deep_view(),
            *filter,
        ),
{
    let ghost all = metas.deep_view();
    let ghost pieces = parts.deep_view();
    let ghost model = messages.deep_view().filter(is_kept(all, *filter));
    let kept: Vec<usize> = keep_messages(metas, messages, filter);
    let gathered: Gathered = gather_parts(messages, &kept, parts, Ghost(model));
    let ghost f = |meta: MetaView| session_from(meta, model, pieces);
    let mut sessions: Vec<RawSession> = Vec::new();
    let mut i: usize = 0;
    proof {
        reveal(Seq::filter);
        assert(sessions.deep_view() =~= all.map_values(f).take(0).filter(is_used()));
    }
    while i < metas.len()
        invariant
            i <= metas.len(),
            all == metas.deep_view(),
            places(kept@, messages.deep_view(), model),
            gathered.stems_from(model, pieces),
            f == (|meta: MetaView| session_from(meta, model, pieces)),
            sessions.deep_view() == all.map_values(f).take(i as int).filter(is_used()),
        decreases metas.len() - i,
    {
        let meta = &metas[i];
        let ghost before = sessions.deep_view();
        proof {
            assert(all[i as int] == meta.deep_view());
            lists::filter_step(all.map_values(f), i as int, is_used());
        }
        let id: &str = meta.id.as_str();
        let user_entries: Vec<ParsedUserEntry> = make_prompts(
            messages,
            &kept,
            &gathered,
            id,
            Ghost(model),
            Ghost(pieces),
        );
        let assistant_entries: Vec<ParsedAssistantEntry> = make_turns(
            messages,
            &kept,
            &gathered,
            id,
            Ghost(model),
            Ghost(pieces),
        );
        let session = RawSession {
            session_id: meta.id.clone(),
            project: meta.project.clone(),
            project_path: meta.project_path.clone(),
            git_branch: None,
            user_entries,
            assistant_entries,
        };
        assert(session.deep_view() == f(all[i as int]));
        if session.user_entries.len() > 0 || session.assistant_entries.len() > 0 {
            let ghost x = session.deep_view();
            sessions.push(session);
            assert(sessions.deep_view() =~= before.push(x));
        }
        i = i + 1;
    }
    assert(all.map_values(f).take(i as int) =~= all.map_values(f));
    order::stable_sort::<RawSession, ByLastPrompt>(sessions)
}

// ---------------------------------------------------------------------------
// Collection
// ---------------------------------------------------------------------------

/// Whether `sessions` can be the sessions in the rows of a database: the names of their projects are
/// as the system divides the paths of the directories, and all else follows from the rows.
pub open spec fn are_sessions_in(
    sessions: Seq<SessionView>,
    rows: RowsView,
    filter: DateFilter,
) -> bool {
    exists|metas: Seq<MetaView>| #[trigger]
        projects::are_metas_of(metas, rows.sessions, rows.projects) && sessions == sessions_from(
            metas,
            messages::messages_in(rows.messages),
            messages::parts_in(rows.parts),
            filter,
        )
}

/// The sessions in the rows of a database whose directories have plain paths.
pub open spec fn sessions_in(rows: RowsView, filter: DateFilter) -> Seq<SessionView> {
    sessions_from(
        projects::metas_of(rows.sessions, rows.projects),
        messages::messages_in(rows.messages),
        messages::parts_in(rows.parts),
        filter,
    )
}

/// Collects the sessions in the rows of a database.
pub fn collect_from_db(rows: &HistoryRows, filter: &DateFilter) -> (sessions: Vec<RawSession>)
    ensures
        are_sessions_in(sessions.deep_view(), rows.deep_view(), *filter),
        projects::have_plain_paths(rows.deep_view().sessions, rows.deep_view().projects)
            ==> sessions.deep_view() == sessions_in(rows.deep_view(), *filter),
        messages::in_four_digit_years(rows.deep_view().messages) ==> forall|i: int|
            0 <= i < sessions.len() ==> focus::session_span(#[trigger] sessions.deep_view()[i])
                is Some,
{
    let metas: Vec<SessionMeta> = load_session_meta(&rows.sessions, &rows.projects);
    let messages: Vec<Message> = read_messages(&rows.messages, &metas, filter);
    let parts: Vec<Part> = read_parts(&rows.parts, &messages);
    let sessions: Vec<RawSession> = build_sessions(&metas, &messages, &parts, filter);
    proof {
        let tables = rows.deep_view();
        assert(projects::are_metas_of(metas.deep_view(), tables.sessions, tables.projects));
        unused_rows_do_not_matter(
            metas.deep_view(),
            messages::messages_in(tables.messages),
            messages::parts_in(tables.parts),
            *filter,
        );
        if messages::in_four_digit_years(tables.messages) {
            assert forall|i: int| 0 <= i < sessions.len() implies focus::session_span(
                #[trigger] sessions.deep_view()[i],
            ) is Some by {
                sessions_can_be_placed(
                    metas.deep_view(),
                    messages.deep_view(),
                    parts.deep_view(),
                    *filter,
                    i,
                );
            }
        }
    }
    sessions
}

/// The rows of databases that could all be read.
pub open spec fn rows_read<E>(databases: Seq<Result<HistoryRows, E>>) -> Seq<RowsView> {
    databases.map_values(|read: Result<HistoryRows, E>| read->Ok_0.deep_view())
}

/// Whether the databases could all be read.
pub open spec fn all_read<E>(databases: Seq<Result<HistoryRows, E>>) -> bool {
    forall|i: int| 0 <= i < databases.len() ==> #[trigger] databases[i] is Ok
}

/// Whether `error` is why the first database that could not be read could not.
pub open spec fn is_first_error<E>(databases: Seq<Result<HistoryRows, E>>, error: E) -> bool {
    exists|i: int|
        0 <= i < databases.len() && #[trigger] databases[i] == Err::<HistoryRows, E>(error)
            && all_read(databases.take(i))
}

/// Whether `found` can be the sessions in each of some databases.
pub open spec fn are_sessions_in_each(
    found: Seq<Seq<SessionView>>,
    databases: Seq<RowsView>,
    filter: DateFilter,
) -> bool {
    &&& found.len() == databases.len()
    &&& forall|i: int|
        0 <= i < found.len() ==> are_sessions_in(#[trigger] found[i], databases[i], filter)
}

/// Lists of sessions, one behind the other.
pub open spec fn joined(found: Seq<Seq<SessionView>>) -> Seq<SessionView> {
    lists::flat_by(found, |sessions: Seq<SessionView>| sessions)
}

/// Whether `sessions` can be the sessions in the rows of some databases, one database behind the
/// other.
pub open spec fn are_sessions_in_all(
    sessions: Seq<SessionView>,
    databases: Seq<RowsView>,
    filter: DateFilter,
) -> bool {
    exists|found: Seq<Seq<SessionView>>| #[trigger]
        are_sessions_in_each(found, databases, filter) && sessions == joined(found)
}

/// The sessions in the rows of some databases, one database behind the other, where all directories
/// have plain paths.
pub open spec fn sessions_in_all(databases: Seq<RowsView>, filter: DateFilter) -> Seq<SessionView> {
    lists::flat_by(databases, |rows: RowsView| sessions_in(rows, filter))
}

/// Whether the directories of all sessions in some databases have plain paths.
pub open spec fn all_have_plain_paths(databases: Seq<RowsView>) -> bool {
    forall|i: int|
        0 <= i < databases.len() ==> projects::have_plain_paths(
            (#[trigger] databases[i]).sessions,
            databases[i].projects,
        )
}

/// Moves the sessions `more` behind `sessions`.
fn append_sessions(sessions: &mut Vec<RawSession>, more: Vec<RawSession>)
    ensures
        final(sessions).deep_view() == old(sessions).deep_view() + more.deep_view(),
{
    let ghost before = sessions.deep_view();
    let ghost found = more.deep_view();
    assert(before + found.take(0) =~= before);
    for session in it: more
        invariant
            it.seq().len() == found.len(),
            forall|k: int| 0 <= k < found.len() ==> found[k] == (#[trigger] it.seq()[k]).deep_view(),
            sessions.deep_view() == before + found.take(it.index()),
    {
        let ghost so_far = sessions.deep_view();
        sessions.push(session);
        proof {
            assert(sessions.deep_view() =~= so_far.push(found[it.index() as int]));
            assert(sessions.deep_view() =~= before + found.take(it.index() + 1));
        }
    }
    assert(found.take(found.len() as int) =~= found);
}

/// Collects the sessions in the rows of the databases, each given as it could be read. Where one
/// could not be read there are no sessions at all, but the first error.
pub fn collect_sessions<E>(databases: Vec<Result<HistoryRows, E>>, filter: &DateFilter) -> (result:
    Result<Vec<RawSession>, E>)
    ensures
        match result {
            Ok(sessions) => all_read(databases@) && are_sessions_in_all(
                sessions.deep_view(),
                rows_read(databases@),
                *filter,
            ) && (all_have_plain_paths(rows_read(databases@)) ==> sessions.deep_view()
                == sessions_in_all(rows_read(databases@), *filter)),
            Err(error) => is_first_error(databases@, error),
        },
{
    let ghost given = databases@;
    let ghost all = rows_read(given);
    let ghost f = |rows: RowsView| sessions_in(rows, *filter);
    let ghost id = |sessions: Seq<SessionView>| sessions;
    let ghost mut found: Seq<Seq<SessionView>> = Seq::empty();
    let mut sessions: Vec<RawSession> = Vec::new();
    assert(sessions.deep_view() =~= joined(found));
    assert(sessions.deep_view() =~= sessions_in_all(all.take(0), *filter));
    for read in it: databases
        invariant
            it.seq() == given,
            all == rows_read(given),
            f == (|rows: RowsView| sessions_in(rows, *filter)),
            id == (|sessions: Seq<SessionView>| sessions),
            all_read(given.take(it.index())),
            are_sessions_in_each(found, all.take(it.index()), *filter),
            sessions.deep_view() == joined(found),
            all_have_plain_paths(all) ==> sessions.deep_view() == sessions_in_all(
                all.take(it.index()),
                *filter,
            ),
    {
        let ghost i = it.index() as int;
        match read {
            Ok(rows) => {
                let more: Vec<RawSession> = collect_from_db(&rows, filter);
                let ghost own = more.deep_view();
                append_sessions(&mut sessions, more);
                proof {
                    assert(all[i] == rows.deep_view());
                    lists::flat_by_step(all, i, f);
                    assert(found.push(own).drop_last() =~= found);
                    found = found.push(own);
                    assert forall|k: int| 0 <= k < i + 1 implies #[trigger] given.take(i + 1)[k] is Ok by {
                        if k < i {
                            assert(given.take(i)[k] is Ok);
                        }
                    }
                    assert forall|k: int| 0 <= k < found.len() implies are_sessions_in(
                        #[trigger] found[k],
                        all.take(i + 1)[k],
                        *filter,
                    ) by {
                        if k < i {
                            assert(all.take(i)[k] == all.take(i + 1)[k]);
                        }
                    }
                }
            },
            Err(error) => {
                assert(given[i] == Err::<HistoryRows, E>(error));
                return Err(error);
            },
        }
    }
    proof {
        assert(given.take(given.len() as int) =~= given);
        assert(all.take(all.len() as int) =~= all);
    }
    Ok(sessions)
}

// ---------------------------------------------------------------------------
// Laws
// ---------------------------------------------------------------------------

/// A message with words of the user is one prompt, however many parts they come in; a message
/// without is none.
pub proof fn a_message_is_one_prompt(messages: Seq<MessageView>, parts: Seq<PartView>)
    ensures
        prompts_in(messages, parts).no_duplicates(),
        forall|k: int| #[trigger]
            prompts_in(messages, parts).contains(k) <==> 0 <= k < messages.len() && words_of(
                messages,
                parts,
                k,
            ).len() > 0,
    decreases parts.len(),
{
    let at = prompts_in(messages, parts);
    if parts.len() > 0 {
        let front = parts.drop_last();
        let n = front.len() as int;
        let before = prompts_in(messages, front);
        a_message_is_one_prompt(messages, front);
        assert(parts.take(n) =~= front && parts.take(n + 1) =~= parts);
        holder_bound(messages, parts.last().message_id);
        assert forall|k: int| #[trigger] at.contains(k) <==> 0 <= k < messages.len() && words_of(
            messages,
            parts,
            k,
        ).len() > 0 by {
            only_holder_gains(messages, parts, n, k);
            if before.contains(k) {
                let i = choose|i: int| 0 <= i < before.len() && before[i] == k;
                assert(at[i] == k);
            }
            if at.contains(k) {
                let i = choose|i: int| 0 <= i < at.len() && at[i] == k;
                if i < before.len() {
                    assert(before[i] == k);
                }
            }
            if at.len() > before.len() {
                assert(at[before.len() as int] == at.last());
            }
        }
        assert forall|i: int, j: int| 0 <= i < at.len() && 0 <= j < at.len() && i != j implies at[i]
            != at[j] by {
            assert(forall|i: int| 0 <= i < before.len() ==> before.contains(#[trigger] before[i]));
        }
    }
}

proof fn session_has_meta(
    metas: Seq<MetaView>,
    messages: Seq<MessageView>,
    parts: Seq<PartView>,
    filter: DateFilter,
    i: int,
)
    requires
        0 <= i < sessions_from(metas, messages, parts, filter).len(),
    ensures
        is_used()(sessions_from(metas, messages, parts, filter)[i]),
        exists|m: int|
            0 <= m < metas.len() && sessions_from(metas, messages, parts, filter)[i] == session_from(
                #[trigger] metas[m],
                messages.filter(is_kept(metas, filter)),
                parts,
            ),
{
    let kept = messages.filter(is_kept(metas, filter));
    let made = metas.map_values(|meta: MetaView| session_from(meta, kept, parts));
    let all = sessions_from(metas, messages, parts, filter);
    let leq = order::order_of::<RawSession, ByLastPrompt>();
    let x = all[i];
    assert(all.contains(x));
    order::sorted_contains(made.filter(is_used()), leq, x);
    lists::filter_members(made, is_used(), x);
    let m = choose|m: int| 0 <= m < made.len() && made[m] == x;
    assert(session_from(metas[m], kept, parts) == x);
}

proof fn made_session_is_listed(
    metas: Seq<MetaView>,
    messages: Seq<MessageView>,
    parts: Seq<PartView>,
    filter: DateFilter,
    m: int,
)
    requires
        0 <= m < metas.len(),
        is_used()(session_from(metas[m], messages.filter(is_kept(metas, filter)), parts)),
    ensures
        sessions_from(metas, messages, parts, filter).contains(
            session_from(metas[m], messages.filter(is_kept(metas, filter)), parts),
        ),
{
    let kept = messages.filter(is_kept(metas, filter));
    let made = metas.map_values(|meta: MetaView| session_from(meta, kept, parts));
    let leq = order::order_of::<RawSession, ByLastPrompt>();
    let x = session_from(metas[m], kept, parts);
    assert(made[m] == x);
    order::sorted_contains(made.filter(is_used()), leq, x);
    lists::filter_members(made, is_used(), x);
}

/// No session comes out empty, and each is one of the known sessions.
pub proof fn sessions_hold_something(
    metas: Seq<MetaView>,
    messages: Seq<MessageView>,
    parts: Seq<PartView>,
    filter: DateFilter,
    i: int,
)
    requires
        0 <= i < sessions_from(metas, messages, parts, filter).len(),
    ensures
        ({
            let s = sessions_from(metas, messages, parts, filter)[i];
            &&& s.prompts.len() > 0 || s.turns.len() > 0
            &&& meta_ids(metas).contains(s.session_id)
        }),
{
    session_has_meta(metas, messages, parts, filter, i);
    let s = sessions_from(metas, messages, parts, filter)[i];
    let m = choose|m: int|
        0 <= m < metas.len() && s == session_from(
            #[trigger] metas[m],
            messages.filter(is_kept(metas, filter)),
            parts,
        );
    assert(meta_ids(metas)[m] == s.session_id);
}

/// The sessions stand by their last prompt, the latest first.
pub proof fn sessions_are_by_last_prompt(
    metas: Seq<MetaView>,
    messages: Seq<MessageView>,
    parts: Seq<PartView>,
    filter: DateFilter,
    i: int,
    j: int,
)
    requires
        0 <= i < j < sessions_from(metas, messages, parts, filter).len(),
    ensures
        text::text_leq(
            last_prompt(sessions_from(metas, messages, parts, filter)[j]),
            last_prompt(sessions_from(metas, messages, parts, filter)[i]),
        ),
{
    let kept = messages.filter(is_kept(metas, filter));
    let made = metas.map_values(|meta: MetaView| session_from(meta, kept, parts));
    let leq = order::order_of::<RawSession, ByLastPrompt>();
    let all = sessions_from(metas, messages, parts, filter);
    order::sorted_is_ascending::<RawSession, ByLastPrompt>(made.filter(is_used()));
    assert(leq(all[i], all[j]));
}

/// The prompts of a session stand by their time.
pub proof fn prompts_are_by_time(
    messages: Seq<MessageView>,
    parts: Seq<PartView>,
    id: Seq<char>,
    i: int,
    j: int,
)
    requires
        0 <= i < j < session_prompts(messages, parts, id).len(),
    ensures
        text::text_leq(
            session_prompts(messages, parts, id)[i].timestamp,
            session_prompts(messages, parts, id)[j].timestamp,
        ),
{
    let leq = order::order_of::<ParsedUserEntry, ByTime>();
    let all = session_prompts(messages, parts, id);
    order::sorted_is_ascending::<ParsedUserEntry, ByTime>(
        prompts_at(messages, parts, prompts_in(messages, parts), id),
    );
    assert(leq(all[i], all[j]));
}

proof fn turns_among_members(
    messages: Seq<MessageView>,
    parts: Seq<PartView>,
    n: nat,
    id: Seq<char>,
    turn: TurnView,
)
    requires
        n <= messages.len(),
    ensures
        turns_among(messages, parts, n, id).contains(turn) <==> exists|k: int|
            0 <= k < n && (#[trigger] messages[k]).session_id == id && messages[k].role is Assistant
                && turn == turn_of(messages, parts, k),
    decreases n,
{
    if n > 0 {
        let m = (n - 1) as nat;
        let before = turns_among(messages, parts, m, id);
        let now = turns_among(messages, parts, n, id);
        turns_among_members(messages, parts, m, id, turn);
        if before.contains(turn) {
            let i = choose|i: int| 0 <= i < before.len() && before[i] == turn;
            assert(now[i] == turn);
        }
        if now.contains(turn) {
            let i = choose|i: int| 0 <= i < now.len() && now[i] == turn;
            if i < before.len() {
                assert(before[i] == turn);
            } else {
                assert(messages[m as int].session_id == id);
            }
        }
        if now.len() > before.len() {
            assert(now[before.len() as int] == turn_of(messages, parts, m as int));
        }
    }
}

proof fn prompts_at_members(
    messages: Seq<MessageView>,
    parts: Seq<PartView>,
    at: Seq<int>,
    id: Seq<char>,
    prompt: PromptView,
)
    ensures
        prompts_at(messages, parts, at, id).contains(prompt) <==> exists|i: int|
            0 <= i < at.len() && messages[#[trigger] at[i]].session_id == id && prompt == prompt_of(
                messages,
                parts,
                at[i],
            ),
    decreases at.len(),
{
    if at.len() > 0 {
        let front = at.drop_last();
        let before = prompts_at(messages, parts, front, id);
        let now = prompts_at(messages, parts, at, id);
        prompts_at_members(messages, parts, front, id, prompt);
        if before.contains(prompt) {
            let i = choose|i: int| 0 <= i < before.len() && before[i] == prompt;
            assert(now[i] == prompt);
            let j = choose|j: int|
                0 <= j < front.len() && messages[#[trigger] front[j]].session_id == id && prompt
                    == prompt_of(messages, parts, front[j]);
            assert(at[j] == front[j]);
        }
        if now.contains(prompt) {
            let i = choose|i: int| 0 <= i < now.len() && now[i] == prompt;
            if i < before.len() {
                assert(before[i] == prompt);
            } else {
                assert(at[at.len() - 1] == at.last());
            }
        }
        if now.len() > before.len() {
            assert(now[before.len() as int] == prompt_of(messages, parts, at.last()));
        }
        if exists|i: int|
            0 <= i < at.len() && messages[#[trigger] at[i]].session_id == id && prompt == prompt_of(
                messages,
                parts,
                at[i],
            ) {
            let i = choose|i: int|
                0 <= i < at.len() && messages[#[trigger] at[i]].session_id == id && prompt
                    == prompt_of(messages, parts, at[i]);
            if i < front.len() {
                assert(front[i] == at[i]);
            }
        }
    }
}

/// The turns of a session are the messages of the assistant in it that the filter lets pass.
pub proof fn turns_are_kept_messages(
    metas: Seq<MetaView>,
    messages: Seq<MessageView>,
    parts: Seq<PartView>,
    filter: DateFilter,
    i: int,
    turn: TurnView,
)
    requires
        0 <= i < sessions_from(metas, messages, parts, filter).len(),
    ensures
        ({
            let s = sessions_from(metas, messages, parts, filter)[i];
            let kept = messages.filter(is_kept(metas, filter));
            s.turns.contains(turn) <==> exists|k: int|
                0 <= k < kept.len() && (#[trigger] kept[k]).session_id == s.session_id
                    && kept[k].role is Assistant && filter.includes(kept[k].seconds)
                    && messages.contains(kept[k]) && turn == turn_of(kept, parts, k)
        }),
{
    let kept = messages.filter(is_kept(metas, filter));
    let s = sessions_from(metas, messages, parts, filter)[i];
    session_has_meta(metas, messages, parts, filter, i);
    turns_among_members(kept, parts, kept.len(), s.session_id, turn);
    assert forall|k: int| 0 <= k < kept.len() implies filter.includes((#[trigger] kept[k]).seconds)
        && messages.contains(kept[k]) by {
        assert(kept.contains(kept[k]));
        lists::filter_members(messages, is_kept(metas, filter), kept[k]);
    }
}

/// The prompts of a session are the messages of the user in it that hold words and that the filter
/// lets pass.
pub proof fn prompts_are_kept_messages(
    metas: Seq<MetaView>,
    messages: Seq<MessageView>,
    parts: Seq<PartView>,
    filter: DateFilter,
    i: int,
    prompt: PromptView,
)
    requires
        0 <= i < sessions_from(metas, messages, parts, filter).len(),
    ensures
        ({
            let s = sessions_from(metas, messages, parts, filter)[i];
            let kept = messages.filter(is_kept(metas, filter));
            s.prompts.contains(prompt) <==> exists|k: int|
                0 <= k < kept.len() && (#[trigger] kept[k]).session_id == s.session_id && words_of(
                    kept,
                    parts,
                    k,
                ).len() > 0 && filter.includes(kept[k].seconds) && messages.contains(kept[k])
                    && prompt == prompt_of(kept, parts, k)
        }),
{
    let kept = messages.filter(is_kept(metas, filter));
    let s = sessions_from(metas, messages, parts, filter)[i];
    let at = prompts_in(kept, parts);
    session_has_meta(metas, messages, parts, filter, i);
    order::sorted_contains(
        prompts_at(kept, parts, at, s.session_id),
        order::order_of::<ParsedUserEntry, ByTime>(),
        prompt,
    );
    prompts_at_members(kept, parts, at, s.session_id, prompt);
    a_message_is_one_prompt(kept, parts);
    assert forall|k: int| 0 <= k < kept.len() implies filter.includes((#[trigger] kept[k]).seconds)
        && messages.contains(kept[k]) by {
        assert(kept.contains(kept[k]));
        lists::filter_members(messages, is_kept(metas, filter), kept[k]);
    }
    if s.prompts.contains(prompt) {
        let j = choose|j: int|
            0 <= j < at.len() && kept[#[trigger] at[j]].session_id == s.session_id && prompt
                == prompt_of(kept, parts, at[j]);
        let k = at[j];
        assert(at.contains(k));
        assert(kept[k].session_id == s.session_id);
    }
    if exists|k: int|
        0 <= k < kept.len() && (#[trigger] kept[k]).session_id == s.session_id && words_of(
            kept,
            parts,
            k,
        ).len() > 0 && filter.includes(kept[k].seconds) && messages.contains(kept[k]) && prompt
            == prompt_of(kept, parts, k) {
        let k = choose|k: int|
            0 <= k < kept.len() && (#[trigger] kept[k]).session_id == s.session_id && words_of(
                kept,
                parts,
                k,
            ).len() > 0 && filter.includes(kept[k].seconds) && messages.contains(kept[k]) && prompt
                == prompt_of(kept, parts, k);
        assert(at.contains(k));
        let j = choose|j: int| 0 <= j < at.len() && at[j] == k;
        assert(kept[at[j]].session_id == s.session_id);
    }
}

/// No message of the assistant is lost: where it belongs to a known session and the filter lets it
/// pass, there is a session with its name that has it for a turn.
pub proof fn turns_are_collected(
    metas: Seq<MetaView>,
    messages: Seq<MessageView>,
    parts: Seq<PartView>,
    filter: DateFilter,
    m: MessageView,
)
    requires
        messages.contains(m),
        meta_ids(metas).contains(m.session_id),
        filter.includes(m.seconds),
        m.role is Assistant,
    ensures
        exists|i: int, t: int|
            #![trigger sessions_from(metas, messages, parts, filter)[i].turns[t]]
            0 <= i < sessions_from(metas, messages, parts, filter).len() && 0 <= t
                < sessions_from(metas, messages, parts, filter)[i].turns.len() && sessions_from(
                metas,
                messages,
                parts,
                filter,
            )[i].session_id == m.session_id && sessions_from(
                metas,
                messages,
                parts,
                filter,
            )[i].turns[t].timestamp == m.timestamp,
{
    let kept = messages.filter(is_kept(metas, filter));
    let all = sessions_from(metas, messages, parts, filter);
    lists::filter_members(messages, is_kept(metas, filter), m);
    let k = choose|k: int| 0 <= k < kept.len() && kept[k] == m;
    let turn = turn_of(kept, parts, k);
    let j = choose|j: int| 0 <= j < meta_ids(metas).len() && meta_ids(metas)[j] == m.session_id;
    let s = session_from(metas[j], kept, parts);
    turns_among_members(kept, parts, kept.len(), m.session_id, turn);
    assert(s.turns.contains(turn));
    made_session_is_listed(metas, messages, parts, filter, j);
    let i = choose|i: int| 0 <= i < all.len() && all[i] == s;
    let t = choose|t: int| 0 <= t < s.turns.len() && s.turns[t] == turn;
    assert(all[i].turns[t].timestamp == m.timestamp);
}

/// No words of the user are lost: where a message belongs to a known session, the filter lets it
/// pass and it holds words, there is a session with its name that has it for a prompt.
pub proof fn prompts_are_collected(
    metas: Seq<MetaView>,
    messages: Seq<MessageView>,
    parts: Seq<PartView>,
    filter: DateFilter,
    k: int,
)
    requires
        ({
            let kept = messages.filter(is_kept(metas, filter));
            0 <= k < kept.len() && words_of(kept, parts, k).len() > 0
        }),
    ensures
        ({
            let kept = messages.filter(is_kept(metas, filter));
            let all = sessions_from(metas, messages, parts, filter);
            exists|i: int|
                0 <= i < all.len() && (#[trigger] all[i]).session_id == kept[k].session_id
                    && all[i].prompts.contains(prompt_of(kept, parts, k))
        }),
{
    let kept = messages.filter(is_kept(metas, filter));
    let all = sessions_from(metas, messages, parts, filter);
    let at = prompts_in(kept, parts);
    let id = kept[k].session_id;
    let prompt = prompt_of(kept, parts, k);
    assert(kept.contains(kept[k]));
    lists::filter_members(messages, is_kept(metas, filter), kept[k]);
    let j = choose|j: int| 0 <= j < meta_ids(metas).len() && meta_ids(metas)[j] == id;
    let s = session_from(metas[j], kept, parts);
    a_message_is_one_prompt(kept, parts);
    assert(at.contains(k));
    let a = choose|a: int| 0 <= a < at.len() && at[a] == k;
    assert(kept[at[a]].session_id == id);
    prompts_at_members(kept, parts, at, id, prompt);
    order::sorted_contains(
        prompts_at(kept, parts, at, id),
        order::order_of::<ParsedUserEntry, ByTime>(),
        prompt,
    );
    assert(s.prompts.contains(prompt));
    made_session_is_listed(metas, messages, parts, filter, j);
    let i = choose|i: int| 0 <= i < all.len() && all[i] == s;
    assert(all[i].session_id == id);
}

/// Where the timestamps of the messages can be read, every session can be placed in time.
pub proof fn sessions_can_be_placed(
    metas: Seq<MetaView>,
    messages: Seq<MessageView>,
    parts: Seq<PartView>,
    filter: DateFilter,
    i: int,
)
    requires
        messages::are_readable(messages),
        0 <= i < sessions_from(metas, messages, parts, filter).len(),
    ensures
        focus::session_span(sessions_from(metas, messages, parts, filter)[i]) is Some,
{
    let kept = messages.filter(is_kept(metas, filter));
    let s = sessions_from(metas, messages, parts, filter)[i];
    let times = session::timestamps(s);
    sessions_hold_something(metas, messages, parts, filter, i);
    assert forall|j: int| 0 <= j < times.len() implies clock::rfc3339_instant(#[trigger] times[j])
        is Some by {
        if j < s.prompts.len() {
            let prompt = s.prompts[j];
            assert(s.prompts.contains(prompt));
            prompts_are_kept_messages(metas, messages, parts, filter, i, prompt);
            let k = choose|k: int|
                0 <= k < kept.len() && (#[trigger] kept[k]).session_id == s.session_id && words_of(
                    kept,
                    parts,
                    k,
                ).len() > 0 && filter.includes(kept[k].seconds) && messages.contains(kept[k])
                    && prompt == prompt_of(kept, parts, k);
            let m = choose|m: int| 0 <= m < messages.len() && messages[m] == kept[k];
            assert(clock::rfc3339_instant(messages[m].timestamp) is Some);
        } else {
            let turn = s.turns[j - s.prompts.len()];
            assert(s.turns.contains(turn));
            turns_are_kept_messages(metas, messages, parts, filter, i, turn);
            let k = choose|k: int|
                0 <= k < kept.len() && (#[trigger] kept[k]).session_id == s.session_id
                    && kept[k].role is Assistant && filter.includes(kept[k].seconds)
                    && messages.contains(kept[k]) && turn == turn_of(kept, parts, k);
            let m = choose|m: int| 0 <= m < messages.len() && messages[m] == kept[k];
            assert(clock::rfc3339_instant(messages[m].timestamp) is Some);
        }
    }
    let instants = focus::instants_of(times)->0;
    assert(instants.len() == times.len());
    assert(focus::span_of(instants) is Some);
}

proof fn prompts_in_of_filter(messages: Seq<MessageView>, parts: Seq<PartView>)
    ensures
        prompts_in(messages, parts.filter(belongs(messages))) == prompts_in(messages, parts),
    decreases parts.len(),
{
    reveal(Seq::filter);
    if parts.len() > 0 {
        let front = parts.drop_last();
        prompts_in_of_filter(messages, front);
        if belongs(messages)(parts.last()) {
            let fewer = front.filter(belongs(messages));
            let k = holder(messages, parts.last().message_id)->0;
            assert(fewer.push(parts.last()).drop_last() =~= fewer);
            entries_of_filter(messages, front, k);
        }
    }
}

proof fn entries_of_filter(messages: Seq<MessageView>, parts: Seq<PartView>, k: int)
    ensures
        words_of(messages, parts.filter(belongs(messages)), k) == words_of(messages, parts, k),
        tools_of(messages, parts.filter(belongs(messages)), k) == tools_of(messages, parts, k),
        files_of(messages, parts.filter(belongs(messages)), k) == files_of(messages, parts, k),
{
    let p = belongs(messages);
    lists::flat_by_of_filter(parts, p, |x: PartView| words_for(messages, x, k));
    lists::flat_by_of_filter(parts, p, |x: PartView| tools_for(messages, x, k));
    lists::flat_by_of_filter(parts, p, |x: PartView| files_for(messages, x, k));
}

proof fn prompts_at_of_filter(
    messages: Seq<MessageView>,
    parts: Seq<PartView>,
    at: Seq<int>,
    id: Seq<char>,
)
    ensures
        prompts_at(messages, parts.filter(belongs(messages)), at, id) == prompts_at(
            messages,
            parts,
            at,
            id,
        ),
    decreases at.len(),
{
    if at.len() > 0 {
        prompts_at_of_filter(messages, parts, at.drop_last(), id);
        entries_of_filter(messages, parts, at.last());
    }
}

proof fn turns_among_of_filter(
    messages: Seq<MessageView>,
    parts: Seq<PartView>,
    n: nat,
    id: Seq<char>,
)
    ensures
        turns_among(messages, parts.filter(belongs(messages)), n, id) == turns_among(
            messages,
            parts,
            n,
            id,
        ),
    decreases n,
{
    if n > 0 {
        turns_among_of_filter(messages, parts, (n - 1) as nat, id);
        entries_of_filter(messages, parts, n - 1);
    }
}

/// Messages that the filter does not let pass, and the parts of such messages, do not matter.
pub proof fn unused_rows_do_not_matter(
    metas: Seq<MetaView>,
    messages: Seq<MessageView>,
    parts: Seq<PartView>,
    filter: DateFilter,
)
    ensures
        ({
            let kept = messages.filter(is_kept(metas, filter));
            sessions_from(metas, kept, parts.filter(belongs(kept)), filter) == sessions_from(
                metas,
                messages,
                parts,
                filter,
            )
        }),
{
    let kept = messages.filter(is_kept(metas, filter));
    let fewer = parts.filter(belongs(kept));
    lists::filter_of_filter(messages, is_kept(metas, filter));
    prompts_in_of_filter(kept, parts);
    assert forall|m: int| 0 <= m < metas.len() implies session_from(
        #[trigger] metas[m],
        kept,
        fewer,
    ) == session_from(metas[m], kept, parts) by {
        prompts_at_of_filter(kept, parts, prompts_in(kept, parts), metas[m].id);
        turns_among_of_filter(kept, parts, kept.len(), metas[m].id);
    }
    assert(metas.map_values(|meta: MetaView| session_from(meta, kept, fewer)) =~= metas.map_values(
        |meta: MetaView| session_from(meta, kept, parts),
    ));
}

// ---------------------------------------------------------------------------
// What becomes of messages and parts
// ---------------------------------------------------------------------------

/// Whether a second lies from the start of the filter on and before its end, where it has these.
pub open spec fn in_time(filter: DateFilter, secs: i64) -> bool {
    !(filter.start is Some && secs < filter.start->0) && !(filter.end is Some && secs
        >= filter.end->0)
}

/// Whether one of the known sessions has this name.
pub open spec fn is_known(metas: Seq<MetaView>, id: Seq<char>) -> bool {
    exists|i: int| 0 <= i < metas.len() && (#[trigger] metas[i]).id == id
}

/// The messages that belong to a known session and that the filter lets pass.
pub open spec fn messages_kept(
    metas: Seq<MetaView>,
    messages: Seq<MessageView>,
    filter: DateFilter,
) -> Seq<MessageView> {
    messages.filter(|m: MessageView| is_known(metas, m.session_id) && in_time(filter, m.seconds))
}

proof fn kept_are_these(metas: Seq<MetaView>, messages: Seq<MessageView>, filter: DateFilter)
    ensures
        messages_kept(metas, messages, filter) == messages.filter(is_kept(metas, filter)),
{
    let p = |m: MessageView| is_known(metas, m.session_id) && in_time(filter, m.seconds);
    let q = is_kept(metas, filter);
    assert forall|i: int| 0 <= i < messages.len() implies p(#[trigger] messages[i]) == q(
        messages[i],
    ) by {
        let id = messages[i].session_id;
        if is_known(metas, id) {
            let j = choose|j: int| 0 <= j < metas.len() && (#[trigger] metas[j]).id == id;
            assert(meta_ids(metas)[j] == id);
        }
        if meta_ids(metas).contains(id) {
            let j = choose|j: int| 0 <= j < meta_ids(metas).len() && meta_ids(metas)[j] == id;
            assert(metas[j].id == id);
        }
    }
    lists::filter_same(messages, p, q);
}

/// Whether a part belongs to message `k`: the message has the name that the part gives, and no later
/// message has.
pub open spec fn is_part_of(messages: Seq<MessageView>, k: int, part: PartView) -> bool {
    &&& 0 <= k < messages.len()
    &&& messages[k].id == part.message_id
    &&& forall|j: int| k < j < messages.len() ==> (#[trigger] messages[j]).id != part.message_id
}

proof fn holder_is_last(messages: Seq<MessageView>, k: int, part: PartView)
    ensures
        holder(messages, part.message_id) == Some(k) <==> is_part_of(messages, k, part),
    decreases messages.len(),
{
    if messages.len() > 0 {
        let front = messages.drop_last();
        let n = messages.len() - 1;
        holder_is_last(front, k, part);
        holder_bound(messages, part.message_id);
        assert(messages[n] == messages.last());
        if messages[n].id != part.message_id {
            if is_part_of(front, k, part) {
                assert forall|j: int| k < j < messages.len() implies (#[trigger] messages[j]).id
                    != part.message_id by {
                    if j < n {
                        assert(front[j] == messages[j]);
                    }
                }
            }
            if is_part_of(messages, k, part) {
                assert forall|j: int| k < j < front.len() implies (#[trigger] front[j]).id
                    != part.message_id by {
                    assert(front[j] == messages[j]);
                }
            }
        }
    }
}

/// The words that the parts of message `k` hold, in order.
pub open spec fn words_in(messages: Seq<MessageView>, parts: Seq<PartView>, k: int) -> Seq<Seq<char>> {
    parts.filter(|p: PartView| is_part_of(messages, k, p) && p.content is Text).map_values(
        |p: PartView| p.content->Text_0,
    )
}

/// The uses of tools among the parts of message `k`, in order.
pub open spec fn uses_in(messages: Seq<MessageView>, parts: Seq<PartView>, k: int) -> Seq<PartView> {
    parts.filter(|p: PartView| is_part_of(messages, k, p) && p.content is Tool)
}

/// A message of the user gets the words of its parts, one of the assistant the tools and the files
/// of its parts, each in the order of the parts; neither gets what the other does.
pub proof fn parts_go_to_their_message(messages: Seq<MessageView>, parts: Seq<PartView>, k: int)
    requires
        0 <= k < messages.len(),
    ensures
        messages[k].role is User ==> words_of(messages, parts, k) == words_in(messages, parts, k)
            && tools_of(messages, parts, k).len() == 0 && files_of(messages, parts, k).len() == 0,
        messages[k].role is Assistant ==> words_of(messages, parts, k).len() == 0 && tools_of(
            messages,
            parts,
            k,
        ) == uses_in(messages, parts, k).map_values(|p: PartView| p.content->name) && files_of(
            messages,
            parts,
            k,
        ) == lists::flat_by(uses_in(messages, parts, k), |p: PartView| p.content->file_paths),
{
    let is_words = |p: PartView| is_part_of(messages, k, p) && p.content is Text;
    let is_use = |p: PartView| is_part_of(messages, k, p) && p.content is Tool;
    let words = |p: PartView| words_for(messages, p, k);
    let tools = |p: PartView| tools_for(messages, p, k);
    let files = |p: PartView| files_for(messages, p, k);
    let paths = |p: PartView| p.content->file_paths;
    assert forall|p: PartView| is_part_of(messages, k, p) == (#[trigger] holder(
        messages,
        p.message_id,
    ) == Some(k)) by {
        holder_is_last(messages, k, p);
    }
    if messages[k].role is User {
        lists::flat_by_selects(parts, is_words, |p: PartView| p.content->Text_0, words);
        lists::flat_by_selects(parts, |p: PartView| false, |p: PartView| p.content->name, tools);
        lists::flat_by_selects(parts, |p: PartView| false, |p: PartView| p.content->name, files);
        nothing_selected(parts);
    } else {
        lists::flat_by_selects(parts, is_use, |p: PartView| p.content->name, tools);
        lists::flat_by_selects(parts, |p: PartView| false, |p: PartView| p.content->name, words);
        nothing_selected(parts);
        lists::flat_by_of_filter(parts, is_use, files);
        files_of_uses(messages, parts.filter(is_use), k, files, paths);
    }
}

proof fn nothing_selected(parts: Seq<PartView>)
    ensures
        parts.filter(|p: PartView| false).len() == 0,
    decreases parts.len(),
{
    reveal(Seq::filter);
    if parts.len() > 0 {
        nothing_selected(parts.drop_last());
    }
}

proof fn files_of_uses(
    messages: Seq<MessageView>,
    uses: Seq<PartView>,
    k: int,
    files: spec_fn(PartView) -> Seq<Seq<char>>,
    paths: spec_fn(PartView) -> Seq<Seq<char>>,
)
    requires
        0 <= k < messages.len(),
        messages[k].role is Assistant,
        files == (|p: PartView| files_for(messages, p, k)),
        paths == (|p: PartView| p.content->file_paths),
        forall|p: PartView| #[trigger]
            uses.contains(p) ==> is_part_of(messages, k, p) && p.content is Tool,
    ensures
        lists::flat_by(uses, files) == lists::flat_by(uses, paths),
    decreases uses.len(),
{
    if uses.len() > 0 {
        let front = uses.drop_last();
        assert forall|p: PartView| #[trigger] front.contains(p) implies is_part_of(messages, k, p)
            && p.content is Tool by {
            let i = choose|i: int| 0 <= i < front.len() && front[i] == p;
            assert(uses[i] == p);
            assert(uses.contains(p));
        }
        files_of_uses(messages, front, k, files, paths);
        assert(uses[uses.len() - 1] == uses.last());
        assert(uses.contains(uses.last()));
        holder_is_last(messages, k, uses.last());
    }
}

/// Whether `turn` is the turn that message `k` of the assistant is: with its time, as one message,
/// with what it cost on either side, whatever parts it has, and with the tools and the different
/// files of its parts, the tools in order and the files by name.
pub open spec fn is_turn(
    turn: TurnView,
    messages: Seq<MessageView>,
    parts: Seq<PartView>,
    k: int,
) -> bool {
    let uses = uses_in(messages, parts, k);
    &&& turn.timestamp == messages[k].timestamp
    &&& turn.message_count == 1
    &&& messages[k].role == (messages::RoleView::Assistant {
        input_tokens: turn.input_tokens,
        output_tokens: turn.output_tokens,
    })
    &&& turn.tool_uses == uses.map_values(|p: PartView| p.content->name)
    &&& text::strictly_ascending(turn.file_paths)
    &&& forall|file: Seq<char>| #[trigger]
        turn.file_paths.contains(file) <==> exists|u: int|
            0 <= u < uses.len() && (#[trigger] uses[u]).content->file_paths.contains(file)
}

proof fn turn_of_is_turn(messages: Seq<MessageView>, parts: Seq<PartView>, k: int)
    requires
        0 <= k < messages.len(),
        messages[k].role is Assistant,
    ensures
        is_turn(turn_of(messages, parts, k), messages, parts, k),
{
    let turn = turn_of(messages, parts, k);
    let uses = uses_in(messages, parts, k);
    let paths = |p: PartView| p.content->file_paths;
    parts_go_to_their_message(messages, parts, k);
    text::sorted_distinct_is_strict(files_of(messages, parts, k));
    assert forall|file: Seq<char>| #[trigger] turn.file_paths.contains(file) <==> exists|u: int|
        0 <= u < uses.len() && (#[trigger] uses[u]).content->file_paths.contains(file) by {
        assert(turn.file_paths.contains(file) <==> files_of(messages, parts, k).contains(file));
        if files_of(messages, parts, k).contains(file) {
            lists::flat_by_members(uses, paths, file);
            let u = choose|u: int| 0 <= u < uses.len() && paths(#[trigger] uses[u]).contains(file);
            assert(uses[u].content->file_paths.contains(file));
        }
        if exists|u: int|
            0 <= u < uses.len() && (#[trigger] uses[u]).content->file_paths.contains(file) {
            let u = choose|u: int|
                0 <= u < uses.len() && (#[trigger] uses[u]).content->file_paths.contains(file);
            lists::flat_by_has(uses, paths, u, file);
        }
    }
}

/// Whether `turns` are the messages of the assistant at the places `at`, in order, and these are all
/// in the session `id`.
pub open spec fn are_turns(
    at: Seq<int>,
    turns: Seq<TurnView>,
    messages: Seq<MessageView>,
    parts: Seq<PartView>,
    id: Seq<char>,
) -> bool {
    &&& at.len() == turns.len()
    &&& forall|t: int, u: int| 0 <= t < u < at.len() ==> #[trigger] at[t] < #[trigger] at[u]
    &&& forall|t: int|
        0 <= t < at.len() ==> 0 <= #[trigger] at[t] < messages.len() && messages[at[t]].session_id
            == id && is_turn(turns[t], messages, parts, at[t])
    &&& forall|k: int|
        0 <= k < messages.len() && (#[trigger] messages[k]).session_id == id && messages[k].role
            is Assistant ==> at.contains(k)
}

proof fn turns_among_are_turns(
    messages: Seq<MessageView>,
    parts: Seq<PartView>,
    n: nat,
    id: Seq<char>,
) -> (at: Seq<int>)
    requires
        n <= messages.len(),
    ensures
        at.len() == turns_among(messages, parts, n, id).len(),
        forall|t: int, u: int| 0 <= t < u < at.len() ==> #[trigger] at[t] < #[trigger] at[u],
        forall|t: int|
            0 <= t < at.len() ==> 0 <= #[trigger] at[t] < n && messages[at[t]].session_id == id
                && is_turn(turns_among(messages, parts, n, id)[t], messages, parts, at[t]),
        forall|k: int|
            0 <= k < n && (#[trigger] messages[k]).session_id == id && messages[k].role is Assistant
                ==> at.contains(k),
    decreases n,
{
    if n == 0 {
        Seq::empty()
    } else {
        let k = n - 1;
        let before = turns_among_are_turns(messages, parts, k as nat, id);
        if messages[k].session_id == id && messages[k].role is Assistant {
            turn_of_is_turn(messages, parts, k);
            let at = before.push(k);
            assert forall|j: int|
                0 <= j < n && (#[trigger] messages[j]).session_id == id && messages[j].role
                    is Assistant implies at.contains(j) by {
                if j < k {
                    assert(before.contains(j));
                    let t = choose|t: int| 0 <= t < before.len() && before[t] == j;
                    assert(at[t] == j);
                } else {
                    assert(at[at.len() - 1] == j);
                }
            }
            at
        } else {
            before
        }
    }
}

/// The turns of a session are the messages of the assistant in it that the filter lets pass, all of
/// them and in their order, each with its time, its cost, and the tools and files of its parts.
pub proof fn turns_are_the_messages_of_the_assistant(
    metas: Seq<MetaView>,
    messages: Seq<MessageView>,
    parts: Seq<PartView>,
    filter: DateFilter,
    i: int,
) -> (at: Seq<int>)
    requires
        0 <= i < sessions_from(metas, messages, parts, filter).len(),
    ensures
        are_turns(
            at,
            sessions_from(metas, messages, parts, filter)[i].turns,
            messages_kept(metas, messages, filter),
            parts,
            sessions_from(metas, messages, parts, filter)[i].session_id,
        ),
{
    let kept = messages.filter(is_kept(metas, filter));
    let s = sessions_from(metas, messages, parts, filter)[i];
    kept_are_these(metas, messages, filter);
    session_has_meta(metas, messages, parts, filter, i);
    turns_among_are_turns(kept, parts, kept.len(), s.session_id)
}

/// Every message of the assistant that belongs to a known session and that the filter lets pass is a
/// turn of the session with its name, with its cost, whatever parts it has.
pub proof fn turns_keep_their_cost(
    metas: Seq<MetaView>,
    messages: Seq<MessageView>,
    parts: Seq<PartView>,
    filter: DateFilter,
    m: MessageView,
)
    requires
        messages.contains(m),
        is_known(metas, m.session_id),
        in_time(filter, m.seconds),
        m.role is Assistant,
    ensures
        exists|i: int, t: int|
            #![trigger sessions_from(metas, messages, parts, filter)[i].turns[t]]
            0 <= i < sessions_from(metas, messages, parts, filter).len() && 0 <= t
                < sessions_from(metas, messages, parts, filter)[i].turns.len() && {
                let s = sessions_from(metas, messages, parts, filter)[i];
                &&& s.session_id == m.session_id
                &&& s.turns[t].timestamp == m.timestamp
                &&& s.turns[t].message_count == 1
                &&& m.role == (messages::RoleView::Assistant {
                    input_tokens: s.turns[t].input_tokens,
                    output_tokens: s.turns[t].output_tokens,
                })
            },
{
    let kept = messages.filter(is_kept(metas, filter));
    let all = sessions_from(metas, messages, parts, filter);
    let j = choose|j: int| 0 <= j < metas.len() && (#[trigger] metas[j]).id == m.session_id;
    assert(meta_ids(metas)[j] == m.session_id);
    lists::filter_members(messages, is_kept(metas, filter), m);
    let k = choose|k: int| 0 <= k < kept.len() && kept[k] == m;
    let turn = turn_of(kept, parts, k);
    turn_of_is_turn(kept, parts, k);
    let s = session_from(metas[j], kept, parts);
    turns_among_members(kept, parts, kept.len(), m.session_id, turn);
    assert(s.turns.contains(turn));
    made_session_is_listed(metas, messages, parts, filter, j);
    let i = choose|i: int| 0 <= i < all.len() && all[i] == s;
    let t = choose|t: int| 0 <= t < s.turns.len() && s.turns[t] == turn;
    assert(all[i].turns[t].timestamp == m.timestamp);
}

/// Whether `prompt` is what message `k` of the user says: at the time of the message, the words of
/// its parts line by line, and, where these have more than 500 bytes, their first 500 characters with
/// three dots behind them.
pub open spec fn is_prompt(
    prompt: PromptView,
    messages: Seq<MessageView>,
    parts: Seq<PartView>,
    k: int,
) -> bool {
    let lines = text::joined(words_in(messages, parts, k), seq!['\n']);
    &&& prompt.timestamp == messages[k].timestamp
    &&& prompt.text == if vstd::utf8::encode_utf8(lines).len() <= 500 {
        lines
    } else if lines.len() <= 500 {
        lines + seq!['.', '.', '.']
    } else {
        lines.take(500) + seq!['.', '.', '.']
    }
}

/// Whether message `k` is one of the user in the session `id` and has words.
pub open spec fn has_words(
    messages: Seq<MessageView>,
    parts: Seq<PartView>,
    k: int,
    id: Seq<char>,
) -> bool {
    &&& 0 <= k < messages.len()
    &&& messages[k].session_id == id
    &&& messages[k].role is User
    &&& words_in(messages, parts, k).len() > 0
}

/// Whether `prompts` are the messages of the user at the places `at`, each once, and these are all
/// with words in the session `id`; and the prompts stand by their time.
pub open spec fn are_prompts(
    at: Seq<int>,
    prompts: Seq<PromptView>,
    messages: Seq<MessageView>,
    parts: Seq<PartView>,
    id: Seq<char>,
) -> bool {
    &&& at.len() == prompts.len()
    &&& at.no_duplicates()
    &&& forall|p: int|
        0 <= p < at.len() ==> has_words(messages, parts, #[trigger] at[p], id) && is_prompt(
            prompts[p],
            messages,
            parts,
            at[p],
        )
    &&& forall|k: int| #[trigger] has_words(messages, parts, k, id) ==> at.contains(k)
    &&& forall|p: int, q: int|
        0 <= p < q < prompts.len() ==> text::text_leq(
            (#[trigger] prompts[p]).timestamp,
            (#[trigger] prompts[q]).timestamp,
        )
}

proof fn prompt_of_is_prompt(messages: Seq<MessageView>, parts: Seq<PartView>, k: int)
    requires
        0 <= k < messages.len(),
        messages[k].role is User,
    ensures
        is_prompt(prompt_of(messages, parts, k), messages, parts, k),
{
    parts_go_to_their_message(messages, parts, k);
    reveal_strlit("\n");
    assert("\n"@ =~= seq!['\n']);
    messages::truncated_keeps_the_beginning(
        text::joined(words_in(messages, parts, k), seq!['\n']),
        500,
    );
}

proof fn prompts_at_are_prompts(
    messages: Seq<MessageView>,
    parts: Seq<PartView>,
    at: Seq<int>,
    id: Seq<char>,
)
    ensures
        prompts_at(messages, parts, at, id) == at.filter(
            |k: int| messages[k].session_id == id,
        ).map_values(|k: int| prompt_of(messages, parts, k)),
    decreases at.len(),
{
    reveal(Seq::filter);
    let own = |k: int| messages[k].session_id == id;
    let make = |k: int| prompt_of(messages, parts, k);
    if at.len() > 0 {
        prompts_at_are_prompts(messages, parts, at.drop_last(), id);
    }
    assert(prompts_at(messages, parts, at, id) =~= at.filter(own).map_values(make));
}

/// What a list that was sorted after it was made out of another was made of: the items in some order,
/// each as often as before.
proof fn sorted_sources<V>(from: Seq<int>, make: spec_fn(int) -> V, out: Seq<V>) -> (at: Seq<int>)
    requires
        from.no_duplicates(),
        out.to_multiset() == from.map_values(make).to_multiset(),
    ensures
        at.len() == out.len(),
        at.no_duplicates(),
        forall|i: int|
            0 <= i < at.len() ==> from.contains(#[trigger] at[i]) && out[i] == make(at[i]),
        forall|k: int| #[trigger] from.contains(k) ==> at.contains(k),
    decreases out.len(),
{
    broadcast use vstd::seq_lib::group_to_multiset_ensures;

    assert(out.len() == out.to_multiset().len());
    assert(from.map_values(make).len() == from.map_values(make).to_multiset().len());
    if out.len() == 0 {
        assert forall|k: int| from.contains(k) implies false by {}
        Seq::empty()
    } else {
        let x = out.last();
        let front = out.drop_last();
        assert(out =~= front.push(x));
        assert(out[out.len() - 1] == x);
        assert(out.contains(x));
        assert(out.to_multiset().count(x) > 0);
        let made = from.map_values(make);
        assert(made.contains(x));
        let j = choose|j: int| 0 <= j < made.len() && made[j] == x;
        let rest = from.remove(j);
        vstd::seq_lib::to_multiset_remove(made, j);
        assert(made.remove(j) =~= rest.map_values(make));
        assert(front.to_multiset() =~= rest.map_values(make).to_multiset());
        let before = sorted_sources(rest, make, front);
        let at = before.push(from[j]);
        assert forall|k: int| #[trigger] rest.contains(k) implies from.contains(k) && k != from[j] by {
            let r = choose|r: int| 0 <= r < rest.len() && rest[r] == k;
            if r < j {
                assert(from[r] == k);
            } else {
                assert(from[r + 1] == k);
            }
        }
        assert forall|i: int| 0 <= i < at.len() implies from.contains(#[trigger] at[i]) && out[i]
            == make(at[i]) by {
            if i < before.len() {
                assert(rest.contains(before[i]));
                assert(front[i] == out[i]);
            }
        }
        assert forall|a: int, b: int| 0 <= a < at.len() && 0 <= b < at.len() && a != b implies at[a]
            != at[b] by {
            if a < before.len() {
                assert(rest.contains(before[a]));
            }
            if b < before.len() {
                assert(rest.contains(before[b]));
            }
        }
        assert forall|k: int| #[trigger] from.contains(k) implies at.contains(k) by {
            let r = choose|r: int| 0 <= r < from.len() && from[r] == k;
            if r == j {
                assert(at[at.len() - 1] == k);
            } else {
                if r < j {
                    assert(rest[r] == k);
                } else {
                    assert(rest[r - 1] == k);
                }
                assert(rest.contains(k));
                assert(before.contains(k));
                let i = choose|i: int| 0 <= i < before.len() && before[i] == k;
                assert(at[i] == k);
            }
        }
        at
    }
}

proof fn filter_no_duplicates(s: Seq<int>, p: spec_fn(int) -> bool)
    requires
        s.no_duplicates(),
    ensures
        s.filter(p).no_duplicates(),
    decreases s.len(),
{
    reveal(Seq::filter);
    if s.len() > 0 {
        let front = s.drop_last();
        assert forall|a: int, b: int| 0 <= a < front.len() && 0 <= b < front.len() && a != b implies front[a]
            != front[b] by {
            assert(s[a] != s[b]);
        }
        filter_no_duplicates(front, p);
        let kept = front.filter(p);
        if p(s.last()) {
            assert forall|a: int| 0 <= a < kept.len() implies #[trigger] kept[a] != s.last() by {
                assert(kept.contains(kept[a]));
                lists::filter_members(front, p, kept[a]);
                let b = choose|b: int| 0 <= b < front.len() && front[b] == kept[a];
                assert(s[b] != s[s.len() - 1]);
            }
        }
    }
}

/// The prompts of a session are the messages of the user in it that have words and that the filter
/// lets pass, each of them once and by their time, and each says the words of all its parts.
pub proof fn prompts_are_the_messages_of_the_user(
    metas: Seq<MetaView>,
    messages: Seq<MessageView>,
    parts: Seq<PartView>,
    filter: DateFilter,
    i: int,
) -> (at: Seq<int>)
    requires
        0 <= i < sessions_from(metas, messages, parts, filter).len(),
    ensures
        are_prompts(
            at,
            sessions_from(metas, messages, parts, filter)[i].prompts,
            messages_kept(metas, messages, filter),
            parts,
            sessions_from(metas, messages, parts, filter)[i].session_id,
        ),
{
    let kept = messages.filter(is_kept(metas, filter));
    let s = sessions_from(metas, messages, parts, filter)[i];
    let id = s.session_id;
    kept_are_these(metas, messages, filter);
    session_has_meta(metas, messages, parts, filter, i);
    let places = prompts_in(kept, parts);
    let own = |k: int| kept[k].session_id == id;
    let make = |k: int| prompt_of(kept, parts, k);
    a_message_is_one_prompt(kept, parts);
    prompts_at_are_prompts(kept, parts, places, id);
    filter_no_duplicates(places, own);
    order::sorted_keeps_items(
        prompts_at(kept, parts, places, id),
        order::order_of::<ParsedUserEntry, ByTime>(),
    );
    let from = places.filter(own);
    let at = sorted_sources(from, make, s.prompts);
    assert forall|k: int| #[trigger] from.contains(k) <==> has_words(kept, parts, k, id) by {
        lists::filter_members(places, own, k);
        if 0 <= k < kept.len() {
            parts_go_to_their_message(kept, parts, k);
        }
    }
    assert forall|p: int| 0 <= p < at.len() implies has_words(kept, parts, #[trigger] at[p], id)
        && is_prompt(s.prompts[p], kept, parts, at[p]) by {
        assert(from.contains(at[p]));
        prompt_of_is_prompt(kept, parts, at[p]);
    }
    assert forall|k: int| #[trigger] has_words(kept, parts, k, id) implies at.contains(k) by {
        assert(from.contains(k));
    }
    assert forall|p: int, q: int| 0 <= p < q < s.prompts.len() implies text::text_leq(
        (#[trigger] s.prompts[p]).timestamp,
        (#[trigger] s.prompts[q]).timestamp,
    ) by {
        prompts_are_by_time(kept, parts, id, p, q);
    }
    at
}

/// Each session is one of the known ones, with its project and its directory; it has no branch.
pub proof fn sessions_are_the_known_ones(
    metas: Seq<MetaView>,
    messages: Seq<MessageView>,
    parts: Seq<PartView>,
    filter: DateFilter,
    i: int,
)
    requires
        0 <= i < sessions_from(metas, messages, parts, filter).len(),
    ensures
        stems_from_known(sessions_from(metas, messages, parts, filter)[i], metas),
{
    session_has_meta(metas, messages, parts, filter, i);
}

/// The later the last prompt of a session, the further ahead it stands, and those without prompts
/// stand last.
pub proof fn later_sessions_stand_ahead(
    metas: Seq<MetaView>,
    messages: Seq<MessageView>,
    parts: Seq<PartView>,
    filter: DateFilter,
    i: int,
    j: int,
)
    requires
        0 <= i < j < sessions_from(metas, messages, parts, filter).len(),
    ensures
        ({
            let a = sessions_from(metas, messages, parts, filter)[i];
            let b = sessions_from(metas, messages, parts, filter)[j];
            b.prompts.len() > 0 && b.prompts.last().timestamp.len() > 0 ==> a.prompts.len() > 0
                && text::text_leq(b.prompts.last().timestamp, a.prompts.last().timestamp)
        }),
{
    sessions_are_by_last_prompt(metas, messages, parts, filter, i, j);
    reveal_strlit("");
}

/// Whether a session has the name, the project and the directory of one of the known ones, and no
/// branch.
pub open spec fn stems_from_known(s: SessionView, metas: Seq<MetaView>) -> bool {
    &&& s.git_branch is None
    &&& exists|m: int|
        0 <= m < metas.len() && (#[trigger] metas[m]).id == s.session_id && metas[m].project
            == s.project && metas[m].project_path == s.project_path
}

/// The tokens of a message on either side; none for one of the user.
pub open spec fn cost_of(m: MessageView) -> (nat, nat) {
    match m.role {
        messages::RoleView::Assistant { input_tokens, output_tokens } => (
            input_tokens,
            output_tokens,
        ),
        messages::RoleView::User => (0, 0),
    }
}

/// Whether no two known sessions have one name.
pub open spec fn names_differ(metas: Seq<MetaView>) -> bool {
    forall|i: int, j: int|
        0 <= i < metas.len() && 0 <= j < metas.len() && i != j ==> (#[trigger] metas[i]).id != (
        #[trigger] metas[j]).id
}

proof fn costs_among(
    metas: Seq<MetaView>,
    messages: Seq<MessageView>,
    parts: Seq<PartView>,
    n: nat,
    of_turn: spec_fn(TurnView) -> nat,
    of_message: spec_fn(MessageView) -> nat,
)
    requires
        n <= messages.len(),
        names_differ(metas),
        forall|k: int|
            0 <= k < messages.len() ==> is_known(metas, (#[trigger] messages[k]).session_id),
        forall|k: int|
            0 <= k < messages.len() && (#[trigger] messages[k]).role is Assistant ==> of_turn(
                turn_of(messages, parts, k),
            ) == of_message(messages[k]),
        forall|k: int|
            0 <= k < messages.len() && (#[trigger] messages[k]).role is User ==> of_message(
                messages[k],
            ) == 0,
    ensures
        lists::sum_by(
            metas,
            |meta: MetaView|
                lists::sum_by(turns_among(messages, parts, n, meta.id), of_turn),
        ) == lists::sum_by(messages.take(n as int), of_message),
    decreases n,
{
    let all = |meta: MetaView| lists::sum_by(turns_among(messages, parts, n, meta.id), of_turn);
    if n == 0 {
        assert(messages.take(0) =~= Seq::<MessageView>::empty());
        assert forall|i: int| 0 <= i < metas.len() implies all(#[trigger] metas[i]) == 0 by {}
        lists::sum_by_of_zero(metas, all);
    } else {
        let k = n - 1;
        let x = messages[k];
        let front = |meta: MetaView|
            lists::sum_by(turns_among(messages, parts, k as nat, meta.id), of_turn);
        let own = |meta: MetaView|
            if meta.id == x.session_id {
                of_message(x)
            } else {
                0
            };
        costs_among(metas, messages, parts, k as nat, of_turn, of_message);
        assert(messages.take(n as int).drop_last() =~= messages.take(k));
        assert(messages.take(n as int).last() == x);
        assert forall|meta: MetaView| #[trigger] all(meta) == front(meta) + own(meta) by {
            let before = turns_among(messages, parts, k as nat, meta.id);
            if meta.id == x.session_id && x.role is Assistant {
                let turn = turn_of(messages, parts, k);
                assert(before.push(turn).drop_last() =~= before);
                assert(messages[k].role is Assistant);
            } else if meta.id == x.session_id {
                assert(messages[k].role is User);
            }
        }
        lists::sum_by_of_sum(metas, front, own, all);
        assert(is_known(metas, messages[k].session_id));
        let m = choose|m: int| 0 <= m < metas.len() && (#[trigger] metas[m]).id == x.session_id;
        assert(metas.no_duplicates()) by {
            assert forall|a: int, b: int| 0 <= a < metas.len() && 0 <= b < metas.len() && a != b implies metas[a]
                != metas[b] by {
                assert(metas[a].id != metas[b].id);
            }
        }
        let only = |meta: MetaView|
            if meta == metas[m] {
                of_message(x)
            } else {
                0
            };
        assert(metas.contains(metas[m]));
        lists::sum_by_of_one(metas, metas[m], only);
        sum_by_same(metas, own, only);
    }
}

proof fn sum_by_same<V>(s: Seq<V>, f: spec_fn(V) -> nat, g: spec_fn(V) -> nat)
    requires
        forall|i: int| 0 <= i < s.len() ==> f(#[trigger] s[i]) == g(s[i]),
    ensures
        lists::sum_by(s, f) == lists::sum_by(s, g),
    decreases s.len(),
{
    if s.len() > 0 {
        let front = s.drop_last();
        assert forall|i: int| 0 <= i < front.len() implies f(#[trigger] front[i]) == g(front[i]) by {
            assert(front[i] == s[i]);
        }
        sum_by_same(front, f, g);
        assert(f(s[s.len() - 1]) == g(s[s.len() - 1]));
    }
}

proof fn sum_by_of_used(s: Seq<SessionView>, p: spec_fn(SessionView) -> bool, f: spec_fn(SessionView) -> nat)
    requires
        forall|x: SessionView| !p(x) ==> #[trigger] f(x) == 0,
    ensures
        lists::sum_by(s.filter(p), f) == lists::sum_by(s, f),
    decreases s.len(),
{
    reveal(Seq::filter);
    if s.len() > 0 {
        let front = s.drop_last();
        sum_by_of_used(front, p, f);
        if p(s.last()) {
            assert(front.filter(p).push(s.last()).drop_last() =~= front.filter(p));
        }
    }
}

/// The tokens of the turns of all sessions together are those of the messages of the assistant that
/// belong to a known session and that the filter lets pass: none is lost and none counts twice.
pub proof fn tokens_add_up(
    metas: Seq<MetaView>,
    messages: Seq<MessageView>,
    parts: Seq<PartView>,
    filter: DateFilter,
)
    requires
        names_differ(metas),
    ensures
        lists::sum_by(
            sessions_from(metas, messages, parts, filter),
            |s: SessionView| lists::sum_by(s.turns, |t: TurnView| t.input_tokens),
        ) == lists::sum_by(
            messages_kept(metas, messages, filter),
            |m: MessageView| cost_of(m).0,
        ),
        lists::sum_by(
            sessions_from(metas, messages, parts, filter),
            |s: SessionView| lists::sum_by(s.turns, |t: TurnView| t.output_tokens),
        ) == lists::sum_by(
            messages_kept(metas, messages, filter),
            |m: MessageView| cost_of(m).1,
        ),
        lists::sum_by(
            sessions_from(metas, messages, parts, filter),
            |s: SessionView| s.turns.len(),
        ) == messages_kept(metas, messages, filter).filter(
            |m: MessageView| m.role is Assistant,
        ).len(),
{
    let kept = messages_kept(metas, messages, filter);
    let input = |t: TurnView| t.input_tokens;
    let output = |t: TurnView| t.output_tokens;
    let one = |t: TurnView| 1nat;
    let is_assistant = |m: MessageView| m.role is Assistant;
    let one_each = |m: MessageView|
        if m.role is Assistant {
            1nat
        } else {
            0
        };
    kept_are_these(metas, messages, filter);
    assert forall|k: int| 0 <= k < kept.len() implies is_known(
        metas,
        (#[trigger] kept[k]).session_id,
    ) by {
        assert(kept.contains(kept[k]));
        lists::filter_members(messages, is_kept(metas, filter), kept[k]);
        let j = choose|j: int|
            0 <= j < meta_ids(metas).len() && meta_ids(metas)[j] == kept[k].session_id;
        assert(metas[j].id == kept[k].session_id);
    }
    assert(kept.take(kept.len() as int) =~= kept);
    costs_among(metas, kept, parts, kept.len(), input, |m: MessageView| cost_of(m).0);
    costs_among(metas, kept, parts, kept.len(), output, |m: MessageView| cost_of(m).1);
    costs_among(metas, kept, parts, kept.len(), one, one_each);
    lists::sum_by_counts(kept, is_assistant, one_each);
    sums_of_sessions(metas, messages, parts, filter, input);
    sums_of_sessions(metas, messages, parts, filter, output);
    sums_of_sessions(metas, messages, parts, filter, one);
    let all = sessions_from(metas, messages, parts, filter);
    let ones = |s: SessionView| lists::sum_by(s.turns, one);
    let lens = |s: SessionView| s.turns.len();
    assert forall|i: int| 0 <= i < all.len() implies ones(#[trigger] all[i]) == lens(all[i]) by {
        lists::sum_by_of_ones(all[i].turns, one);
    }
    sum_by_same(all, ones, lens);
}

proof fn sums_of_sessions(
    metas: Seq<MetaView>,
    messages: Seq<MessageView>,
    parts: Seq<PartView>,
    filter: DateFilter,
    of_turn: spec_fn(TurnView) -> nat,
)
    ensures
        ({
            let kept = messages_kept(metas, messages, filter);
            lists::sum_by(
                sessions_from(metas, messages, parts, filter),
                |s: SessionView| lists::sum_by(s.turns, of_turn),
            ) == lists::sum_by(
                metas,
                |meta: MetaView|
                    lists::sum_by(turns_among(kept, parts, kept.len(), meta.id), of_turn),
            )
        }),
{
    let kept = messages_kept(metas, messages, filter);
    kept_are_these(metas, messages, filter);
    let of_session = |s: SessionView| lists::sum_by(s.turns, of_turn);
    let make = |meta: MetaView| session_from(meta, kept, parts);
    let of_meta = |meta: MetaView|
        lists::sum_by(turns_among(kept, parts, kept.len(), meta.id), of_turn);
    let made = metas.map_values(make);
    order::sum_of_sorted(
        made.filter(is_used()),
        order::order_of::<RawSession, ByLastPrompt>(),
        of_session,
    );
    sum_by_of_used(made, is_used(), of_session);
    lists::sum_by_of_map(metas, make, of_session, of_meta);
}

/// Whether the rows of a database know a session with this name.
pub open spec fn has_session_row(rows: RowsView, id: Seq<char>) -> bool {
    exists|k: int| 0 <= k < rows.sessions.len() && (#[trigger] rows.sessions[k]).id == id
}

/// Each session out of a database has the name of a row, the directory that such a row gives, and the
/// project of that directory; and no two have one name.
pub proof fn sessions_stem_from_rows(
    sessions: Seq<SessionView>,
    rows: RowsView,
    filter: DateFilter,
    i: int,
)
    requires
        are_sessions_in(sessions, rows, filter),
        0 <= i < sessions.len(),
    ensures
        sessions[i].git_branch is None,
        projects::is_project_name(sessions[i].project_path, sessions[i].project),
        exists|k: int|
            0 <= k < rows.sessions.len() && (#[trigger] rows.sessions[k]).id
                == sessions[i].session_id && sessions[i].project_path == projects::session_path(
                rows.sessions[k],
                rows.projects,
            ),
        sessions[i].prompts.len() + sessions[i].turns.len() > 0,
{
    let messages = messages::messages_in(rows.messages);
    let parts = messages::parts_in(rows.parts);
    let metas = choose|metas: Seq<MetaView>| #[trigger]
        projects::are_metas_of(metas, rows.sessions, rows.projects) && sessions == sessions_from(
            metas,
            messages,
            parts,
            filter,
        );
    sessions_are_the_known_ones(metas, messages, parts, filter, i);
    sessions_hold_something(metas, messages, parts, filter, i);
    let m = choose|m: int|
        0 <= m < metas.len() && (#[trigger] metas[m]).id == sessions[i].session_id
            && metas[m].project == sessions[i].project && metas[m].project_path
            == sessions[i].project_path;
    if rows.sessions.len() == 0 {
        assert(projects::row_ids(rows.sessions) =~= Seq::<Seq<char>>::empty());
    }
    projects::metas_are_those_of_rows(metas, rows.sessions, rows.projects, 0);
    assert(projects::is_project_name(metas[m].project_path, metas[m].project));
}

/// A row of the table of messages that is the assistant's becomes a turn of its session with the
/// tokens that its data note, where the session is known and the filter lets its time pass.
pub proof fn rows_become_turns(
    sessions: Seq<SessionView>,
    rows: RowsView,
    filter: DateFilter,
    r: int,
)
    requires
        are_sessions_in(sessions, rows, filter),
        0 <= r < rows.messages.len(),
        messages::timestamp_of(rows.messages[r].time_created_ms) is Some,
        messages::holds_text(rows.messages[r].data, "/role"@, "assistant"@),
        has_session_row(rows, rows.messages[r].session_id),
        in_time(filter, messages::whole_seconds(rows.messages[r].time_created_ms) as i64),
    ensures
        exists|i: int, t: int|
            #![trigger sessions[i].turns[t]]
            0 <= i < sessions.len() && 0 <= t < sessions[i].turns.len() && sessions[i].session_id
                == rows.messages[r].session_id && {
                let turn = sessions[i].turns[t];
                let data = rows.messages[r].data;
                &&& messages::timestamp_of(rows.messages[r].time_created_ms) == Some(turn.timestamp)
                &&& turn.message_count == 1
                &&& turn.input_tokens == messages::tokens_at(
                    json::json_lookup(data, "/tokens/input"@),
                )
                &&& turn.output_tokens == messages::tokens_at(
                    json::json_lookup(data, "/tokens/output"@),
                )
            },
{
    let messages = messages::messages_in(rows.messages);
    let parts = messages::parts_in(rows.parts);
    let row = rows.messages[r];
    let metas = choose|metas: Seq<MetaView>| #[trigger]
        projects::are_metas_of(metas, rows.sessions, rows.projects) && sessions == sessions_from(
            metas,
            messages,
            parts,
            filter,
        );
    messages::messages_are_read(row);
    messages::roles_are_read(row.data);
    let m = messages::message_in(row)->0;
    assert(messages::message_in(rows.messages[r]) == Some(m));
    messages::messages_stem_from_rows(rows.messages, m);
    let k = choose|k: int|
        0 <= k < rows.sessions.len() && (#[trigger] rows.sessions[k]).id == row.session_id;
    projects::metas_are_those_of_rows(metas, rows.sessions, rows.projects, k);
    assert(is_known(metas, m.session_id));
    turns_keep_their_cost(metas, messages, parts, filter, m);
}

/// The sessions of the databases come one database behind the other: those of the first, and then
/// those of the others.
pub proof fn databases_come_in_order(
    found: Seq<Seq<SessionView>>,
    more: Seq<Seq<SessionView>>,
    sessions: Seq<SessionView>,
)
    ensures
        joined(found + more) == joined(found) + joined(more),
        joined(seq![sessions]) == sessions,
        joined(Seq::empty()) == Seq::<SessionView>::empty(),
{
    lists::flat_by_of_parts(found, more, sessions, |s: Seq<SessionView>| s);
}

/// Whether `sessions` are made of the rows of a database by what is known of the sessions in them:
/// each of the messages and parts that belong to it.
pub open spec fn are_made_of(
    sessions: Seq<SessionView>,
    metas: Seq<MetaView>,
    rows: RowsView,
    filter: DateFilter,
) -> bool {
    let kept = messages_kept(metas, messages::messages_in(rows.messages), filter);
    let parts = messages::parts_in(rows.parts);
    &&& projects::are_metas_of(metas, rows.sessions, rows.projects)
    &&& forall|i: int|
        0 <= i < sessions.len() ==> stems_from_known(#[trigger] sessions[i], metas) && (exists|
            at: Seq<int>,
        | #[trigger]
            are_turns(at, sessions[i].turns, kept, parts, sessions[i].session_id)) && (exists|
            at: Seq<int>,
        | #[trigger]
            are_prompts(at, sessions[i].prompts, kept, parts, sessions[i].session_id))
    &&& forall|k: int|
        0 <= k < kept.len() && ((#[trigger] kept[k]).role is Assistant || words_in(
            kept,
            parts,
            k,
        ).len() > 0) ==> exists|i: int|
            0 <= i < sessions.len() && (#[trigger] sessions[i]).session_id == kept[k].session_id
}

/// The sessions in the rows of a database are made of these rows: of the sessions in them, and of
/// their messages and parts. No message of the assistant is lost, nor one of the user that has words.
pub proof fn sessions_are_made_of_rows(
    sessions: Seq<SessionView>,
    rows: RowsView,
    filter: DateFilter,
)
    requires
        are_sessions_in(sessions, rows, filter),
    ensures
        exists|metas: Seq<MetaView>| #[trigger] are_made_of(sessions, metas, rows, filter),
{
    let messages = messages::messages_in(rows.messages);
    let parts = messages::parts_in(rows.parts);
    let metas = choose|metas: Seq<MetaView>| #[trigger]
        projects::are_metas_of(metas, rows.sessions, rows.projects) && sessions == sessions_from(
            metas,
            messages,
            parts,
            filter,
        );
    let kept = messages_kept(metas, messages, filter);
    assert forall|i: int| 0 <= i < sessions.len() implies stems_from_known(
        #[trigger] sessions[i],
        metas,
    ) && (exists|at: Seq<int>| #[trigger]
        are_turns(at, sessions[i].turns, kept, parts, sessions[i].session_id)) && (exists|
        at: Seq<int>,
    | #[trigger]
        are_prompts(at, sessions[i].prompts, kept, parts, sessions[i].session_id)) by {
        sessions_are_the_known_ones(metas, messages, parts, filter, i);
        let turns = turns_are_the_messages_of_the_assistant(metas, messages, parts, filter, i);
        let prompts = prompts_are_the_messages_of_the_user(metas, messages, parts, filter, i);
        assert(are_turns(turns, sessions[i].turns, kept, parts, sessions[i].session_id));
        assert(are_prompts(prompts, sessions[i].prompts, kept, parts, sessions[i].session_id));
    }
    kept_are_these(metas, messages, filter);
    assert forall|k: int|
        0 <= k < kept.len() && ((#[trigger] kept[k]).role is Assistant || words_in(
            kept,
            parts,
            k,
        ).len() > 0) implies exists|i: int|
        0 <= i < sessions.len() && (#[trigger] sessions[i]).session_id == kept[k].session_id by {
        parts_go_to_their_message(kept, parts, k);
        if kept[k].role is Assistant {
            assert(kept.contains(kept[k]));
            lists::filter_members(messages, is_kept(metas, filter), kept[k]);
            turns_are_collected(metas, messages, parts, filter, kept[k]);
        } else {
            prompts_are_collected(metas, messages, parts, filter, k);
        }
    }
    assert(are_made_of(sessions, metas, rows, filter));
}

/// The views of the rows of a database are their fields.
pub proof fn rows_show_their_fields(rows: HistoryRows)
    ensures
        rows.deep_view().projects.len() == rows.projects.len(),
        rows.deep_view().sessions.len() == rows.sessions.len(),
        rows.deep_view().messages.len() == rows.messages.len(),
        rows.deep_view().parts.len() == rows.parts.len(),
        forall|i: int|
            0 <= i < rows.projects.len() ==> (#[trigger] rows.deep_view().projects[i]).id
                == rows.projects[i].id@ && rows.deep_view().projects[i].worktree
                == rows.projects[i].worktree@,
        forall|i: int|
            0 <= i < rows.sessions.len() ==> (#[trigger] rows.deep_view().sessions[i]).id
                == rows.sessions[i].id@ && rows.deep_view().sessions[i].project_id
                == rows.sessions[i].project_id@ && rows.deep_view().sessions[i].directory
                == rows.sessions[i].directory@,
        forall|i: int|
            0 <= i < rows.messages.len() ==> (#[trigger] rows.deep_view().messages[i]).id
                == rows.messages[i].id@ && rows.deep_view().messages[i].session_id
                == rows.messages[i].session_id@ && rows.deep_view().messages[i].time_created_ms
                == rows.messages[i].time_created_ms && rows.deep_view().messages[i].data
                == rows.messages[i].data@,
        forall|i: int|
            0 <= i < rows.parts.len() ==> (#[trigger] rows.deep_view().parts[i]).message_id
                == rows.parts[i].message_id@ && rows.deep_view().parts[i].data == rows.parts[i].data@,
{
}

/// Whether part `f` is the first that holds words of message `k`.
pub open spec fn starts_with_part(
    messages: Seq<MessageView>,
    parts: Seq<PartView>,
    k: int,
    f: int,
) -> bool {
    &&& 0 <= f < parts.len()
    &&& is_part_of(messages, k, parts[f]) && parts[f].content is Text
    &&& forall|g: int|
        0 <= g < f ==> !(is_part_of(messages, k, #[trigger] parts[g]) && parts[g].content is Text)
}

proof fn words_have_a_first_part(messages: Seq<MessageView>, parts: Seq<PartView>, k: int) -> (f: int)
    requires
        0 <= k < messages.len(),
        words_of(messages, parts, k).len() > 0,
    ensures
        starts_with_part(messages, parts, k, f),
    decreases parts.len(),
{
    let n = parts.len() - 1;
    let front = parts.drop_last();
    assert(parts.take(n) =~= front && parts.take(n + 1) =~= parts);
    only_holder_gains(messages, parts, n, k);
    if words_of(messages, front, k).len() > 0 {
        let f = words_have_a_first_part(messages, front, k);
        assert forall|g: int| 0 <= g < f implies !(is_part_of(messages, k, #[trigger] parts[g])
            && parts[g].content is Text) by {
            assert(parts[g] == front[g]);
        }
        assert(parts[f] == front[f]);
        f
    } else {
        holder_is_last(messages, k, parts[n]);
        assert forall|g: int| 0 <= g < n implies !(is_part_of(messages, k, #[trigger] parts[g])
            && parts[g].content is Text) by {
            if is_part_of(messages, k, parts[g]) && parts[g].content is Text {
                assert(front[g] == parts[g]);
                holder_is_last(messages, k, front[g]);
                let words = |p: PartView| words_for(messages, p, k);
                let word = words_for(messages, front[g], k)[0];
                assert(words_for(messages, front[g], k).contains(word));
                lists::flat_by_has(front, words, g, word);
                assert(words_of(messages, front, k).contains(word));
            }
        }
        n
    }
}

proof fn prompts_in_stand_by_first_part(
    messages: Seq<MessageView>,
    parts: Seq<PartView>,
    i: int,
    j: int,
    f: int,
    g: int,
)
    requires
        0 <= i < j < prompts_in(messages, parts).len(),
        starts_with_part(messages, parts, prompts_in(messages, parts)[i], f),
        starts_with_part(messages, parts, prompts_in(messages, parts)[j], g),
    ensures
        f < g,
    decreases parts.len(),
{
    let n = parts.len() - 1;
    let front = parts.drop_last();
    let before = prompts_in(messages, front);
    let at = prompts_in(messages, parts);
    a_message_is_one_prompt(messages, front);
    assert forall|a: int| 0 <= a < before.len() implies at[a] == before[a] && exists|h: int| #[trigger]
        starts_with_part(messages, front, before[a], h) by {
        assert(before.contains(before[a]));
        let h = words_have_a_first_part(messages, front, before[a]);
        assert(starts_with_part(messages, front, before[a], h));
    }
    front_starts(messages, parts, at[i], f);
    let h = choose|h: int| #[trigger] starts_with_part(messages, front, before[i], h);
    front_start_is(messages, parts, at[i], f, h);
    if j < before.len() {
        let k = choose|k: int| #[trigger] starts_with_part(messages, front, before[j], k);
        front_start_is(messages, parts, at[j], g, k);
        prompts_in_stand_by_first_part(messages, front, i, j, f, g);
    } else {
        // The last part is the first of its message.
        holder_bound(messages, parts.last().message_id);
        let k = at[j];
        if g < n {
            assert(front[g] == parts[g]);
            holder_is_last(messages, k, front[g]);
            let words = |p: PartView| words_for(messages, p, k);
            let word = words_for(messages, front[g], k)[0];
            assert(words_for(messages, front[g], k).contains(word));
            lists::flat_by_has(front, words, g, word);
            assert(words_of(messages, front, k).contains(word));
        }
    }
}

proof fn front_starts(messages: Seq<MessageView>, parts: Seq<PartView>, k: int, f: int)
    requires
        parts.len() > 0,
        starts_with_part(messages, parts, k, f),
    ensures
        f < parts.len() - 1 ==> starts_with_part(messages, parts.drop_last(), k, f),
{
    let front = parts.drop_last();
    if f < parts.len() - 1 {
        assert(front[f] == parts[f]);
        assert forall|g: int| 0 <= g < f implies !(is_part_of(messages, k, #[trigger] front[g])
            && front[g].content is Text) by {
            assert(front[g] == parts[g]);
        }
    }
}

proof fn front_start_is(messages: Seq<MessageView>, parts: Seq<PartView>, k: int, f: int, h: int)
    requires
        parts.len() > 0,
        starts_with_part(messages, parts, k, f),
        starts_with_part(messages, parts.drop_last(), k, h),
    ensures
        f == h,
        starts_with_part(messages, parts.drop_last(), k, f),
{
    let front = parts.drop_last();
    assert(front[h] == parts[h]);
    if f < h {
        assert(front[f] == parts[f]);
    } else if h < f {
        assert(is_part_of(messages, k, parts[h]));
    }
}

/// Prompts of one time stand in the order in which their first words come among the parts.
pub proof fn prompts_of_one_time_stand_by_first_words(
    messages: Seq<MessageView>,
    parts: Seq<PartView>,
    id: Seq<char>,
    x: PromptView,
)
    ensures
        session_prompts(messages, parts, id).filter(|p: PromptView| p.timestamp == x.timestamp)
            == prompts_in(messages, parts).filter(
            |k: int| messages[k].session_id == id && messages[k].timestamp == x.timestamp,
        ).map_values(|k: int| prompt_of(messages, parts, k)),
        forall|i: int, j: int, f: int, g: int|
            0 <= i < j < prompts_in(messages, parts).len() && #[trigger] starts_with_part(
                messages,
                parts,
                prompts_in(messages, parts)[i],
                f,
            ) && #[trigger] starts_with_part(messages, parts, prompts_in(messages, parts)[j], g)
                ==> f < g,
{
    let at = prompts_in(messages, parts);
    let own = |k: int| messages[k].session_id == id;
    let both = |k: int| messages[k].session_id == id && messages[k].timestamp == x.timestamp;
    let timed = |k: int| messages[k].timestamp == x.timestamp;
    let make = |k: int| prompt_of(messages, parts, k);
    let same = |p: PromptView| p.timestamp == x.timestamp;
    let level = order::level_with::<ParsedUserEntry, ByTime>(x);
    let given = prompts_at(messages, parts, at, id);
    order::sorted_is_stable::<ParsedUserEntry, ByTime>(given, x);
    assert forall|p: PromptView| #[trigger] level(p) == same(p) by {
        text::text_leq_total(x.timestamp, x.timestamp);
        if level(p) {
            text::text_leq_antisymmetric(p.timestamp, x.timestamp);
        }
    }
    lists::filter_same(given, level, same);
    lists::filter_same(session_prompts(messages, parts, id), level, same);
    prompts_at_are_prompts(messages, parts, at, id);
    lists::filter_of_map(at.filter(own), make, timed, same);
    lists::filter_twice(at, own, timed, both);
    assert forall|i: int, j: int, f: int, g: int|
        0 <= i < j < at.len() && #[trigger] starts_with_part(messages, parts, at[i], f)
            && #[trigger] starts_with_part(messages, parts, at[j], g) implies f < g by {
        prompts_in_stand_by_first_part(messages, parts, i, j, f, g);
    }
}

/// Where a database could not be read, the error is that of the first such one: all before it could
/// be read. Where all could, there is none.
pub proof fn the_first_error_counts<E>(databases: Seq<Result<HistoryRows, E>>, error: E, i: int)
    ensures
        is_first_error(databases, error) ==> exists|k: int|
            0 <= k < databases.len() && #[trigger] databases[k] == Err::<HistoryRows, E>(error)
                && forall|j: int| 0 <= j < k ==> #[trigger] databases[j] is Ok,
        all_read(databases) && 0 <= i < databases.len() ==> databases[i] is Ok,
        all_read(databases) ==> !is_first_error(databases, error),
        all_read(databases) && 0 <= i < databases.len() ==> rows_read(databases)[i]
            == databases[i]->Ok_0.deep_view(),
        rows_read(databases).len() == databases.len(),
{
    if is_first_error(databases, error) {
        let k = choose|k: int|
            0 <= k < databases.len() && #[trigger] databases[k] == Err::<HistoryRows, E>(error)
                && all_read(databases.take(k));
        assert forall|j: int| 0 <= j < k implies #[trigger] databases[j] is Ok by {
            assert(databases.take(k)[j] is Ok);
        }
    }
}

proof fn sum_by_of_two<V>(s: Seq<V>, i: int, j: int, f: spec_fn(V) -> nat)
    requires
        0 <= i < j < s.len(),
    ensures
        f(s[i]) + f(s[j]) <= lists::sum_by(s, f),
    decreases s.len(),
{
    let front = s.drop_last();
    if j < front.len() {
        sum_by_of_two(front, i, j, f);
    } else {
        lists::sum_by_of_item(front, i, f);
        assert(front[i] == s[i]);
    }
}

proof fn sum_by_of_selected<V>(s: Seq<V>, p: spec_fn(V) -> bool, f: spec_fn(V) -> nat)
    ensures
        lists::sum_by(s.filter(p), f) <= lists::sum_by(s, f),
    decreases s.len(),
{
    reveal(Seq::filter);
    if s.len() > 0 {
        let front = s.drop_last();
        sum_by_of_selected(front, p, f);
        if p(s.last()) {
            assert(front.filter(p).push(s.last()).drop_last() =~= front.filter(p));
        }
    }
}

/// No session comes out twice: where the known ones have different names, so have the sessions.
pub proof fn sessions_have_different_names(
    metas: Seq<MetaView>,
    messages: Seq<MessageView>,
    parts: Seq<PartView>,
    filter: DateFilter,
    i: int,
    j: int,
)
    requires
        names_differ(metas),
        0 <= i < j < sessions_from(metas, messages, parts, filter).len(),
    ensures
        sessions_from(metas, messages, parts, filter)[i].session_id != sessions_from(
            metas,
            messages,
            parts,
            filter,
        )[j].session_id,
{
    let all = sessions_from(metas, messages, parts, filter);
    let kept = messages.filter(is_kept(metas, filter));
    let make = |meta: MetaView| session_from(meta, kept, parts);
    let made = metas.map_values(make);
    let id = all[i].session_id;
    let named = |s: SessionView|
        if s.session_id == id {
            1nat
        } else {
            0
        };
    let of_meta = |meta: MetaView|
        if meta.id == id {
            1nat
        } else {
            0
        };
    session_has_meta(metas, messages, parts, filter, i);
    let m = choose|m: int|
        0 <= m < metas.len() && all[i] == session_from(#[trigger] metas[m], kept, parts);
    let only = |meta: MetaView|
        if meta == metas[m] {
            1nat
        } else {
            0
        };
    assert(metas.no_duplicates()) by {
        assert forall|a: int, b: int| 0 <= a < metas.len() && 0 <= b < metas.len() && a != b implies metas[a]
            != metas[b] by {
            assert(metas[a].id != metas[b].id);
        }
    }
    assert(metas.contains(metas[m]));
    lists::sum_by_of_one(metas, metas[m], only);
    assert forall|a: int| 0 <= a < metas.len() implies of_meta(#[trigger] metas[a]) == only(
        metas[a],
    ) by {
        if a != m {
            assert(metas[a].id != metas[m].id);
        }
    }
    sum_by_same(metas, of_meta, only);
    lists::sum_by_of_map(metas, make, named, of_meta);
    sum_by_of_selected(made, is_used(), named);
    order::sum_of_sorted(
        made.filter(is_used()),
        order::order_of::<RawSession, ByLastPrompt>(),
        named,
    );
    sum_by_of_two(all, i, j, named);
}

} // verus!
