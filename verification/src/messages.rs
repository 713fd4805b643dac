//! Messages of a session and their parts, out of the JSON in which they are kept.

use crate::clock;
use crate::clock::{to_rfc3339, Instant};
use crate::json;
use crate::json::{json_at, JsonLookup, JsonView};
use crate::text;
use crate::text::{len_in_bytes, same_text, take_chars, trim};
use vstd::prelude::*;
use vstd::string::*;

verus! {

// ---------------------------------------------------------------------------
// Rows
// ---------------------------------------------------------------------------

/// A row of the table `message`, with its time in milliseconds since the Unix epoch.
pub struct MessageRow {
    pub id: String,
    pub session_id: String,
    pub time_created_ms: i64,
    pub data: String,
}

/// A row of the table `message`.
pub struct MessageRowView {
    pub id: Seq<char>,
    pub session_id: Seq<char>,
    pub time_created_ms: i64,
    pub data: Seq<char>,
}

impl DeepView for MessageRow {
    type V = MessageRowView;

    open spec fn deep_view(&self) -> MessageRowView {
        MessageRowView {
            id: self.id@,
            session_id: self.session_id@,
            time_created_ms: self.time_created_ms,
            data: self.data@,
        }
    }
}

/// A row of the table `part`.
pub struct PartRow {
    pub message_id: String,
    pub data: String,
}

/// A row of the table `part`.
pub struct PartRowView {
    pub message_id: Seq<char>,
    pub data: Seq<char>,
}

impl DeepView for PartRow {
    type V = PartRowView;

    open spec fn deep_view(&self) -> PartRowView {
        PartRowView { message_id: self.message_id@, data: self.data@ }
    }
}

// ---------------------------------------------------------------------------
// Times
// ---------------------------------------------------------------------------

/// The whole seconds in `ms` milliseconds, cut towards zero.
pub open spec fn whole_seconds(ms: i64) -> int {
    if ms >= 0 {
        ms as int / 1000
    } else {
        -((-ms) / 1000)
    }
}

/// The whole seconds in `ms` milliseconds, cut towards zero.
pub(crate) fn cut_to_seconds(ms: i64) -> (secs: i64)
    ensures
        secs == whole_seconds(ms),
{
    if ms >= 0 {
        ms / 1000
    } else {
        let magnitude: i128 = -(ms as i128);
        (-(magnitude / 1000)) as i64
    }
}

/// The second in which the millisecond `ms` lies.
pub open spec fn second_of(ms: i64) -> i64 {
    (ms as int / 1000) as i64
}

/// How many nanoseconds of its second have passed at the millisecond `ms`.
pub open spec fn nanos_of(ms: i64) -> u32 {
    (ms as int % 1000 * 1_000_000) as u32
}

/// The RFC 3339 form of the millisecond `ms` since the Unix epoch.
pub open spec fn timestamp_of(ms: i64) -> Option<Seq<char>> {
    clock::rfc3339_text(second_of(ms), nanos_of(ms))
}

/// Whether `text` stands in dictionary order before the RFC 3339 forms of all milliseconds behind
/// `ms` in the years 0 to 9999.
pub open spec fn precedes_later_ms(text: Seq<char>, ms: i64) -> bool {
    forall|later: i64|
        ms < later && clock::has_four_digit_year(second_of(later)) ==> (
        #[trigger] timestamp_of(later) matches Some(form) ==> text::text_leq(text, form) && text
            != form)
}

/// The RFC 3339 form of the millisecond `ms` since the Unix epoch; `None` where that lies outside
/// the calendar. In the years with four digits it can be read back, and the forms stand in
/// dictionary order as their times do.
pub fn unix_ms_to_rfc3339(timestamp_ms: i64) -> (text: Option<String>)
    ensures
        text.deep_view() == timestamp_of(timestamp_ms),
        text is Some <==> clock::has_utc_time(second_of(timestamp_ms), nanos_of(timestamp_ms)),
        text matches Some(t) ==> (clock::has_four_digit_year(second_of(timestamp_ms))
            ==> clock::rfc3339_instant(t@) == Some(
            (Instant { secs: second_of(timestamp_ms), nanos: nanos_of(timestamp_ms) }),
        )),
        text matches Some(t) ==> text::ends_with(t@, "+00:00"@),
        clock::has_four_digit_year(second_of(timestamp_ms)) ==> (text matches Some(t)
            && precedes_later_ms(t@, timestamp_ms)),
{
    let secs: i64 = match timestamp_ms.checked_div_euclid(1000) {
        Some(secs) => secs,
        None => 0,
    };
    let rest: i64 = match timestamp_ms.checked_rem_euclid(1000) {
        Some(rest) => rest,
        None => 0,
    };
    let nanos: u32 = (rest * 1_000_000) as u32;
    to_rfc3339(secs, nanos)
}

// ---------------------------------------------------------------------------
// Texts
// ---------------------------------------------------------------------------

/// A prompt with more bytes than this is shortened to as many characters.
pub const MAX_PROMPT_LEN: usize = 500;

/// `text` where it has at most `max` bytes; otherwise its first `max` characters, and three dots.
pub open spec fn truncated(text: Seq<char>, max: nat) -> Seq<char> {
    if text::byte_len(text) <= max {
        text
    } else {
        text::first_chars(text, max) + "..."@
    }
}

/// Shortens `text` where it has more than `max` bytes.
pub fn truncate(text: &str, max: usize) -> (short: String)
    ensures
        short@ == truncated(text@, max as nat),
{
    if len_in_bytes(text) <= max {
        text.to_owned()
    } else {
        let mut short: String = take_chars(text, max);
        short.append("...");
        short
    }
}

// ---------------------------------------------------------------------------
// Messages
// ---------------------------------------------------------------------------

/// Who sent a message, and what it cost where that was the assistant.
pub enum MessageRole {
    User,
    Assistant { input_tokens: u64, output_tokens: u64 },
}

/// Who sent a message, and what it cost where that was the assistant.
pub enum RoleView {
    User,
    Assistant { input_tokens: nat, output_tokens: nat },
}

impl DeepView for MessageRole {
    type V = RoleView;

    open spec fn deep_view(&self) -> RoleView {
        match self {
            MessageRole::User => RoleView::User,
            MessageRole::Assistant { input_tokens, output_tokens } => RoleView::Assistant {
                input_tokens: *input_tokens as nat,
                output_tokens: *output_tokens as nat,
            },
        }
    }
}

/// The tokens that went into a message and those that came out; zero where none are noted.
pub fn extract_tokens(input: &JsonLookup, output: &JsonLookup) -> (tokens: (u64, u64))
    ensures
        tokens.0 == json::number_or_zero(input.deep_view()),
        tokens.1 == json::number_or_zero(output.deep_view()),
{
    (input.number(), output.number())
}

/// Who sent a message whose data hold `role` at the place of the role, and `input` and `output` at
/// those of the tokens; `None` where the data are no JSON. Whoever is not the assistant is the
/// user.
pub open spec fn role_from(role: JsonView, input: JsonView, output: JsonView) -> Option<RoleView> {
    match role {
        JsonView::Malformed => None,
        _ => Some(
            if json::text_or_empty(role) == "assistant"@ {
                RoleView::Assistant {
                    input_tokens: json::number_or_zero(input) as nat,
                    output_tokens: json::number_or_zero(output) as nat,
                }
            } else {
                RoleView::User
            },
        ),
    }
}

/// Who sent a message, given what its data hold at the places of the role and of the tokens.
pub fn message_role(role: &JsonLookup, input: &JsonLookup, output: &JsonLookup) -> (sender: Option<
    MessageRole,
>)
    ensures
        sender.deep_view() == role_from(role.deep_view(), input.deep_view(), output.deep_view()),
{
    if role.is_malformed() {
        None
    } else if same_text(role.text(), "assistant") {
        let (input_tokens, output_tokens): (u64, u64) = extract_tokens(input, output);
        Some(MessageRole::Assistant { input_tokens, output_tokens })
    } else {
        Some(MessageRole::User)
    }
}

/// A message that can be placed in time, with its time in whole seconds and as a timestamp.
pub struct Message {
    pub id: String,
    pub session_id: String,
    pub seconds: i64,
    pub timestamp: String,
    pub role: MessageRole,
}

/// A message that can be placed in time.
#[verifier::ext_equal]
pub struct MessageView {
    pub id: Seq<char>,
    pub session_id: Seq<char>,
    pub seconds: i64,
    pub timestamp: Seq<char>,
    pub role: RoleView,
}

impl DeepView for Message {
    type V = MessageView;

    open spec fn deep_view(&self) -> MessageView {
        MessageView {
            id: self.id@,
            session_id: self.session_id@,
            seconds: self.seconds,
            timestamp: self.timestamp@,
            role: self.role.deep_view(),
        }
    }
}

/// Who sent the message with these data.
pub open spec fn role_in(data: Seq<char>) -> Option<RoleView> {
    role_from(
        json::json_lookup(data, "/role"@),
        json::json_lookup(data, "/tokens/input"@),
        json::json_lookup(data, "/tokens/output"@),
    )
}

/// The message in `row`; `None` where it cannot be placed in time or its data are no JSON.
pub open spec fn message_in(row: MessageRowView) -> Option<MessageView> {
    match (timestamp_of(row.time_created_ms), role_in(row.data)) {
        (Some(timestamp), Some(role)) => Some(
            MessageView {
                id: row.id,
                session_id: row.session_id,
                seconds: whole_seconds(row.time_created_ms) as i64,
                timestamp,
                role,
            },
        ),
        _ => None,
    }
}

/// The messages in the rows.
pub open spec fn messages_in(rows: Seq<MessageRowView>) -> Seq<MessageView>
    decreases rows.len(),
{
    if rows.len() == 0 {
        Seq::empty()
    } else {
        match message_in(rows.last()) {
            Some(message) => messages_in(rows.drop_last()).push(message),
            None => messages_in(rows.drop_last()),
        }
    }
}

/// Whether all rows lie in the years with four digits.
pub open spec fn in_four_digit_years(rows: Seq<MessageRowView>) -> bool {
    forall|i: int|
        0 <= i < rows.len() ==> clock::has_four_digit_year(
            second_of((#[trigger] rows[i]).time_created_ms),
        )
}

/// Whether the timestamps of all messages can be read.
pub open spec fn are_readable(messages: Seq<MessageView>) -> bool {
    forall|i: int|
        0 <= i < messages.len() ==> clock::rfc3339_instant((#[trigger] messages[i]).timestamp)
            is Some
}

/// Reads the message in `row`.
pub(crate) fn read_message(row: &MessageRow) -> (message: Option<Message>)
    ensures
        message.deep_view() == message_in(row.deep_view()),
        message matches Some(m) ==> (clock::has_four_digit_year(second_of(row.time_created_ms))
            ==> clock::rfc3339_instant(m.timestamp@) is Some),
{
    let timestamp: String = match unix_ms_to_rfc3339(row.time_created_ms) {
        Some(timestamp) => timestamp,
        None => {
            return None;
        },
    };
    let data: &str = row.data.as_str();
    let role: JsonLookup = json_at(data, "/role");
    let input: JsonLookup = json_at(data, "/tokens/input");
    let output: JsonLookup = json_at(data, "/tokens/output");
    match message_role(&role, &input, &output) {
        Some(role) => Some(
            Message {
                id: row.id.clone(),
                session_id: row.session_id.clone(),
                seconds: cut_to_seconds(row.time_created_ms),
                timestamp,
                role,
            },
        ),
        None => None,
    }
}

// ---------------------------------------------------------------------------
// Parts
// ---------------------------------------------------------------------------

/// What a part adds to its message.
pub enum PartContent {
    /// Words of the user, without white space around them.
    Text(String),
    /// A use of a tool, and the files that it worked on.
    Tool { name: String, file_paths: Vec<String> },
    /// Nothing that is collected.
    Nothing,
}

/// What a part adds to its message.
#[verifier::ext_equal]
pub enum ContentView {
    Text(Seq<char>),
    Tool { name: Seq<char>, file_paths: Seq<Seq<char>> },
    Nothing,
}

impl DeepView for PartContent {
    type V = ContentView;

    open spec fn deep_view(&self) -> ContentView {
        match self {
            PartContent::Text(text) => ContentView::Text(text@),
            PartContent::Tool { name, file_paths } => ContentView::Tool {
                name: name@,
                file_paths: file_paths.deep_view(),
            },
            PartContent::Nothing => ContentView::Nothing,
        }
    }
}

/// The files that a use of the tool `name` worked on, where its input holds `path` at the place of
/// the path. Only tools that take a path as such are asked.
pub open spec fn paths_of(name: Seq<char>, path: JsonView) -> Seq<Seq<char>> {
    if (name == "read"@ || name == "edit"@ || name == "write"@) && json::text_or_empty(path).len() > 0 {
        seq![json::text_or_empty(path)]
    } else {
        Seq::empty()
    }
}

/// The files that a use of the tool `tool_name` worked on.
pub fn extract_file_paths(tool_name: &str, path: &JsonLookup) -> (paths: Vec<String>)
    ensures
        paths.deep_view() == paths_of(tool_name@, path.deep_view()),
{
    let mut paths: Vec<String> = Vec::new();
    if same_text(tool_name, "read") || same_text(tool_name, "edit") || same_text(
        tool_name,
        "write",
    ) {
        let text: &str = path.text();
        if !text.is_empty() {
            paths.push(text.to_owned());
        }
    }
    assert(paths.deep_view() =~= paths_of(tool_name@, path.deep_view()));
    paths
}

/// What stands in the data of a part at the places that matter.
pub struct PartFields {
    pub part_type: JsonLookup,
    pub text: JsonLookup,
    pub synthetic: JsonLookup,
    pub ignored: JsonLookup,
    pub tool: JsonLookup,
    pub file_path: JsonLookup,
}

/// What stands in the data of a part at the places that matter.
pub struct FieldsView {
    pub part_type: JsonView,
    pub text: JsonView,
    pub synthetic: JsonView,
    pub ignored: JsonView,
    pub tool: JsonView,
    pub file_path: JsonView,
}

impl DeepView for PartFields {
    type V = FieldsView;

    open spec fn deep_view(&self) -> FieldsView {
        FieldsView {
            part_type: self.part_type.deep_view(),
            text: self.text.deep_view(),
            synthetic: self.synthetic.deep_view(),
            ignored: self.ignored.deep_view(),
            tool: self.tool.deep_view(),
            file_path: self.file_path.deep_view(),
        }
    }
}

/// What a part with these fields adds: its text, unless that is blank or was not written by the
/// user, or the use of a tool, unless that has no name.
pub open spec fn content_from(fields: FieldsView) -> ContentView {
    let part_type = json::text_or_empty(fields.part_type);
    let text = text::trimmed(json::text_or_empty(fields.text));
    let name = json::text_or_empty(fields.tool);
    if part_type == "text"@ && text.len() > 0 && fields.synthetic != JsonView::Bool(true)
        && fields.ignored != JsonView::Bool(true) {
        ContentView::Text(text)
    } else if part_type == "tool"@ && name.len() > 0 {
        ContentView::Tool { name, file_paths: paths_of(name, fields.file_path) }
    } else {
        ContentView::Nothing
    }
}

/// What a part with these fields adds to its message.
pub fn part_content(fields: &PartFields) -> (content: PartContent)
    ensures
        content.deep_view() == content_from(fields.deep_view()),
{
    let part_type: &str = fields.part_type.text();
    proof {
        reveal_strlit("text");
        reveal_strlit("tool");
        assert("text"@[1] != "tool"@[1]);
    }
    if same_text(part_type, "text") {
        let text: String = trim(fields.text.text());
        if text.as_str().is_empty() || fields.synthetic.is_true() || fields.ignored.is_true() {
            PartContent::Nothing
        } else {
            PartContent::Text(text)
        }
    } else if same_text(part_type, "tool") {
        let name: &str = fields.tool.text();
        if name.is_empty() {
            PartContent::Nothing
        } else {
            PartContent::Tool {
                name: name.to_owned(),
                file_paths: extract_file_paths(name, &fields.file_path),
            }
        }
    } else {
        PartContent::Nothing
    }
}

/// A part of a message.
pub struct Part {
    pub message_id: String,
    pub content: PartContent,
}

/// A part of a message.
#[verifier::ext_equal]
pub struct PartView {
    pub message_id: Seq<char>,
    pub content: ContentView,
}

impl DeepView for Part {
    type V = PartView;

    open spec fn deep_view(&self) -> PartView {
        PartView { message_id: self.message_id@, content: self.content.deep_view() }
    }
}

/// What stands in the data of a part at the places that matter.
pub open spec fn fields_in(data: Seq<char>) -> FieldsView {
    FieldsView {
        part_type: json::json_lookup(data, "/type"@),
        text: json::json_lookup(data, "/text"@),
        synthetic: json::json_lookup(data, "/synthetic"@),
        ignored: json::json_lookup(data, "/ignored"@),
        tool: json::json_lookup(data, "/tool"@),
        file_path: json::json_lookup(data, "/state/input/filePath"@),
    }
}

/// The part in `row`.
pub open spec fn part_in(row: PartRowView) -> PartView {
    PartView { message_id: row.message_id, content: content_from(fields_in(row.data)) }
}

/// The parts in the rows.
pub open spec fn parts_in(rows: Seq<PartRowView>) -> Seq<PartView> {
    rows.map_values(|row: PartRowView| part_in(row))
}

/// Reads the part in `row`. Only what its type asks for is looked up.
pub(crate) fn read_part(row: &PartRow) -> (part: Part)
    ensures
        part.deep_view() == part_in(row.deep_view()),
{
    let data: &str = row.data.as_str();
    let mut fields = PartFields {
        part_type: json_at(data, "/type"),
        text: JsonLookup::Absent,
        synthetic: JsonLookup::Absent,
        ignored: JsonLookup::Absent,
        tool: JsonLookup::Absent,
        file_path: JsonLookup::Absent,
    };
    proof {
        reveal_strlit("text");
        reveal_strlit("tool");
        assert("text"@[1] != "tool"@[1]);
        reveal_strlit("");
    }
    if same_text(fields.part_type.text(), "text") {
        fields.text = json_at(data, "/text");
        fields.synthetic = json_at(data, "/synthetic");
        fields.ignored = json_at(data, "/ignored");
    } else if same_text(fields.part_type.text(), "tool") {
        fields.tool = json_at(data, "/tool");
        fields.file_path = json_at(data, "/state/input/filePath");
    }
    assert(content_from(fields.deep_view()) == content_from(fields_in(data@)));
    Part { message_id: row.message_id.clone(), content: part_content(&fields) }
}

// ---------------------------------------------------------------------------
// Laws
// ---------------------------------------------------------------------------

/// A part that is not the user's own adds no words.
pub proof fn only_own_words_count(fields: FieldsView)
    requires
        fields.synthetic == JsonView::Bool(true) || fields.ignored == JsonView::Bool(true),
    ensures
        content_from(fields) !is Text,
{
}

/// What is shortened has at most three characters more than the limit.
pub proof fn truncated_is_short(text: Seq<char>, max: nat)
    ensures
        truncated(text, max).len() <= max + 3,
{
    reveal_strlit("...");
    text::chars_fit_in_bytes(text);
}

/// A time in milliseconds is written as the second and the nanosecond that it names: the second is
/// the one in which it lies, also before the epoch.
pub proof fn timestamps_name_their_millisecond(ms: i64, secs: i64, nanos: u32)
    requires
        secs * 1_000_000_000 + nanos == ms * 1_000_000,
        nanos < 1_000_000_000,
    ensures
        timestamp_of(ms) == clock::rfc3339_text(secs, nanos),
        second_of(ms) == secs,
        nanos_of(ms) == nanos,
{
    assert(secs == ms as int / 1000 && nanos == ms as int % 1000 * 1_000_000);
}

/// Whole seconds are cut towards zero.
pub proof fn whole_seconds_are_cut(ms: i64)
    ensures
        ms >= 0 ==> 0 <= ms - whole_seconds(ms) * 1000 < 1000,
        ms <= 0 ==> 0 <= whole_seconds(ms) * 1000 - ms < 1000,
{
}

/// A text of at most `max` bytes stays as it is. Of a longer one the first `max` characters are kept,
/// or all where there are fewer, and three dots follow.
pub proof fn truncated_keeps_the_beginning(text: Seq<char>, max: nat)
    ensures
        vstd::utf8::encode_utf8(text).len() <= max ==> truncated(text, max) == text,
        vstd::utf8::encode_utf8(text).len() > max && text.len() <= max ==> truncated(text, max)
            == text + seq!['.', '.', '.'],
        vstd::utf8::encode_utf8(text).len() > max && text.len() > max ==> truncated(text, max)
            == text.take(max as int) + seq!['.', '.', '.'],
{
    reveal_strlit("...");
    assert("..."@ =~= seq!['.', '.', '.']);
}

/// The number that was found, where it is one that a `u64` can hold; zero otherwise.
pub open spec fn tokens_at(found: JsonView) -> nat {
    if found is Number && found->Number_0 is Some {
        found->Number_0->0 as nat
    } else {
        0
    }
}

/// A message is the assistant's exactly where its role is the text `assistant`, and then it costs
/// the tokens that are noted at the two places, each for its side. Data that are no JSON are no
/// message, and any other message is the user's.
pub proof fn roles_are_read(data: Seq<char>)
    ensures
        ({
            let role = json::json_lookup(data, "/role"@);
            &&& role_in(data) is None <==> role is Malformed
            &&& role_in(data) == Some(RoleView::User) <==> role !is Malformed && role
                != JsonView::Text("assistant"@)
            &&& role == JsonView::Text("assistant"@) ==> role_in(data) == Some(
                RoleView::Assistant {
                    input_tokens: tokens_at(json::json_lookup(data, "/tokens/input"@)),
                    output_tokens: tokens_at(json::json_lookup(data, "/tokens/output"@)),
                },
            )
        }),
{
    reveal_strlit("");
    reveal_strlit("assistant");
    assert(""@.len() != "assistant"@.len());
}

/// A row is a message exactly where its time can be written and its data are JSON. The message has
/// the name, the session and the time of its row, and the sender that its data name.
pub proof fn messages_are_read(row: MessageRowView)
    ensures
        message_in(row) is Some <==> timestamp_of(row.time_created_ms) is Some && json::json_lookup(
            row.data,
            "/role"@,
        ) !is Malformed,
        message_in(row) matches Some(m) ==> {
            &&& m.id == row.id
            &&& m.session_id == row.session_id
            &&& m.seconds == whole_seconds(row.time_created_ms)
            &&& timestamp_of(row.time_created_ms) == Some(m.timestamp)
            &&& role_in(row.data) == Some(m.role)
        },
{
    roles_are_read(row.data);
}

/// Rows give their messages in order; those that are none are left out.
pub proof fn messages_keep_their_order(
    rows: Seq<MessageRowView>,
    more: Seq<MessageRowView>,
    row: MessageRowView,
)
    ensures
        messages_in(rows + more) == messages_in(rows) + messages_in(more),
        messages_in(seq![row]) == match message_in(row) {
            Some(m) => seq![m],
            None => Seq::empty(),
        },
    decreases more.len(),
{
    reveal_with_fuel(messages_in, 2);
    assert(seq![row].drop_last() =~= Seq::<MessageRowView>::empty());
    assert(messages_in(seq![row]) =~= match message_in(row) {
        Some(m) => seq![m],
        None => Seq::empty(),
    });
    if more.len() > 0 {
        messages_keep_their_order(rows, more.drop_last(), row);
        assert((rows + more).drop_last() =~= rows + more.drop_last());
        assert((rows + more).last() == more.last());
    } else {
        assert(rows + more =~= rows);
    }
    assert(messages_in(rows + more) =~= messages_in(rows) + messages_in(more));
}

/// Whether the data of a part hold the text `value` at `place`.
pub open spec fn holds_text(data: Seq<char>, place: Seq<char>, value: Seq<char>) -> bool {
    json::json_lookup(data, place) == JsonView::Text(value)
}

/// A part adds words exactly where its type is `text`, its text has more than white space, and it is
/// marked neither as synthetic nor as ignored; the words are the text without the white space around
/// it.
pub proof fn words_are_read(row: PartRowView)
    ensures
        part_in(row).message_id == row.message_id,
        part_in(row).content is Text <==> {
            &&& holds_text(row.data, "/type"@, "text"@)
            &&& json::json_lookup(row.data, "/text"@) matches JsonView::Text(text) && !text::is_blank(
                text,
            )
            &&& json::json_lookup(row.data, "/synthetic"@) != JsonView::Bool(true)
            &&& json::json_lookup(row.data, "/ignored"@) != JsonView::Bool(true)
        },
        part_in(row).content matches ContentView::Text(words) ==> (json::json_lookup(
            row.data,
            "/text"@,
        ) matches JsonView::Text(text) && words == text::trimmed(text)),
{
    reveal_strlit("");
    reveal_strlit("text");
    reveal_strlit("tool");
    assert(""@.len() == 0);
    assert("text"@[1] != "tool"@[1]);
    let found = json::json_lookup(row.data, "/text"@);
    if let JsonView::Text(text) = found {
        text::trimmed_is_the_inside(text);
        let (before, behind) = choose|before: Seq<char>, behind: Seq<char>|
            text == #[trigger] (before + text::trimmed(text) + behind) && text::is_blank(before)
                && text::is_blank(behind);
        if text::is_blank(text) {
            if text::trimmed(text).len() > 0 {
                assert(text[before.len() as int] == text::trimmed(text)[0]);
            }
        } else if text::trimmed(text).len() == 0 {
            assert forall|i: int| 0 <= i < text.len() implies text::is_space(#[trigger] text[i]) by {
                if i < before.len() {
                    assert(text[i] == before[i]);
                } else {
                    assert(text[i] == behind[i - before.len()]);
                }
            }
        }
    } else {
        assert(text::trimmed(""@).len() == 0);
    }
}

/// A part adds the use of a tool exactly where its type is `tool` and the tool has a name. The use
/// has a file exactly where the tool is `read`, `edit` or `write` and its input holds a path that is
/// not empty; that path is the file.
pub proof fn tools_are_read(row: PartRowView)
    ensures
        part_in(row).content is Tool <==> {
            &&& holds_text(row.data, "/type"@, "tool"@)
            &&& json::json_lookup(row.data, "/tool"@) matches JsonView::Text(name) && name.len() > 0
        },
        part_in(row).content matches ContentView::Tool { name, file_paths } ==> {
            &&& holds_text(row.data, "/tool"@, name)
            &&& file_paths.len() <= 1
            &&& file_paths.len() == 1 <==> (name == "read"@ || name == "edit"@ || name == "write"@)
                && (json::json_lookup(row.data, "/state/input/filePath"@) matches JsonView::Text(path)
                && path.len() > 0)
            &&& file_paths.len() == 1 ==> holds_text(
                row.data,
                "/state/input/filePath"@,
                file_paths[0],
            )
        },
{
    reveal_strlit("");
    reveal_strlit("text");
    reveal_strlit("tool");
    assert(""@.len() == 0);
    assert("text"@[1] != "tool"@[1]);
    assert("tool"@.len() == 4);
}

/// Rows give their parts one for one, in order.
pub proof fn parts_keep_their_order(rows: Seq<PartRowView>, i: int)
    requires
        0 <= i < rows.len(),
    ensures
        parts_in(rows).len() == rows.len(),
        parts_in(rows)[i] == part_in(rows[i]),
{
}

/// No row that is a message is left out, and no other message is put in.
pub proof fn messages_stem_from_rows(rows: Seq<MessageRowView>, m: MessageView)
    ensures
        messages_in(rows).contains(m) <==> exists|r: int|
            0 <= r < rows.len() && message_in(#[trigger] rows[r]) == Some(m),
    decreases rows.len(),
{
    if rows.len() > 0 {
        let front = rows.drop_last();
        let n = rows.len() - 1;
        let before = messages_in(front);
        let now = messages_in(rows);
        messages_stem_from_rows(front, m);
        assert(rows[n] == rows.last());
        if now.contains(m) {
            let i = choose|i: int| 0 <= i < now.len() && now[i] == m;
            if i < before.len() {
                assert(before[i] == m);
                let r = choose|r: int|
                    0 <= r < front.len() && message_in(#[trigger] front[r]) == Some(m);
                assert(rows[r] == front[r]);
            } else {
                assert(message_in(rows[n]) == Some(m));
            }
        }
        if exists|r: int| 0 <= r < rows.len() && message_in(#[trigger] rows[r]) == Some(m) {
            let r = choose|r: int| 0 <= r < rows.len() && message_in(#[trigger] rows[r]) == Some(m);
            if r < n {
                assert(front[r] == rows[r]);
                let i = choose|i: int| 0 <= i < before.len() && before[i] == m;
                assert(now[i] == m);
            } else {
                assert(now[now.len() - 1] == m);
            }
        }
    }
}

/// The views of messages, of parts and of what a part holds are their fields.
pub proof fn messages_show_their_fields(message: Message, part: Part, fields: PartFields)
    ensures
        message.deep_view().id == message.id@,
        message.deep_view().session_id == message.session_id@,
        message.deep_view().seconds == message.seconds,
        message.deep_view().timestamp == message.timestamp@,
        message.role is User <==> message.deep_view().role is User,
        message.role matches MessageRole::Assistant { input_tokens, output_tokens }
            ==> message.deep_view().role == (RoleView::Assistant {
            input_tokens: input_tokens as nat,
            output_tokens: output_tokens as nat,
        }),
        part.deep_view().message_id == part.message_id@,
        part.content is Nothing <==> part.deep_view().content is Nothing,
        part.content matches PartContent::Text(text) ==> part.deep_view().content
            == ContentView::Text(text@),
        part.content matches PartContent::Tool { name, file_paths } ==> part.deep_view().content
            == (ContentView::Tool { name: name@, file_paths: file_paths.deep_view() }),
        fields.deep_view().part_type == fields.part_type.deep_view(),
        fields.deep_view().text == fields.text.deep_view(),
        fields.deep_view().synthetic == fields.synthetic.deep_view(),
        fields.deep_view().ignored == fields.ignored.deep_view(),
        fields.deep_view().tool == fields.tool.deep_view(),
        fields.deep_view().file_path == fields.file_path.deep_view(),
{
}

/// What a part adds follows from its fields: words where it is a text of the user with more than white
/// space, the use of a tool where it is one with a name, and nothing otherwise. The file of a use is
/// the path in its input, where the tool is one that takes a path and this is not empty.
pub proof fn contents_follow_from_fields(fields: FieldsView)
    ensures
        ({
            let content = content_from(fields);
            &&& content is Text <==> fields.part_type == JsonView::Text("text"@) && (
            fields.text matches JsonView::Text(text) && text::trimmed(text).len() > 0)
                && fields.synthetic != JsonView::Bool(true) && fields.ignored != JsonView::Bool(true)
            &&& content is Tool <==> fields.part_type == JsonView::Text("tool"@) && (
            fields.tool matches JsonView::Text(name) && name.len() > 0)
            &&& content matches ContentView::Text(words) ==> fields.text is Text && words
                == text::trimmed(fields.text->Text_0)
            &&& content matches ContentView::Tool { name, file_paths } ==> fields.tool
                == JsonView::Text(name) && file_paths == (if (name == "read"@ || name == "edit"@
                || name == "write"@) && fields.file_path is Text && fields.file_path->Text_0.len()
                > 0 {
                seq![fields.file_path->Text_0]
            } else {
                Seq::empty()
            })
        }),
{
    reveal_strlit("");
    reveal_strlit("text");
    reveal_strlit("tool");
    assert("text"@[1] != "tool"@[1]);
    assert("text"@.len() == 4 && "tool"@.len() == 4 && ""@.len() == 0);
    assert(text::trimmed(""@).len() == 0);
}

/// The sender of a message follows from what stands at the places of the role and of the tokens.
pub proof fn roles_follow_from_fields(role: JsonView, input: JsonView, output: JsonView)
    ensures
        role_from(role, input, output) is None <==> role is Malformed,
        role_from(role, input, output) matches Some(RoleView::Assistant {
            input_tokens,
            output_tokens,
        }) ==> role == JsonView::Text("assistant"@) && input_tokens == tokens_at(input)
            && output_tokens == tokens_at(output),
        role == JsonView::Text("assistant"@) ==> (role_from(role, input, output) matches Some(r)
            && r is Assistant),
{
    reveal_strlit("");
    reveal_strlit("assistant");
    assert(""@.len() != "assistant"@.len());
}

} // verus!
