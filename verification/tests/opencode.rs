//! The history of opencode.

use chrono::{Local, TimeZone};
use nippo_collector::clock::{extract_local_hour, LocalOffsets};
use nippo_collector::filter::DateFilter;
use nippo_collector::focus::parsed_session_range;
use nippo_collector::history::{discover_history_files, HistoryError, DEV_DB, PROD_DB};
use nippo_collector::json::JsonLookup;
use nippo_collector::messages::{
    extract_file_paths, extract_tokens, message_role, part_content, truncate, unix_ms_to_rfc3339,
    Message, MessageRole, MessageRow, Part, PartContent, PartFields, PartRow,
};
use nippo_collector::opencode::{
    build_sessions, collect_from_db, collect_sessions, read_messages, read_parts, HistoryRows,
};
use nippo_collector::projects::{
    extract_project_from_cwd, load_project_worktree, load_session_meta, project_with_file_name,
    ProjectRow, SessionMeta, SessionRow,
};
use nippo_collector::session::{summarize_session, RawSession};
use rusqlite::Connection;
use std::path::{Path, PathBuf};

fn create_schema(conn: &Connection) {
    conn.execute_batch(
        "
        CREATE TABLE project (
            id TEXT PRIMARY KEY,
            worktree TEXT NOT NULL
        );
        CREATE TABLE session (
            id TEXT PRIMARY KEY,
            project_id TEXT NOT NULL,
            directory TEXT NOT NULL,
            title TEXT NOT NULL DEFAULT '',
            time_created INTEGER NOT NULL,
            time_updated INTEGER NOT NULL
        );
        CREATE TABLE message (
            id TEXT PRIMARY KEY,
            session_id TEXT NOT NULL,
            time_created INTEGER NOT NULL,
            time_updated INTEGER NOT NULL DEFAULT 0,
            data TEXT NOT NULL
        );
        CREATE TABLE part (
            id TEXT PRIMARY KEY,
            message_id TEXT NOT NULL,
            session_id TEXT NOT NULL,
            time_created INTEGER NOT NULL,
            time_updated INTEGER NOT NULL DEFAULT 0,
            data TEXT NOT NULL
        );
        ",
    )
    .expect("create schema");
}

fn read_rows(conn: &Connection) -> HistoryRows {
    let mut rows = HistoryRows {
        projects: Vec::new(),
        sessions: Vec::new(),
        messages: Vec::new(),
        parts: Vec::new(),
    };
    let mut stmt = conn
        .prepare("SELECT id, worktree FROM project")
        .expect("projects");
    let mut found = stmt.query([]).expect("projects");
    while let Some(row) = found.next().expect("project") {
        rows.projects.push(ProjectRow {
            id: row.get(0).expect("id"),
            worktree: row.get(1).expect("worktree"),
        });
    }
    let mut stmt = conn
        .prepare("SELECT id, project_id, directory FROM session")
        .expect("sessions");
    let mut found = stmt.query([]).expect("sessions");
    while let Some(row) = found.next().expect("session") {
        rows.sessions.push(SessionRow {
            id: row.get(0).expect("id"),
            project_id: row.get(1).expect("project"),
            directory: row.get(2).expect("directory"),
        });
    }
    let mut stmt = conn
        .prepare(
            "SELECT id, session_id, time_created, data \
             FROM message ORDER BY session_id, time_created, id",
        )
        .expect("messages");
    let mut found = stmt.query([]).expect("messages");
    while let Some(row) = found.next().expect("message") {
        rows.messages.push(MessageRow {
            id: row.get(0).expect("id"),
            session_id: row.get(1).expect("session"),
            time_created_ms: row.get(2).expect("time"),
            data: row.get(3).expect("data"),
        });
    }
    let mut stmt = conn
        .prepare("SELECT message_id, data FROM part ORDER BY session_id, time_created, id")
        .expect("parts");
    let mut found = stmt.query([]).expect("parts");
    while let Some(row) = found.next().expect("part") {
        rows.parts.push(PartRow {
            message_id: row.get(0).expect("message"),
            data: row.get(1).expect("data"),
        });
    }
    rows
}

fn write_db(conn: &Connection) {
    create_schema(conn);
    conn.execute(
        "INSERT INTO project (id, worktree) VALUES (?1, ?2)",
        ("proj-1", "/tmp/nippo"),
    )
    .expect("insert project");
    conn.execute(
        "INSERT INTO session (id, project_id, directory, title, time_created, time_updated) \
         VALUES (?1, ?2, ?3, ?4, ?5, ?6)",
        (
            "ses-1",
            "proj-1",
            "/tmp/nippo",
            "test",
            1_776_144_000_000_i64,
            1_776_144_500_000_i64,
        ),
    )
    .expect("insert session");

    // user message
    conn.execute(
        "INSERT INTO message (id, session_id, time_created, data) VALUES (?1, ?2, ?3, ?4)",
        (
            "msg-u",
            "ses-1",
            1_776_144_000_000_i64,
            r#"{"role":"user","time":{"created":1776144000000}}"#,
        ),
    )
    .expect("insert user message");
    conn.execute(
        "INSERT INTO part (id, message_id, session_id, time_created, data) VALUES (?1, ?2, ?3, ?4, ?5)",
        (
            "part-u1",
            "msg-u",
            "ses-1",
            1_776_144_000_000_i64,
            r#"{"type":"text","text":"最初の指示"}"#,
        ),
    )
    .expect("insert user text part");

    // assistant message with tokens + tool part
    conn.execute(
        "INSERT INTO message (id, session_id, time_created, data) VALUES (?1, ?2, ?3, ?4)",
        (
            "msg-a",
            "ses-1",
            1_776_144_100_000_i64,
            r#"{"role":"assistant","tokens":{"input":11,"output":7},"time":{"created":1776144100000}}"#,
        ),
    )
    .expect("insert assistant message");
    conn.execute(
        "INSERT INTO part (id, message_id, session_id, time_created, data) VALUES (?1, ?2, ?3, ?4, ?5)",
        (
            "part-a1",
            "msg-a",
            "ses-1",
            1_776_144_101_000_i64,
            r#"{"type":"tool","tool":"read","state":{"status":"completed","input":{"filePath":"/tmp/nippo/crates/collector/src/main.rs"}}}"#,
        ),
    )
    .expect("insert read tool");
    conn.execute(
        "INSERT INTO part (id, message_id, session_id, time_created, data) VALUES (?1, ?2, ?3, ?4, ?5)",
        (
            "part-a2",
            "msg-a",
            "ses-1",
            1_776_144_102_000_i64,
            r#"{"type":"tool","tool":"edit","state":{"status":"completed","input":{"filePath":"/tmp/nippo/README.md","oldString":"a","newString":"b"}}}"#,
        ),
    )
    .expect("insert edit tool");
    conn.execute(
        "INSERT INTO part (id, message_id, session_id, time_created, data) VALUES (?1, ?2, ?3, ?4, ?5)",
        (
            "part-a3",
            "msg-a",
            "ses-1",
            1_776_144_103_000_i64,
            r#"{"type":"text","text":"作業しました"}"#,
        ),
    )
    .expect("insert assistant text");

    // second assistant message with a bash tool (no file path)
    conn.execute(
        "INSERT INTO message (id, session_id, time_created, data) VALUES (?1, ?2, ?3, ?4)",
        (
            "msg-a2",
            "ses-1",
            1_776_144_200_000_i64,
            r#"{"role":"assistant","tokens":{"input":5,"output":2}}"#,
        ),
    )
    .expect("insert assistant2");
    conn.execute(
        "INSERT INTO part (id, message_id, session_id, time_created, data) VALUES (?1, ?2, ?3, ?4, ?5)",
        (
            "part-b1",
            "msg-a2",
            "ses-1",
            1_776_144_201_000_i64,
            r#"{"type":"tool","tool":"bash","state":{"status":"completed","input":{"command":"ls"}}}"#,
        ),
    )
    .expect("insert bash tool");
}

fn collect_all(databases: Vec<HistoryRows>, filter: &DateFilter) -> Vec<RawSession> {
    let read: Vec<Result<HistoryRows, &str>> = databases.into_iter().map(Ok).collect();
    collect_sessions(read, filter).expect("collect sessions")
}

#[test]
fn collects_opencode_sessions_from_sqlite() {
    let conn = Connection::open_in_memory().expect("open db");
    write_db(&conn);

    let filter = DateFilter::all();
    let sessions = collect_all(vec![read_rows(&conn)], &filter);

    assert_eq!(sessions.len(), 1);
    let session = &sessions[0];
    assert_eq!(session.session_id, "ses-1");
    assert_eq!(session.project, "nippo");
    assert_eq!(session.project_path, "/tmp/nippo");
    assert_eq!(session.user_entries.len(), 1);
    assert_eq!(session.user_entries[0].text, "最初の指示");
    assert_eq!(session.assistant_entries.len(), 2);

    let summary = summarize_session(session);
    assert_eq!(summary.message_counts.user, 1);
    assert_eq!(summary.message_counts.assistant, 2);
    assert_eq!(summary.tool_usage.get("read"), Some(1));
    assert_eq!(summary.tool_usage.get("edit"), Some(1));
    assert_eq!(summary.tool_usage.get("bash"), Some(1));
    assert_eq!(summary.total_input_tokens, 16);
    assert_eq!(summary.total_output_tokens, 9);
    assert_eq!(
        summary.files_touched,
        vec!["README.md", "crates/collector/src/main.rs"]
    );
}

#[test]
fn filters_by_local_day_bounds() {
    let conn = Connection::open_in_memory().expect("open");
    create_schema(&conn);
    conn.execute(
        "INSERT INTO project (id, worktree) VALUES (?1, ?2)",
        ("proj-1", "/tmp/nippo"),
    )
    .expect("insert project");

    let midnight = Local::now()
        .date_naive()
        .and_hms_opt(0, 0, 0)
        .expect("midnight");
    let cutoff = Local
        .from_local_datetime(&midnight)
        .earliest()
        .expect("cutoff")
        .timestamp();
    let filter = DateFilter {
        start: Some(cutoff),
        end: None,
    };
    let inside_ms = cutoff * 1_000;
    let outside_ms = (cutoff - 1) * 1_000;

    conn.execute(
        "INSERT INTO session (id, project_id, directory, title, time_created, time_updated) \
         VALUES (?1, ?2, ?3, ?4, ?5, ?6)",
        ("ses-1", "proj-1", "/tmp/nippo", "t", outside_ms, inside_ms),
    )
    .expect("insert session");
    conn.execute(
        "INSERT INTO message (id, session_id, time_created, data) VALUES (?1, ?2, ?3, ?4)",
        (
            "msg-old",
            "ses-1",
            outside_ms,
            r#"{"role":"user","time":{"created":0}}"#,
        ),
    )
    .expect("insert old message");
    conn.execute(
        "INSERT INTO part (id, message_id, session_id, time_created, data) VALUES (?1, ?2, ?3, ?4, ?5)",
        (
            "part-old",
            "msg-old",
            "ses-1",
            outside_ms,
            r#"{"type":"text","text":"too old"}"#,
        ),
    )
    .expect("insert old part");
    conn.execute(
        "INSERT INTO message (id, session_id, time_created, data) VALUES (?1, ?2, ?3, ?4)",
        ("msg-new", "ses-1", inside_ms, r#"{"role":"user"}"#),
    )
    .expect("insert new message");
    conn.execute(
        "INSERT INTO part (id, message_id, session_id, time_created, data) VALUES (?1, ?2, ?3, ?4, ?5)",
        (
            "part-new",
            "msg-new",
            "ses-1",
            inside_ms,
            r#"{"type":"text","text":"kept"}"#,
        ),
    )
    .expect("insert new part");

    let sessions = collect_all(vec![read_rows(&conn)], &filter);
    assert_eq!(sessions.len(), 1);
    assert_eq!(sessions[0].user_entries.len(), 1);
    assert_eq!(sessions[0].user_entries[0].text, "kept");
}

#[test]
fn discover_history_files_prefers_prod_db() {
    let dir = Path::new("/home/me/opencode");
    let prod = dir.join("opencode.db");
    let dev = dir.join("opencode-dev.db");
    let files = match discover_history_files(&dir.display().to_string(), Some(prod), Some(dev)) {
        Ok(files) => files,
        Err(_) => panic!("discover"),
    };
    assert_eq!(files.len(), 2);
    assert!(files[0].ends_with("opencode-dev.db") || files[0].ends_with("opencode.db"));
}

#[test]
fn discover_history_files_errors_when_missing() {
    let err: HistoryError = match discover_history_files::<PathBuf>("/home/me/opencode", None, None)
    {
        Ok(_) => panic!("found"),
        Err(err) => err,
    };
    assert!(err.message().contains("opencode の履歴データ"));
}

#[test]
fn the_error_tells_where_was_looked() {
    let err = discover_history_files::<PathBuf>("/data", None, None).err().expect("error");
    assert_eq!(
        err.message(),
        "opencode の履歴データが見つかりません: /data\n\n\
         opencode を使用すると、セッションは opencode.db (または opencode-dev.db)\n\
         の SQLite に保存されます。\n\
         カスタムディレクトリを指定する場合は --opencode-dir オプションを使用してください。"
    );
}

#[test]
fn the_released_database_is_read_first() {
    let dir = Path::new("/data");
    let prod = || dir.join(PROD_DB);
    let dev = || dir.join(DEV_DB);
    let both = discover_history_files("/data", Some(prod()), Some(dev())).ok().expect("both");
    assert_eq!(
        both,
        vec![PathBuf::from("/data/opencode.db"), PathBuf::from("/data/opencode-dev.db")]
    );
    let released = discover_history_files("/data", Some(prod()), None).ok().expect("released");
    assert_eq!(released, vec![prod()]);
    let development = discover_history_files("/data", None, Some(dev())).ok().expect("development");
    assert_eq!(development, vec![dev()]);
}

#[test]
fn times_are_written_with_their_milliseconds() {
    assert_eq!(
        unix_ms_to_rfc3339(1_776_144_000_000).as_deref(),
        Some("2026-04-14T05:20:00+00:00")
    );
    assert_eq!(
        unix_ms_to_rfc3339(1_776_144_000_123).as_deref(),
        Some("2026-04-14T05:20:00.123+00:00")
    );
    assert_eq!(
        unix_ms_to_rfc3339(-1).as_deref(),
        Some("1969-12-31T23:59:59.999+00:00")
    );
}

#[test]
fn times_outside_the_calendar_are_none() {
    assert!(unix_ms_to_rfc3339(8_210_266_876_799_999).is_some());
    assert!(unix_ms_to_rfc3339(8_210_266_876_800_000).is_none());
    assert!(unix_ms_to_rfc3339(-8_334_601_228_800_000).is_some());
    assert!(unix_ms_to_rfc3339(-8_334_601_228_800_001).is_none());
    assert!(unix_ms_to_rfc3339(i64::MIN).is_none());
    assert!(unix_ms_to_rfc3339(i64::MAX).is_none());
}

#[test]
fn written_times_can_be_read_back() {
    let offsets = LocalOffsets::new();
    for (ms, hour) in [
        (-62_167_219_200_000, "00"),
        (-1, "23"),
        (1_776_144_000_123, "05"),
        (253_402_300_799_999, "23"),
    ] {
        let text = unix_ms_to_rfc3339(ms).expect("timestamp");
        assert_eq!(extract_local_hour(&text, &offsets).as_deref(), Some(hour));
    }
    let beyond = unix_ms_to_rfc3339(253_402_300_800_000).expect("timestamp");
    assert_eq!(extract_local_hour(&beyond, &offsets), None);
}

#[test]
fn written_times_stand_in_the_order_of_their_times() {
    let times: Vec<i64> = vec![
        -62_167_219_200_000,
        -62_135_596_800_001,
        -1_000,
        -1,
        0,
        1,
        10,
        100,
        999,
        1_000,
        59_999,
        60_000,
        1_776_144_000_000,
        1_776_144_000_120,
        1_776_144_000_123,
        253_402_300_799_999,
    ];
    let written: Vec<String> = times
        .iter()
        .map(|ms| unix_ms_to_rfc3339(*ms).expect("timestamp"))
        .collect();
    for pair in written.windows(2) {
        assert!(pair[0] < pair[1], "{} {}", pair[0], pair[1]);
    }
    for text in &written {
        assert!(text.ends_with("+00:00"), "{text}");
    }
    let beyond = unix_ms_to_rfc3339(253_402_300_800_000).expect("timestamp");
    assert!(beyond.ends_with("+00:00"));
}

#[test]
fn long_prompts_are_cut() {
    assert_eq!(truncate("abc", 3), "abc");
    assert_eq!(truncate("abcd", 3), "abc...");
    assert_eq!(truncate("日報", 5), "日報...");
    assert_eq!(truncate("日報", 6), "日報");
}

#[test]
fn projects_are_named_after_their_directory() {
    for (cwd, name) in [
        ("", "unknown"),
        ("/tmp/nippo", "nippo"),
        ("/tmp/nippo/", "nippo"),
        ("/tmp/nippo//", "nippo"),
        ("/tmp/nippo/.", "nippo"),
        ("/tmp/./nippo/./", "nippo"),
        ("nippo", "nippo"),
        ("/", "/"),
        (".", "."),
        ("./.", "./."),
        ("..", ".."),
        ("/tmp/..", "/tmp/.."),
        ("/tmp/...", "..."),
        ("/tmp/.git", ".git"),
        ("/作業/日報", "日報"),
    ] {
        assert_eq!(extract_project_from_cwd(cwd), name, "{cwd}");
        if !cwd.is_empty() {
            let by_path = std::path::Path::new(cwd)
                .file_name()
                .map(|value| value.to_string_lossy().to_string())
                .unwrap_or_else(|| cwd.to_string());
            assert_eq!(by_path, name, "{cwd}");
        }
    }
}

#[test]
fn tokens_default_to_zero() {
    let eleven = JsonLookup::Number(Some(11));
    assert_eq!(extract_tokens(&eleven, &JsonLookup::Absent), (11, 0));
    assert_eq!(
        extract_tokens(&JsonLookup::Number(None), &JsonLookup::Text("7".to_string())),
        (0, 0)
    );
}

#[test]
fn whoever_is_not_the_assistant_is_the_user() {
    let five = JsonLookup::Number(Some(5));
    let two = JsonLookup::Number(Some(2));
    match message_role(&JsonLookup::Text("assistant".to_string()), &five, &two) {
        Some(MessageRole::Assistant {
            input_tokens,
            output_tokens,
        }) => assert_eq!((input_tokens, output_tokens), (5, 2)),
        _ => panic!("assistant"),
    }
    for role in [
        JsonLookup::Text("user".to_string()),
        JsonLookup::Text("Assistant".to_string()),
        JsonLookup::Absent,
        JsonLookup::Other,
    ] {
        assert!(matches!(
            message_role(&role, &five, &two),
            Some(MessageRole::User)
        ));
    }
    assert!(message_role(&JsonLookup::Malformed, &five, &two).is_none());
}

#[test]
fn only_tools_that_take_a_path_name_a_file() {
    let path = JsonLookup::Text("/tmp/a".to_string());
    for tool in ["read", "edit", "write"] {
        assert_eq!(extract_file_paths(tool, &path), vec!["/tmp/a".to_string()]);
    }
    assert!(extract_file_paths("bash", &path).is_empty());
    assert!(extract_file_paths("read", &JsonLookup::Text(String::new())).is_empty());
    assert!(extract_file_paths("read", &JsonLookup::Absent).is_empty());
}

fn fields(part_type: &str, text: &str, tool: &str) -> PartFields {
    PartFields {
        part_type: JsonLookup::Text(part_type.to_string()),
        text: JsonLookup::Text(text.to_string()),
        synthetic: JsonLookup::Absent,
        ignored: JsonLookup::Absent,
        tool: JsonLookup::Text(tool.to_string()),
        file_path: JsonLookup::Text("/tmp/a".to_string()),
    }
}

#[test]
fn parts_add_words_or_tools() {
    match part_content(&fields("text", "  指示\n", "read")) {
        PartContent::Text(text) => assert_eq!(text, "指示"),
        _ => panic!("text"),
    }
    match part_content(&fields("tool", "x", "read")) {
        PartContent::Tool { name, file_paths } => {
            assert_eq!(name, "read");
            assert_eq!(file_paths, vec!["/tmp/a".to_string()]);
        }
        _ => panic!("tool"),
    }
    assert!(matches!(
        part_content(&fields("text", " \n ", "read")),
        PartContent::Nothing
    ));
    assert!(matches!(
        part_content(&fields("tool", "x", "")),
        PartContent::Nothing
    ));
    assert!(matches!(
        part_content(&fields("reasoning", "x", "read")),
        PartContent::Nothing
    ));
}

#[test]
fn synthetic_and_ignored_parts_add_nothing() {
    let mut synthetic = fields("text", "指示", "");
    synthetic.synthetic = JsonLookup::Bool(true);
    assert!(matches!(part_content(&synthetic), PartContent::Nothing));
    let mut ignored = fields("text", "指示", "");
    ignored.ignored = JsonLookup::Bool(true);
    assert!(matches!(part_content(&ignored), PartContent::Nothing));
    let mut kept = fields("text", "指示", "");
    kept.synthetic = JsonLookup::Bool(false);
    kept.ignored = JsonLookup::Text("true".to_string());
    assert!(matches!(part_content(&kept), PartContent::Text(_)));
}

#[test]
fn messages_are_read_out_of_json() {
    let row = |ms: i64, data: &str| MessageRow {
        id: "m".to_string(),
        session_id: "s".to_string(),
        time_created_ms: ms,
        data: data.to_string(),
    };
    let rows = vec![
        row(-1_500, r#"{"role":"assistant","tokens":{"input":3,"output":-4}}"#),
        row(1_776_144_000_000, "{"),
        row(i64::MAX, r#"{"role":"user"}"#),
        row(1_776_144_000_999, r#"["role"]"#),
    ];
    assert!(read_messages(&rows, &vec![meta("other")], &DateFilter::all()).is_empty());
    let late = DateFilter {
        start: Some(0),
        end: None,
    };
    assert_eq!(read_messages(&rows, &vec![meta("s")], &late).len(), 1);
    let messages = read_messages(&rows, &vec![meta("s")], &DateFilter::all());
    assert_eq!(messages.len(), 2);
    assert_eq!(messages[0].seconds, -1);
    assert_eq!(messages[0].timestamp, "1969-12-31T23:59:58.500+00:00");
    match messages[0].role {
        MessageRole::Assistant {
            input_tokens,
            output_tokens,
        } => assert_eq!((input_tokens, output_tokens), (3, 0)),
        MessageRole::User => panic!("assistant"),
    }
    assert_eq!(messages[1].seconds, 1_776_144_000);
    assert!(matches!(messages[1].role, MessageRole::User));
}

#[test]
fn parts_are_read_out_of_json() {
    let row = |data: &str| PartRow {
        message_id: "m".to_string(),
        data: data.to_string(),
    };
    let mut rows = vec![
        row(r#"{"type":"text","text":" 指示 "}"#),
        row(r#"{"type":"text","text":"x","synthetic":true}"#),
        row(r#"{"type":"tool","tool":"write","state":{"input":{"filePath":"/a"}}}"#),
        row("no json"),
    ];
    rows.push(PartRow {
        message_id: "gone".to_string(),
        data: r#"{"type":"text","text":"x"}"#.to_string(),
    });
    let parts = read_parts(&rows, &vec![message("m", "s", 10, "t", MessageRole::User)]);
    assert_eq!(parts.len(), 4);
    match &parts[0].content {
        PartContent::Text(text) => assert_eq!(text, "指示"),
        _ => panic!("text"),
    }
    assert!(matches!(parts[1].content, PartContent::Nothing));
    match &parts[2].content {
        PartContent::Tool { name, file_paths } => {
            assert_eq!(name, "write");
            assert_eq!(file_paths, &vec!["/a".to_string()]);
        }
        _ => panic!("tool"),
    }
    assert!(matches!(parts[3].content, PartContent::Nothing));
}

#[test]
fn sessions_know_their_project() {
    let projects = vec![
        ProjectRow {
            id: "p".to_string(),
            worktree: "/old".to_string(),
        },
        ProjectRow {
            id: "p".to_string(),
            worktree: "/work/tree".to_string(),
        },
    ];
    let session = |id: &str, project: &str, directory: &str| SessionRow {
        id: id.to_string(),
        project_id: project.to_string(),
        directory: directory.to_string(),
    };
    let worktrees = load_project_worktree(&projects);
    assert_eq!(worktrees.get("p").map(|tree| tree.as_str()), Some("/work/tree"));
    assert!(worktrees.get("q").is_none());
    let metas = load_session_meta(
        &vec![
            session("a", "p", "/own"),
            session("b", "p", ""),
            session("c", "p", "/"),
            session("d", "q", "/"),
            session("a", "p", "/own/later"),
        ],
        &projects,
    );
    let found: Vec<(&str, &str, &str)> = metas
        .iter()
        .map(|meta| (meta.id.as_str(), meta.project.as_str(), meta.project_path.as_str()))
        .collect();
    assert_eq!(
        found,
        vec![
            ("a", "later", "/own/later"),
            ("b", "tree", "/work/tree"),
            ("c", "tree", "/work/tree"),
            ("d", "unknown", ""),
        ]
    );
}

fn meta(id: &str) -> SessionMeta {
    SessionMeta {
        id: id.to_string(),
        project: format!("project-{id}"),
        project_path: format!("/tmp/project-{id}"),
    }
}

fn message(id: &str, session_id: &str, seconds: i64, timestamp: &str, role: MessageRole) -> Message {
    Message {
        id: id.to_string(),
        session_id: session_id.to_string(),
        seconds,
        timestamp: timestamp.to_string(),
        role,
    }
}

fn words(message_id: &str, text: &str) -> Part {
    Part {
        message_id: message_id.to_string(),
        content: PartContent::Text(text.to_string()),
    }
}

fn tool(message_id: &str, name: &str, files: &[&str]) -> Part {
    Part {
        message_id: message_id.to_string(),
        content: PartContent::Tool {
            name: name.to_string(),
            file_paths: files.iter().map(|file| file.to_string()).collect(),
        },
    }
}

fn assistant(input_tokens: u64, output_tokens: u64) -> MessageRole {
    MessageRole::Assistant {
        input_tokens,
        output_tokens,
    }
}

#[test]
fn the_words_of_a_message_are_one_prompt() {
    let sessions = build_sessions(
        &vec![meta("s")],
        &vec![
            message("one", "s", 10, "t1", MessageRole::User),
            message("two", "s", 20, "t2", MessageRole::User),
            message("mute", "s", 30, "t3", MessageRole::User),
        ],
        &vec![
            words("two", "b1"),
            words("one", "a1"),
            words("two", "b2"),
            tool("mute", "read", &["/x"]),
            words("gone", "c"),
        ],
        &DateFilter::all(),
    );
    assert_eq!(sessions.len(), 1);
    let prompts: Vec<(&str, &str)> = sessions[0]
        .user_entries
        .iter()
        .map(|entry| (entry.timestamp.as_str(), entry.text.as_str()))
        .collect();
    assert_eq!(prompts, vec![("t1", "a1"), ("t2", "b1\nb2")]);
    assert!(sessions[0].assistant_entries.is_empty());
    assert!(sessions[0].git_branch.is_none());
}

#[test]
fn prompts_of_one_time_stand_by_their_first_words() {
    let sessions = build_sessions(
        &vec![meta("s")],
        &vec![
            message("one", "s", 10, "t", MessageRole::User),
            message("two", "s", 10, "t", MessageRole::User),
        ],
        &vec![words("two", "b"), words("one", "a"), words("two", "c")],
        &DateFilter::all(),
    );
    let texts: Vec<&str> = sessions[0]
        .user_entries
        .iter()
        .map(|entry| entry.text.as_str())
        .collect();
    assert_eq!(texts, vec!["b\nc", "a"]);
}

#[test]
fn joined_words_are_cut_as_one() {
    let sessions = build_sessions(
        &vec![meta("s")],
        &vec![message("one", "s", 10, "t", MessageRole::User)],
        &vec![words("one", &"a".repeat(300)), words("one", &"b".repeat(300))],
        &DateFilter::all(),
    );
    assert_eq!(
        sessions[0].user_entries[0].text,
        format!("{}\n{}...", "a".repeat(300), "b".repeat(199))
    );
}

#[test]
fn turns_gather_their_tools_and_files() {
    let sessions = build_sessions(
        &vec![meta("s")],
        &vec![
            message("one", "s", 10, "t1", assistant(11, 7)),
            message("two", "s", 20, "t2", assistant(5, 2)),
        ],
        &vec![
            tool("one", "write", &["/b"]),
            tool("two", "bash", &[]),
            tool("one", "read", &["/a"]),
            tool("one", "read", &["/b"]),
            words("one", "done"),
        ],
        &DateFilter::all(),
    );
    let turns = &sessions[0].assistant_entries;
    assert_eq!(turns.len(), 2);
    assert_eq!(turns[0].timestamp, "t1");
    assert_eq!(turns[0].message_count, 1);
    assert_eq!(turns[0].tool_uses, vec!["write", "read", "read"]);
    assert_eq!(turns[0].file_paths, vec!["/a", "/b"]);
    assert_eq!((turns[0].input_tokens, turns[0].output_tokens), (11, 7));
    assert_eq!(turns[1].tool_uses, vec!["bash"]);
    assert!(sessions[0].user_entries.is_empty());
}

#[test]
fn parts_belong_to_the_last_message_of_their_name() {
    let sessions = build_sessions(
        &vec![meta("s")],
        &vec![
            message("m", "s", 10, "t1", assistant(1, 1)),
            message("m", "s", 20, "t2", assistant(2, 2)),
        ],
        &vec![tool("m", "read", &[])],
        &DateFilter::all(),
    );
    let turns = &sessions[0].assistant_entries;
    assert!(turns[0].tool_uses.is_empty());
    assert_eq!(turns[1].tool_uses, vec!["read"]);
}

#[test]
fn the_filter_takes_its_start_and_leaves_its_end() {
    let filter = DateFilter {
        start: Some(10),
        end: Some(20),
    };
    assert!(filter.matches_unix_seconds(10));
    assert!(filter.matches_unix_seconds(19));
    assert!(!filter.matches_unix_seconds(9));
    assert!(!filter.matches_unix_seconds(20));
    assert!(DateFilter::all().matches_unix_seconds(i64::MIN));
    let sessions = build_sessions(
        &vec![meta("s"), meta("late")],
        &vec![
            message("a", "s", 9, "t1", assistant(0, 0)),
            message("b", "s", 10, "t2", assistant(0, 0)),
            message("c", "late", 20, "t3", assistant(0, 0)),
            message("d", "unknown", 15, "t4", assistant(0, 0)),
        ],
        &Vec::new(),
        &filter,
    );
    assert_eq!(sessions.len(), 1);
    assert_eq!(sessions[0].session_id, "s");
    assert_eq!(sessions[0].assistant_entries.len(), 1);
    assert_eq!(sessions[0].assistant_entries[0].timestamp, "t2");
}

#[test]
fn sessions_stand_by_their_last_prompt() {
    let sessions = build_sessions(
        &vec![meta("quiet"), meta("old"), meta("new"), meta("empty")],
        &vec![
            message("q", "quiet", 50, "t5", assistant(0, 0)),
            message("o", "old", 10, "t1", MessageRole::User),
            message("n2", "new", 30, "t3", MessageRole::User),
            message("n1", "new", 20, "t2", MessageRole::User),
        ],
        &vec![words("n2", "late"), words("o", "first"), words("n1", "early")],
        &DateFilter::all(),
    );
    let ids: Vec<&str> = sessions.iter().map(|s| s.session_id.as_str()).collect();
    assert_eq!(ids, vec!["new", "old", "quiet"]);
    let texts: Vec<&str> = sessions[0]
        .user_entries
        .iter()
        .map(|entry| entry.text.as_str())
        .collect();
    assert_eq!(texts, vec!["early", "late"]);
}

#[test]
fn databases_follow_one_another() {
    let first = Connection::open_in_memory().expect("open db");
    write_db(&first);
    let second = Connection::open_in_memory().expect("open db");
    create_schema(&second);
    let sessions = collect_all(
        vec![read_rows(&second), read_rows(&first), read_rows(&first)],
        &DateFilter::all(),
    );
    assert_eq!(sessions.len(), 2);
    assert_eq!(sessions[0].session_id, "ses-1");
    assert_eq!(sessions[1].session_id, "ses-1");
    assert!(collect_from_db(&read_rows(&second), &DateFilter::all()).is_empty());
}

#[test]
fn a_database_that_cannot_be_read_spoils_the_collection() {
    let conn = Connection::open_in_memory().expect("open db");
    write_db(&conn);
    let read = vec![Ok(read_rows(&conn)), Err("locked"), Err("broken"), Ok(read_rows(&conn))];
    let result = collect_sessions(read, &DateFilter::all());
    assert!(matches!(result, Err("locked")));
    let none: Vec<Result<HistoryRows, &str>> = Vec::new();
    assert!(matches!(collect_sessions(none, &DateFilter::all()), Ok(sessions) if sessions.is_empty()));
}

#[test]
fn the_file_name_decides_the_project() {
    let named = |cwd: &str, found: Option<&str>| {
        project_with_file_name(cwd, found.map(|name| name.to_string()))
    };
    assert_eq!(named("C:\\work\\nippo", Some("nippo")), "nippo");
    assert_eq!(named("C:\\", None), "C:\\");
    assert_eq!(named("/tmp", Some("")), "/tmp");
    assert_eq!(named("", Some("nippo")), "unknown");
}

#[test]
fn paths_are_divided_as_the_system_does() {
    for cwd in ["C:\\work\\nippo", "//server/share", "c:nippo", "a\\b/c:d"] {
        let expected = Path::new(cwd)
            .file_name()
            .map(|name| name.to_string_lossy().to_string())
            .unwrap_or_else(|| cwd.to_string());
        assert_eq!(extract_project_from_cwd(cwd), expected, "{cwd}");
    }
}

#[test]
fn collected_sessions_can_be_placed_in_time() {
    let conn = Connection::open_in_memory().expect("open db");
    write_db(&conn);
    let sessions = collect_from_db(&read_rows(&conn), &DateFilter::all());
    let (start, end) = parsed_session_range(&sessions[0]).expect("span");
    assert_eq!(start.secs, 1_776_144_000);
    assert_eq!(end.secs, 1_776_144_200);
}
