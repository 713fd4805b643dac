//! The output of a collection run and its text.

use chrono::DateTime;
use nippo_collector::clock::{Instant, LocalOffsets};
use nippo_collector::decisions::{extract_decisions, has_signal, signals_decision};
use nippo_collector::focus::FocusStats;
use nippo_collector::limits::is_reportable;
use nippo_collector::output::{
    assemble_output, build_output, CollectorOutput, OutputPeriod, SourceMeta,
};
use nippo_collector::session::{
    assistant_message_count, is_meaningful_prompt, sort_sessions_by_recency, summarize_session,
    ParsedAssistantEntry, ParsedUserEntry, RawSession,
};
use nippo_collector::stats::{compute_stats, AggregateStats};
use nippo_collector::summary::{format_source_line, format_summary, summary_tools};
use nippo_collector::tally::CountTable;

fn user(timestamp: &str, text: &str) -> ParsedUserEntry {
    ParsedUserEntry {
        timestamp: timestamp.to_string(),
        text: text.to_string(),
    }
}

fn turn(timestamp: &str, tools: &[&str], files: &[&str]) -> ParsedAssistantEntry {
    ParsedAssistantEntry {
        timestamp: timestamp.to_string(),
        message_count: 1,
        tool_uses: tools.iter().map(|tool| tool.to_string()).collect(),
        input_tokens: 10,
        output_tokens: 3,
        file_paths: files.iter().map(|file| file.to_string()).collect(),
    }
}

fn session(
    id: &str,
    project: &str,
    user_entries: Vec<ParsedUserEntry>,
    assistant_entries: Vec<ParsedAssistantEntry>,
) -> RawSession {
    RawSession {
        session_id: id.to_string(),
        project: project.to_string(),
        project_path: format!("/tmp/{project}"),
        git_branch: Some("main".to_string()),
        user_entries,
        assistant_entries,
    }
}

fn timed_session(project: &str, session_id: &str, start: &str, end: &str) -> RawSession {
    RawSession {
        session_id: session_id.to_string(),
        project: project.to_string(),
        project_path: format!("/tmp/{project}"),
        git_branch: Some("main".to_string()),
        user_entries: vec![ParsedUserEntry {
            timestamp: start.to_string(),
            text: "prompt".to_string(),
        }],
        assistant_entries: vec![ParsedAssistantEntry {
            timestamp: end.to_string(),
            message_count: 1,
            tool_uses: Vec::new(),
            input_tokens: 0,
            output_tokens: 0,
            file_paths: Vec::new(),
        }],
    }
}

fn day(date: &str) -> OutputPeriod {
    OutputPeriod {
        from: Some(date.to_string()),
        to: Some(date.to_string()),
        timezone: "Asia/Tokyo".to_string(),
    }
}

fn source(requested: &str, resolved: &[&str]) -> SourceMeta {
    SourceMeta {
        requested: requested.to_string(),
        resolved: resolved.iter().map(|name| name.to_string()).collect(),
    }
}

fn assembled(sessions: Vec<RawSession>, stats_only: bool, offsets: &LocalOffsets) -> CollectorOutput {
    assemble_output(
        sessions,
        "today",
        day("2026-04-01"),
        3,
        stats_only,
        source("all", &["opencode", "codex"]),
        "2026-04-01T12:00:00+00:00".to_string(),
        offsets,
    )
}

fn counts(table: &CountTable) -> Vec<(String, u32)> {
    let mut entries: Vec<(String, u32)> = table
        .entries
        .iter()
        .map(|entry| (entry.name.clone(), entry.count))
        .collect();
    entries.sort();
    entries
}

#[test]
fn deduplicates_decisions_by_timestamp_and_prompt() {
    let sessions = vec![
        RawSession {
            session_id: "session-a".to_string(),
            project: "nippo".to_string(),
            project_path: "/tmp/nippo".to_string(),
            git_branch: Some("main".to_string()),
            user_entries: vec![ParsedUserEntry {
                timestamp: "2026-04-01T10:00:00Z".to_string(),
                text: "Rust にする".to_string(),
            }],
            assistant_entries: Vec::<ParsedAssistantEntry>::new(),
        },
        RawSession {
            session_id: "session-b".to_string(),
            project: "nippo".to_string(),
            project_path: "/tmp/nippo".to_string(),
            git_branch: Some("main".to_string()),
            user_entries: vec![ParsedUserEntry {
                timestamp: "2026-04-01T10:00:00Z".to_string(),
                text: "Rust にする".to_string(),
            }],
            assistant_entries: Vec::<ParsedAssistantEntry>::new(),
        },
    ];

    let output = build_output(
        sessions,
        "today",
        OutputPeriod {
            from: Some("2026-04-01".to_string()),
            to: Some("2026-04-01".to_string()),
            timezone: "Asia/Tokyo".to_string(),
        },
        2,
        false,
        SourceMeta {
            requested: "all".to_string(),
            resolved: vec!["opencode".to_string(), "codex".to_string()],
        },
    );

    assert_eq!(output.decisions.len(), 1);
    assert_eq!(output.stats.total_decisions, 1);
}

#[test]
fn includes_source_metadata_in_summary() {
    let sessions = vec![RawSession {
        session_id: "session-a".to_string(),
        project: "nippo".to_string(),
        project_path: "/tmp/nippo".to_string(),
        git_branch: Some("main".to_string()),
        user_entries: vec![ParsedUserEntry {
            timestamp: "2026-04-01T10:00:00Z".to_string(),
            text: "進める".to_string(),
        }],
        assistant_entries: Vec::<ParsedAssistantEntry>::new(),
    }];

    let output = build_output(
        sessions,
        "today",
        OutputPeriod {
            from: Some("2026-04-01".to_string()),
            to: Some("2026-04-01".to_string()),
            timezone: "Asia/Tokyo".to_string(),
        },
        1,
        false,
        SourceMeta {
            requested: "auto".to_string(),
            resolved: vec!["codex".to_string()],
        },
    );
    let summary = format_summary(&output, &Vec::new());

    assert!(summary.contains("ソース: requested auto | resolved codex"));
    assert!(summary.contains("集中: 1 ブロック | 最長: 0 分 | プロジェクト切替: 0 回"));
    assert_eq!(output.meta.source.requested, "auto");
    assert_eq!(output.meta.source.resolved, vec!["codex".to_string()]);
}

#[test]
fn excludes_skill_preambles_from_decisions() {
    let sessions = vec![RawSession {
        session_id: "session-a".to_string(),
        project: "nippo".to_string(),
        project_path: "/tmp/nippo".to_string(),
        git_branch: Some("main".to_string()),
        user_entries: vec![
            ParsedUserEntry {
                timestamp: "2026-08-13T10:00:00Z".to_string(),
                text: "Base directory for this skill: /tmp/instead-of-this".to_string(),
            },
            ParsedUserEntry {
                timestamp: "2026-08-13T10:01:00Z".to_string(),
                text: "(Re-invocation of /switch-to-example)".to_string(),
            },
            ParsedUserEntry {
                timestamp: "2026-08-13T10:02:00Z".to_string(),
                text: "Python ではなく Rust にする".to_string(),
            },
        ],
        assistant_entries: Vec::new(),
    }];

    let output = build_output(
        sessions,
        "today",
        OutputPeriod {
            from: Some("2026-08-13".to_string()),
            to: Some("2026-08-13".to_string()),
            timezone: "Asia/Tokyo".to_string(),
        },
        1,
        false,
        SourceMeta {
            requested: "opencode".to_string(),
            resolved: vec!["opencode".to_string()],
        },
    );

    assert_eq!(output.decisions.len(), 1);
    assert_eq!(
        output.decisions[0].user_prompt,
        "Python ではなく Rust にする"
    );
}

#[test]
fn builds_deterministic_render_helpers() {
    let sessions = vec![
        timed_session("alpha", "a", "2026-05-05T03:17:00Z", "2026-05-05T03:55:00Z"),
        timed_session("alpha", "b", "2026-05-05T04:00:00Z", "2026-05-05T04:17:00Z"),
    ];
    let mut sessions = sessions;
    sessions[0].assistant_entries[0].tool_uses = vec!["Read".to_string(), "Edit".to_string()];
    sessions[1].assistant_entries[0].tool_uses = vec!["Edit".to_string()];

    let output = build_output(
        sessions,
        "today",
        OutputPeriod {
            from: Some("2026-05-05".to_string()),
            to: Some("2026-05-05".to_string()),
            timezone: "Asia/Tokyo".to_string(),
        },
        2,
        false,
        SourceMeta {
            requested: "opencode".to_string(),
            resolved: vec!["opencode".to_string()],
        },
    );
    assert_eq!(output.meta.period.from.as_deref(), Some("2026-05-05"));
    assert_eq!(output.meta.period.to.as_deref(), Some("2026-05-05"));
    assert_eq!(output.meta.period.timezone, "Asia/Tokyo");
    let helpers = &output.render_helpers;

    assert_eq!(helpers.sessions_local.len(), 2);
    assert_eq!(helpers.tool_frequency_top5[0].name, "Edit");
    assert_eq!(helpers.tool_frequency_top5[0].count, 2);
    let window = helpers.main_work_window_local.as_ref().expect("window");
    assert_eq!(window.method, "longest_block_with_gaps_under_30_minutes");

    let start = DateTime::parse_from_rfc3339(&window.start).expect("local start");
    let end = DateTime::parse_from_rfc3339(&window.end).expect("local end");
    assert_eq!((end - start).num_minutes(), 60);
}

#[test]
fn local_times_name_the_same_instants() {
    let output = build_output(
        vec![timed_session(
            "alpha",
            "a",
            "2026-05-05T03:17:00Z",
            "2026-05-05T03:55:00Z",
        )],
        "today",
        day("2026-05-05"),
        1,
        false,
        source("opencode", &["opencode"]),
    );
    let local = &output.render_helpers.sessions_local[0];
    let start = DateTime::parse_from_rfc3339(local.start_local.as_deref().expect("start"));
    let end = DateTime::parse_from_rfc3339(local.end_local.as_deref().expect("end"));
    assert_eq!(start.expect("start").timestamp(), 1_777_951_020);
    assert_eq!(end.expect("end").timestamp(), 1_777_951_020 + 38 * 60);
    assert!(DateTime::parse_from_rfc3339(&output.meta.generated_at).is_ok());
    assert_eq!(output.stats.sessions_by_hour.entries.len(), 1);
    let hour = &output.stats.sessions_by_hour.entries[0].name;
    assert_eq!(hour, &local.start_local.as_deref().expect("start")[11..13]);
}

#[test]
fn english_signals_count_in_any_case() {
    assert!(signals_decision("Use the other one INSTEAD"));
    assert!(signals_decision("Let's USE rust"));
    assert!(signals_decision("no, the other"));
    assert!(signals_decision("やっぱり戻す"));
    assert!(signals_decision("こちらのほうが速い"));
    assert!(!signals_decision("進める"));
    assert!(!signals_decision("nothing to choose"));
    assert!(!signals_decision("Base directory for this skill: instead"));
    assert!(has_signal("x", "switch to y"));
    assert!(!has_signal("switch to y", "x"));
    assert!(has_signal("Rust にして", "x"));
    assert!(!has_signal("x", "rust にして"));
}

#[test]
fn meaningful_prompts_are_the_words_of_the_user() {
    assert!(is_meaningful_prompt("進める"));
    assert!(is_meaningful_prompt(" Base directory for this skill: x"));
    assert!(!is_meaningful_prompt("Base directory for this skill: x"));
    assert!(!is_meaningful_prompt("(Re-invocation of /x)"));
}

#[test]
fn decisions_keep_their_context_and_differ_in_time_or_words() {
    let long = format!("{}にする", "あ".repeat(90));
    let sessions = vec![
        session(
            "a",
            "alpha",
            vec![
                user("2026-04-01T10:00:00Z", &long),
                user("2026-04-01T10:00:00Z", "進める"),
                user("2026-04-01T10:01:00Z", "Rust にする"),
                user("2026-04-01T10:02:00Z", "Rust にする"),
            ],
            Vec::new(),
        ),
        session(
            "b",
            "beta",
            vec![user("2026-04-01T10:01:00Z", "Rust にする")],
            Vec::new(),
        ),
    ];
    let found = extract_decisions(&sessions);
    assert_eq!(found.len(), 3);
    assert_eq!(found[0].context, "あ".repeat(80));
    assert_eq!(found[0].user_prompt, long);
    assert_eq!(found[1].project, "alpha");
    assert_eq!(found[1].context, "Rust にする");
    assert_eq!(found[2].timestamp, "2026-04-01T10:02:00Z");
}

#[test]
fn statistics_add_up() {
    let sessions = vec![
        session(
            "a",
            "alpha",
            vec![
                user("2026-04-01T09:00:00Z", "Rust にする"),
                user("2026-04-01T09:30:00Z", "この関数を読みやすく書き直してください"),
                user("bad", "短い"),
            ],
            vec![turn(
                "2026-04-01T09:05:00Z",
                &["Edit", "Read", "Edit"],
                &["/tmp/alpha/b.rs", "/tmp/alpha/a.rs"],
            )],
        ),
        session(
            "b",
            "beta",
            vec![user("2026-04-01T22:10:00Z", "go with beta")],
            vec![
                turn("2026-04-01T22:11:00Z", &["Bash"], &["/tmp/beta/c.rs"]),
                turn("2026-04-01T22:12:00Z", &["Read"], &["/tmp/beta/c.rs"]),
            ],
        ),
        session(
            "c",
            "alpha",
            vec![user("2026-04-01T08:00:00Z", "始める")],
            Vec::new(),
        ),
    ];
    assert!(is_reportable(&sessions));
    let output = assembled(sessions, false, &LocalOffsets::new());
    let stats = &output.stats;
    assert_eq!(stats.total_user_messages, 5);
    assert_eq!(stats.total_assistant_messages, 3);
    assert_eq!(stats.total_tool_uses, 5);
    assert_eq!(stats.total_input_tokens, 30);
    assert_eq!(stats.total_output_tokens, 9);
    assert_eq!(
        counts(&stats.tool_frequency),
        vec![
            ("Bash".to_string(), 1),
            ("Edit".to_string(), 2),
            ("Read".to_string(), 2)
        ]
    );
    assert_eq!(
        counts(&stats.sessions_by_hour),
        vec![
            ("08".to_string(), 1),
            ("09".to_string(), 2),
            ("22".to_string(), 1)
        ]
    );
    assert_eq!(stats.total_decisions, 2);
    assert_eq!(stats.decisions_by_project.len(), 2);
    assert_eq!(stats.decisions_by_project[0].project, "alpha");
    assert_eq!(stats.decisions_by_project[0].count, 1);
    assert_eq!(
        stats.overall_time_range.start.as_deref(),
        Some("2026-04-01T08:00:00Z")
    );
    assert_eq!(stats.overall_time_range.end.as_deref(), Some("bad"));
    // 14 + 57 + 6 + 12 + 9 bytes in five prompts; all but one have less than 20.
    assert_eq!(stats.prompt_stats.avg_length, 98 / 5);
    assert_eq!(stats.prompt_stats.short_prompts, 4);
    assert_eq!(stats.prompt_stats.total_prompts, 5);

    let projects = &stats.projects_worked_on;
    assert_eq!(projects.len(), 2);
    assert_eq!(projects[0].name, "alpha");
    assert_eq!(projects[0].session_count, 2);
    assert_eq!(projects[0].message_count, 5);
    assert_eq!(
        projects[0].files_touched,
        vec!["/tmp/alpha/a.rs".to_string(), "/tmp/alpha/b.rs".to_string()]
    );
    assert_eq!(projects[1].name, "beta");
    assert_eq!(projects[1].message_count, 3);
    assert_eq!(projects[1].files_touched, vec!["/tmp/beta/c.rs".to_string()]);
    assert_eq!(
        counts(&projects[1].tool_usage),
        vec![("Bash".to_string(), 1), ("Read".to_string(), 1)]
    );
    assert_eq!(
        projects[1].time_range.start.as_deref(),
        Some("2026-04-01T22:10:00Z")
    );
    assert_eq!(
        projects[1].time_range.end.as_deref(),
        Some("2026-04-01T22:12:00Z")
    );

    assert_eq!(
        output.meta.total_sessions,
        projects.iter().map(|p| p.session_count).sum::<usize>()
    );
    assert_eq!(
        stats.total_user_messages + stats.total_assistant_messages,
        projects.iter().map(|p| p.message_count).sum::<usize>()
    );
    assert_eq!(output.meta.total_files_scanned, 3);
    assert_eq!(output.meta.generated_at, "2026-04-01T12:00:00+00:00");
    assert_eq!(output.meta.filter_label, "today");
}

#[test]
fn statistics_are_the_same_in_any_order() {
    let first = || {
        session(
            "a",
            "alpha",
            vec![user("2026-04-01T09:00:00Z", "Rust にする")],
            vec![turn("2026-04-01T09:05:00Z", &["Edit", "Read"], &["/b", "/a"])],
        )
    };
    let second = || {
        session(
            "b",
            "alpha",
            vec![user("2026-04-01T22:10:00Z", "go with beta")],
            vec![turn("2026-04-01T22:11:00Z", &["Bash", "Read"], &["/c", "/a"])],
        )
    };
    let third = || {
        session(
            "c",
            "beta",
            vec![user("2026-04-01T08:00:00Z", "に変える")],
            vec![turn("2026-04-01T08:01:00Z", &["Read"], &[])],
        )
    };
    let offsets = LocalOffsets::new();
    let stats = |sessions: Vec<RawSession>| {
        let mut found = extract_decisions(&sessions);
        found.reverse();
        compute_stats(&sessions, &found, FocusStats::default(), &offsets)
    };
    let one = stats(vec![first(), second(), third()]);
    let other = stats(vec![third(), second(), first()]);
    assert_eq!(counts(&one.tool_frequency), counts(&other.tool_frequency));
    assert_eq!(counts(&one.sessions_by_hour), counts(&other.sessions_by_hour));
    assert_eq!(one.total_tool_uses, other.total_tool_uses);
    assert_eq!(one.overall_time_range.start, other.overall_time_range.start);
    assert_eq!(one.overall_time_range.end, other.overall_time_range.end);
    assert_eq!(one.prompt_stats.avg_length, other.prompt_stats.avg_length);
    assert_eq!(one.prompt_stats.short_prompts, other.prompt_stats.short_prompts);
    let by_project = |stats: &AggregateStats| -> Vec<(String, usize)> {
        stats
            .decisions_by_project
            .iter()
            .map(|entry| (entry.project.clone(), entry.count))
            .collect()
    };
    assert_eq!(by_project(&one), by_project(&other));
    assert_eq!(
        by_project(&one),
        vec![("alpha".to_string(), 2), ("beta".to_string(), 1)]
    );
    assert_eq!(one.projects_worked_on.len(), 2);
    assert_eq!(other.projects_worked_on.len(), 2);
    for (left, right) in one.projects_worked_on.iter().zip(&other.projects_worked_on) {
        assert_eq!(left.name, right.name);
        assert_eq!(left.session_count, right.session_count);
        assert_eq!(left.message_count, right.message_count);
        assert_eq!(left.files_touched, right.files_touched);
        assert_eq!(left.time_range.start, right.time_range.start);
        assert_eq!(left.time_range.end, right.time_range.end);
        assert_eq!(counts(&left.tool_usage), counts(&right.tool_usage));
        // The time of a project lies within that of all sessions.
        assert!(one.overall_time_range.start <= left.time_range.start);
        assert!(left.time_range.end <= one.overall_time_range.end);
    }
}

#[test]
fn projects_with_equal_messages_stand_by_name() {
    let sessions = vec![
        timed_session("zeta", "z", "2026-04-01T09:00:00Z", "2026-04-01T09:01:00Z"),
        timed_session("alpha", "a", "2026-04-01T09:00:00Z", "2026-04-01T09:01:00Z"),
    ];
    let output = assembled(sessions, false, &LocalOffsets::new());
    let names: Vec<&str> = output
        .stats
        .projects_worked_on
        .iter()
        .map(|p| p.name.as_str())
        .collect();
    assert_eq!(names, vec!["alpha", "zeta"]);
}

#[test]
fn recent_sessions_come_out_first() {
    let sessions = vec![
        session("none", "alpha", Vec::new(), Vec::new()),
        timed_session("alpha", "old", "2026-04-01T09:00:00Z", "2026-04-01T09:01:00Z"),
        timed_session("alpha", "new", "2026-04-02T09:00:00Z", "2026-04-02T09:01:00Z"),
        timed_session("alpha", "old-too", "2026-04-01T08:00:00Z", "2026-04-01T09:01:00Z"),
    ];
    let ids: Vec<String> = sort_sessions_by_recency(sessions)
        .into_iter()
        .map(|s| s.session_id)
        .collect();
    assert_eq!(ids, vec!["new", "old", "old-too", "none"]);
}

#[test]
fn statistics_only_leave_the_sessions_out() {
    let make = || {
        vec![
            timed_session("alpha", "a", "2026-04-01T09:00:00Z", "2026-04-01T09:10:00Z"),
            timed_session("beta", "b", "2026-04-01T09:20:00Z", "2026-04-01T09:30:00Z"),
        ]
    };
    let full = assembled(make(), false, &LocalOffsets::new());
    let short = assembled(make(), true, &LocalOffsets::new());
    assert_eq!(full.sessions.len(), 2);
    assert_eq!(full.render_helpers.sessions_local.len(), 2);
    assert!(short.sessions.is_empty());
    assert!(short.render_helpers.sessions_local.is_empty());
    assert_eq!(short.meta.total_sessions, 2);
    assert_eq!(short.stats.focus, full.stats.focus);
    assert_eq!(
        short.render_helpers.main_work_window_local.map(|w| w.start),
        full.render_helpers.main_work_window_local.map(|w| w.start)
    );
}

#[test]
fn sessions_that_cannot_be_placed_have_no_local_times() {
    let mut offsets = LocalOffsets::new();
    offsets.set(1_777_951_020, 9 * 3600);
    let output = assembled(
        vec![
            timed_session("alpha", "a", "2026-05-05T03:17:00Z", "2026-05-05T03:17:00Z"),
            timed_session("beta", "b", "unknown", "2026-05-05T03:20:00Z"),
        ],
        false,
        &offsets,
    );
    // A text that is no time stands behind all digits.
    let local = &output.render_helpers.sessions_local;
    assert_eq!(local[0].session_id, "b");
    assert_eq!(local[0].start_local, None);
    assert_eq!(local[0].end_local, None);
    assert_eq!(local[1].project, "alpha");
    assert_eq!(
        local[1].start_local.as_deref(),
        Some("2026-05-05T12:17:00+09:00")
    );
    assert_eq!(
        counts(&output.stats.sessions_by_hour),
        vec![("12".to_string(), 1)]
    );
}

#[test]
fn five_tools_are_named_and_no_more() {
    let tools = [
        "a", "b", "b", "c", "c", "c", "d", "d", "d", "d", "e", "f", "f",
    ];
    let output = assembled(
        vec![session(
            "s",
            "alpha",
            Vec::new(),
            vec![turn("2026-04-01T09:00:00Z", &tools, &[])],
        )],
        false,
        &LocalOffsets::new(),
    );
    let top: Vec<(String, u32)> = output
        .render_helpers
        .tool_frequency_top5
        .iter()
        .map(|item| (item.name.clone(), item.count))
        .collect();
    assert_eq!(
        top,
        vec![
            ("d".to_string(), 4),
            ("c".to_string(), 3),
            ("b".to_string(), 2),
            ("f".to_string(), 2),
            ("a".to_string(), 1),
        ]
    );
    let shown: Vec<String> = summary_tools(&output.stats)
        .into_iter()
        .map(|tool| tool.name)
        .collect();
    assert_eq!(shown, vec!["d", "c", "b", "f", "a", "e"]);
}

#[test]
fn a_session_is_summed_up() {
    let one = session(
        "s",
        "nippo",
        vec![user("2026-04-01T09:00:00Z", "a"), user("2026-04-01T09:09:00Z", "b")],
        vec![
            turn(
                "2026-04-01T09:01:00Z",
                &["Read", "Edit"],
                &["/tmp/nippo/src/lib.rs", "/etc/hosts", "/tmp/nippo-other/x"],
            ),
            turn("2026-04-01T09:10:00Z", &["Read"], &["/tmp/nippo/src/lib.rs"]),
        ],
    );
    let summary = summarize_session(&one);
    assert_eq!(summary.session_id, "s");
    assert_eq!(summary.project, "nippo");
    assert_eq!(summary.message_counts.user, 2);
    assert_eq!(summary.message_counts.assistant, 2);
    assert_eq!(assistant_message_count(&one.assistant_entries), 2);
    assert_eq!(summary.total_input_tokens, 20);
    assert_eq!(summary.total_output_tokens, 6);
    assert_eq!(summary.tool_usage.get("Read"), Some(2));
    assert_eq!(summary.tool_usage.get("Edit"), Some(1));
    assert_eq!(
        summary.files_touched,
        vec![
            "/etc/hosts".to_string(),
            "/tmp/nippo-other/x".to_string(),
            "src/lib.rs".to_string()
        ]
    );
    assert_eq!(summary.time_range.start.as_deref(), Some("2026-04-01T09:00:00Z"));
    assert_eq!(summary.time_range.end.as_deref(), Some("2026-04-01T09:10:00Z"));
}

#[test]
fn the_source_line_names_what_was_read() {
    assert_eq!(
        format_source_line(&source("all", &["opencode", "codex"])),
        "requested all | resolved opencode, codex"
    );
    assert_eq!(
        format_source_line(&source("auto", &[])),
        "requested auto | resolved なし"
    );
}

#[test]
fn a_summary_without_sessions_gives_hints() {
    let output = assembled(Vec::new(), false, &LocalOffsets::new());
    assert_eq!(
        format_summary(&output, &Vec::new()),
        "指定期間（today）にセッションデータが見つかりませんでした。\n\
         ソース: requested all | resolved opencode, codex\n\
         \n\
         ヒント:\n\
         \u{20} - 期間を広げてみてください: --days 7 や --days 30\n\
         \u{20} - プロジェクトフィルタを外してみてください（--project を省略）\n\
         \u{20} - 全期間を確認: --days 0\n"
    );
}

#[test]
fn a_summary_lists_projects_tools_and_decisions() {
    let mut prompts = Vec::new();
    for minute in 0..7 {
        prompts.push(user(
            &format!("2026-04-01T09:0{minute}:00Z"),
            &format!("{} にする", "長".repeat(70 * (minute % 2) + 3)),
        ));
    }
    let output = assembled(
        vec![session(
            "s",
            "日報",
            prompts,
            vec![turn("2026-04-01T09:30:00Z", &["Read", "Edit", "Read"], &[])],
        )],
        false,
        &LocalOffsets::new(),
    );
    let shares: Vec<String> = vec!["66.7".to_string(), "33.3".to_string()];
    let long = "長".repeat(60);
    let expected = [
        "ソース: requested all | resolved opencode, codex".to_string(),
        "期間: today | セッション: 1 | プロジェクト: 1 | 意思決定: 7".to_string(),
        "メッセージ: user 7 / assistant 1 | ツール使用: 3".to_string(),
        "トークン: input 10 / output 3".to_string(),
        "集中: 1 ブロック | 最長: 30 分 | プロジェクト切替: 0 回".to_string(),
        String::new(),
        "プロジェクト:".to_string(),
        format!("  {:<30} {:>3} セッション  {:>6} メッセージ", "日報", 1, 8),
        String::new(),
        "ツール:".to_string(),
        format!("  {:<12} {:>5} ({}%)", "Read", 2, "66.7"),
        format!("  {:<12} {:>5} ({}%)", "Edit", 1, "33.3"),
        String::new(),
        "意思決定 (7):".to_string(),
        "  [日報] 長長長 にする".to_string(),
        format!("  [日報] {long}"),
        "  [日報] 長長長 にする".to_string(),
        format!("  [日報] {long}"),
        "  [日報] 長長長 にする".to_string(),
        "  ... 他 2 件".to_string(),
        String::new(),
    ];
    assert_eq!(format_summary(&output, &shares), expected.join("\n"));
}

#[test]
fn totals_that_cannot_be_represented_are_refused() {
    let mut one = timed_session("alpha", "a", "2026-04-01T09:00:00Z", "2026-04-01T09:01:00Z");
    one.assistant_entries[0].input_tokens = u64::MAX;
    let mut two = timed_session("beta", "b", "2026-04-01T09:00:00Z", "2026-04-01T09:01:00Z");
    let mut both = vec![one];
    assert!(is_reportable(&both));
    two.assistant_entries[0].input_tokens = 1;
    both.push(two);
    assert!(!is_reportable(&both));

    let mut many = timed_session("alpha", "a", "2026-04-01T09:00:00Z", "2026-04-01T09:01:00Z");
    many.assistant_entries[0].message_count = usize::MAX;
    assert!(!is_reportable(&vec![many]));
}

#[test]
fn the_main_window_is_shown_in_local_time() {
    let mut offsets = LocalOffsets::new();
    offsets.set(1_777_951_020, -3600);
    let start = Instant {
        secs: 1_777_951_020,
        nanos: 0,
    };
    assert_eq!(offsets.at(start.secs), -3600);
    let output = assembled(
        vec![timed_session(
            "alpha",
            "a",
            "2026-05-05T03:17:00Z",
            "2026-05-05T03:55:00Z",
        )],
        true,
        &offsets,
    );
    let window = output.render_helpers.main_work_window_local.expect("window");
    assert_eq!(window.start, "2026-05-05T02:17:00-01:00");
    assert_eq!(window.end, "2026-05-05T03:55:00+00:00");
}
