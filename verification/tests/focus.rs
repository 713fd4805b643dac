//! Blocks of uninterrupted work.

use nippo_collector::clock::Instant;
use nippo_collector::focus::{
    compute_focus, extend_span, measure_focus, parsed_session_range, FocusInterval, FocusStats,
};
use nippo_collector::session::{ParsedAssistantEntry, ParsedUserEntry, RawSession};

fn timed_session(project: &str, session_id: &str, start: &str, end: &str) -> RawSession {
    RawSession {
        session_id: session_id.to_string(),
        project: project.to_string(),
        project_path: format!("/tmp/{project}"),
        git_branch: Some("main".to_string()),
        user_entries: vec![ParsedUserEntry {
            timestamp: start.to_string(),
            text: "prompt".to_string(),
        }],
        assistant_entries: vec![ParsedAssistantEntry {
            timestamp: end.to_string(),
            message_count: 1,
            tool_uses: Vec::new(),
            input_tokens: 0,
            output_tokens: 0,
            file_paths: Vec::new(),
        }],
    }
}

#[test]
fn counts_project_switches_in_start_time_order() {
    let sessions = vec![
        timed_session("alpha", "a", "2026-04-01T09:00:00Z", "2026-04-01T09:10:00Z"),
        timed_session("beta", "b", "2026-04-01T09:20:00Z", "2026-04-01T09:30:00Z"),
        timed_session("beta", "c", "2026-04-01T09:40:00Z", "2026-04-01T09:50:00Z"),
        timed_session("alpha", "d", "2026-04-01T10:00:00Z", "2026-04-01T10:10:00Z"),
    ];

    assert_eq!(compute_focus(&sessions).stats.context_switches, 2);
}

#[test]
fn does_not_count_project_switches_after_a_thirty_minute_gap() {
    let sessions = vec![
        timed_session("alpha", "a", "2026-04-01T09:00:00Z", "2026-04-01T09:10:00Z"),
        timed_session("beta", "b", "2026-04-01T09:40:00Z", "2026-04-01T10:00:00Z"),
    ];

    assert_eq!(compute_focus(&sessions).stats.context_switches, 0);
}

#[test]
fn merges_blocks_when_the_gap_is_under_thirty_minutes() {
    let sessions = vec![
        timed_session("alpha", "a", "2026-04-01T09:00:00Z", "2026-04-01T09:10:00Z"),
        timed_session("alpha", "b", "2026-04-01T09:39:00Z", "2026-04-01T10:00:00Z"),
        timed_session("alpha", "c", "2026-04-01T11:00:00Z", "2026-04-01T11:20:00Z"),
    ];

    let focus = compute_focus(&sessions).stats;

    assert_eq!(focus.focus_blocks, 2);
    assert_eq!(focus.longest_focus_minutes, 60);
}

#[test]
fn starts_a_new_block_at_the_thirty_minute_boundary() {
    let sessions = vec![
        timed_session("alpha", "a", "2026-04-01T09:00:00Z", "2026-04-01T09:10:00Z"),
        timed_session("alpha", "b", "2026-04-01T09:40:00Z", "2026-04-01T10:00:00Z"),
    ];

    let focus = compute_focus(&sessions).stats;

    assert_eq!(focus.focus_blocks, 2);
    assert_eq!(focus.longest_focus_minutes, 20);
}

#[test]
fn excludes_sessions_with_unparseable_timestamps() {
    let sessions = vec![
        timed_session(
            "alpha",
            "valid",
            "2026-04-01T09:00:00Z",
            "2026-04-01T09:20:00Z",
        ),
        timed_session("beta", "invalid", "not-a-timestamp", "2026-04-01T09:30:00Z"),
    ];

    let focus = compute_focus(&sessions).stats;

    assert_eq!(focus.focus_blocks, 1);
    assert_eq!(focus.context_switches, 0);
    assert_eq!(focus.longest_focus_minutes, 20);
}

#[test]
fn no_sessions_have_no_focus() {
    let focus = compute_focus(&Vec::new());
    assert_eq!(
        focus.stats,
        FocusStats {
            context_switches: 0,
            longest_focus_minutes: 0,
            focus_blocks: 0
        }
    );
    assert_eq!(focus.stats, FocusStats::default());
    assert!(focus.main_work_window.is_none());
}

#[test]
fn sessions_without_readable_times_have_no_focus() {
    let sessions = vec![timed_session("alpha", "a", "soon", "later")];
    let focus = compute_focus(&sessions);
    assert_eq!(focus.stats.focus_blocks, 0);
    assert!(focus.main_work_window.is_none());
}

#[test]
fn focus_is_the_same_in_any_order() {
    let forward = vec![
        timed_session("alpha", "a", "2026-04-01T09:00:00Z", "2026-04-01T09:10:00Z"),
        timed_session("beta", "b", "2026-04-01T09:00:00Z", "2026-04-01T09:30:00Z"),
        timed_session("alpha", "c", "2026-04-01T11:00:00Z", "2026-04-01T11:50:00Z"),
    ];
    let backward = vec![
        timed_session("alpha", "c", "2026-04-01T11:00:00Z", "2026-04-01T11:50:00Z"),
        timed_session("beta", "b", "2026-04-01T09:00:00Z", "2026-04-01T09:30:00Z"),
        timed_session("alpha", "a", "2026-04-01T09:00:00Z", "2026-04-01T09:10:00Z"),
    ];
    let one = compute_focus(&forward);
    let other = compute_focus(&backward);
    assert_eq!(one.stats, other.stats);
    assert_eq!(one.main_work_window, other.main_work_window);
    assert_eq!(one.stats.context_switches, 1);
    assert_eq!(one.stats.focus_blocks, 2);
    assert_eq!(one.stats.longest_focus_minutes, 50);
}

#[test]
fn sessions_that_cannot_be_placed_change_nothing() {
    let placed = vec![
        timed_session("alpha", "a", "2026-04-01T09:00:00Z", "2026-04-01T09:10:00Z"),
        timed_session("beta", "b", "2026-04-01T09:20:00Z", "2026-04-01T09:30:00Z"),
    ];
    let mut empty = timed_session("gamma", "x", "", "");
    empty.user_entries.clear();
    empty.assistant_entries.clear();
    let more = vec![
        timed_session("gamma", "a", "2026-04-01T09:15:00Z", "soon"),
        timed_session("beta", "b", "2026-04-01T09:20:00Z", "2026-04-01T09:30:00Z"),
        empty,
        timed_session("alpha", "a", "2026-04-01T09:00:00Z", "2026-04-01T09:10:00Z"),
    ];
    let one = compute_focus(&placed);
    let other = compute_focus(&more);
    assert_eq!(one.stats, other.stats);
    assert_eq!(one.main_work_window, other.main_work_window);
    assert_eq!(one.stats.context_switches, 1);
}

#[test]
fn the_main_window_is_a_whole_block() {
    // The first session ends in a leap second; its block goes on past midnight.
    let sessions = vec![
        timed_session("alpha", "a", "2016-12-31T23:59:00Z", "2016-12-31T23:59:60.5Z"),
        timed_session("alpha", "b", "2016-12-31T23:59:30Z", "2017-01-01T00:00:00.2Z"),
    ];
    let focus = compute_focus(&sessions);
    assert_eq!(focus.stats.focus_blocks, 1);
    assert_eq!(focus.stats.longest_focus_minutes, 1);
    assert_eq!(
        focus.main_work_window,
        Some((
            Instant {
                secs: 1_483_228_740,
                nanos: 0
            },
            Instant {
                secs: 1_483_228_800,
                nanos: 200_000_000
            }
        ))
    );
}

#[test]
fn a_block_reaches_to_the_latest_end() {
    // The second session ends before the first, so the third goes on with the same block.
    let sessions = vec![
        timed_session("alpha", "a", "2026-04-01T09:00:00Z", "2026-04-01T10:00:00Z"),
        timed_session("alpha", "b", "2026-04-01T09:10:00Z", "2026-04-01T09:20:00Z"),
        timed_session("beta", "c", "2026-04-01T10:29:59Z", "2026-04-01T10:30:00Z"),
    ];
    let focus = compute_focus(&sessions);
    assert_eq!(focus.stats.focus_blocks, 1);
    assert_eq!(focus.stats.context_switches, 1);
    assert_eq!(focus.stats.longest_focus_minutes, 90);
}

#[test]
fn the_first_of_equally_long_blocks_is_the_main_window() {
    let sessions = vec![
        timed_session("alpha", "a", "2026-04-01T09:00:00Z", "2026-04-01T09:20:00Z"),
        timed_session("alpha", "b", "2026-04-01T12:00:00Z", "2026-04-01T12:20:00Z"),
    ];
    let window = compute_focus(&sessions).main_work_window;
    assert_eq!(
        window,
        Some((
            Instant {
                secs: 1_775_034_000,
                nanos: 0
            },
            Instant {
                secs: 1_775_035_200,
                nanos: 0
            }
        ))
    );
}

#[test]
fn the_span_of_a_session_reads_offsets_and_fractions() {
    let session = timed_session(
        "alpha",
        "a",
        "2026-04-01T18:00:00.250+09:00",
        "2026-04-01T09:20:00Z",
    );
    assert_eq!(
        parsed_session_range(&session),
        Some((
            Instant {
                secs: 1_775_034_000,
                nanos: 250_000_000
            },
            Instant {
                secs: 1_775_035_200,
                nanos: 0
            }
        ))
    );
}

#[test]
fn the_span_starts_with_the_earliest_time_wherever_it_stands() {
    let session = timed_session("alpha", "a", "2026-04-01T09:20:00Z", "2026-04-01T09:00:00Z");
    let (start, end) = parsed_session_range(&session).expect("span");
    assert_eq!(start.secs, 1_775_034_000);
    assert_eq!(end.secs, 1_775_035_200);
}

#[test]
fn a_leap_second_at_midnight_makes_no_minute() {
    // The end of the leap second lies a fraction behind the next midnight.
    let sessions = vec![timed_session(
        "alpha",
        "a",
        "2016-12-31T23:59:60.9Z",
        "2017-01-01T00:00:00Z",
    )];
    let focus = compute_focus(&sessions);
    assert_eq!(focus.stats.longest_focus_minutes, 0);
    assert_eq!(focus.stats.focus_blocks, 1);
    assert_eq!(
        focus.main_work_window.map(|window| window.0),
        Some(Instant {
            secs: 1_483_228_799,
            nanos: 1_900_000_000
        })
    );
}

#[test]
fn intervals_are_measured_whatever_their_order() {
    let at = |secs: i64| Instant { secs, nanos: 0 };
    let interval = |start: i64, end: i64, project: &'static str, session_id: &'static str| {
        FocusInterval {
            start: at(start),
            end: at(end),
            project,
            session_id,
        }
    };
    let focus = measure_focus(vec![
        interval(4_000, 4_060, "beta", "c"),
        interval(0, 600, "alpha", "a"),
        interval(1_200, 2_300, "beta", "b"),
    ]);
    // 28 minutes and 20 seconds behind the end of the second, so all is one block.
    assert_eq!(
        focus.stats,
        FocusStats {
            context_switches: 1,
            longest_focus_minutes: 67,
            focus_blocks: 1
        }
    );
    assert_eq!(focus.main_work_window, Some((at(0), at(4_060))));
}

#[test]
fn a_span_grows_at_either_end() {
    let at = |secs: i64| Instant { secs, nanos: 0 };
    assert_eq!(extend_span(None, at(5)), (at(5), at(5)));
    assert_eq!(extend_span(Some((at(5), at(5))), at(9)), (at(5), at(9)));
    assert_eq!(extend_span(Some((at(5), at(9))), at(1)), (at(1), at(9)));
    assert_eq!(extend_span(Some((at(1), at(9))), at(4)), (at(1), at(9)));
}
