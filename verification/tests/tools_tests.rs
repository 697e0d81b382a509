use cokacdir::commands::Command;
use cokacdir::commands::argument_after;
use cokacdir::commands::resolve_download_path;
use cokacdir::commands::route_command;
use cokacdir::commands::workspace_name;
use cokacdir::presenter::Accumulator;
use cokacdir::presenter::StreamMessage;
use cokacdir::presenter::final_render;
use cokacdir::presenter::needs_rollover;
use cokacdir::presenter::next_permitted;
use cokacdir::presenter::progress_render;
use cokacdir::presenter::stopped_render;
use cokacdir::term::TermEnv;
use cokacdir::term::supports_true_color;
use cokacdir::tools::allowlist_add;
use cokacdir::tools::allowlist_contains;
use cokacdir::tools::allowlist_remove;
use cokacdir::tools::default_allowed_tools;
use cokacdir::tools::disabled_tools;
use cokacdir::tools::format_tool_input;
use cokacdir::tools::normalize_tool_name;
use cokacdir::tools::risk_badge;
use cokacdir::tools::tool_info;

#[test]
fn tool_name_normalization_is_idempotent() {
    assert_eq!(normalize_tool_name("bash"), "Bash");
    assert_eq!(normalize_tool_name("BASH"), "Bash");
    assert_eq!(normalize_tool_name("Bash"), "Bash");
    let once = normalize_tool_name("webSEARCH");
    assert_eq!(once, "Websearch");
    assert_eq!(normalize_tool_name(&once), once);
    assert_eq!(normalize_tool_name(""), "");
}

#[test]
fn tool_catalog_lookup() {
    assert_eq!(tool_info("Bash"), ("Execute shell commands", true));
    assert_eq!(tool_info("Read").1, false);
    assert_eq!(tool_info("SomethingCustom"), ("Custom tool", false));
    assert_eq!(risk_badge(true), "!!!");
    assert_eq!(risk_badge(false), "");
}

#[test]
fn allowlist_edits() {
    let mut tools = default_allowed_tools();
    assert!(allowlist_contains(&tools, "Bash"));
    assert!(!allowlist_add(&mut tools, "Bash"));
    assert!(allowlist_add(&mut tools, "MyTool"));
    assert!(allowlist_contains(&tools, "MyTool"));
    assert!(allowlist_remove(&mut tools, "Bash"));
    assert!(!allowlist_contains(&tools, "Bash"));
    assert!(!allowlist_remove(&mut tools, "Bash"));
}

#[test]
fn disabled_tools_names_the_missing_defaults() {
    let mut tools = default_allowed_tools();
    allowlist_remove(&mut tools, "Bash");
    let disabled = disabled_tools(&tools);
    assert_eq!(disabled, vec!["Bash".to_string()]);
    let none_disabled = disabled_tools(&default_allowed_tools());
    assert!(none_disabled.is_empty());
}

#[test]
fn tool_input_summaries() {
    assert_eq!(
        format_tool_input("Bash", "{\"command\":\"ls -la\",\"description\":\"List files\"}"),
        "List files: `ls -la`"
    );
    assert_eq!(format_tool_input("Bash", "{\"command\":\"pwd\"}"), "`pwd`");
    assert_eq!(format_tool_input("Read", "{\"file_path\":\"/tmp/a\"}"), "Read /tmp/a");
    assert_eq!(
        format_tool_input("Write", "{\"file_path\":\"/tmp/a\",\"content\":\"x\\ny\"}"),
        "Write /tmp/a (2 lines)"
    );
    assert_eq!(
        format_tool_input("Edit", "{\"file_path\":\"/tmp/a\",\"replace_all\":true}"),
        "Edit /tmp/a (replace all)"
    );
    assert_eq!(
        format_tool_input("Grep", "{\"pattern\":\"fn\",\"path\":\"/src\",\"output_mode\":\"count\"}"),
        "Grep \"fn\" in /src (count)"
    );
    assert_eq!(format_tool_input("Glob", "{\"pattern\":\"*.rs\"}"), "Glob *.rs");
    assert_eq!(format_tool_input("WebSearch", "{\"query\":\"verus\"}"), "Search: verus");
    assert_eq!(format_tool_input("Skill", "{\"skill\":\"review\"}"), "Skill: review");
    assert_eq!(
        format_tool_input("Task", "{\"description\":\"scan\",\"subagent_type\":\"explore\"}"),
        "Task [explore]: scan"
    );
    // Unknown tool or unparsable input falls back to the raw form.
    assert_eq!(format_tool_input("Custom", "{\"a\":1}"), "Custom {\"a\":1}");
    assert_eq!(format_tool_input("Bash", "not json"), "Bash not json");
}

#[test]
fn command_routing() {
    assert_eq!(route_command("/help"), Command::Help);
    assert_eq!(route_command("/start /tmp"), Command::Start);
    assert_eq!(route_command("/clear"), Command::Clear);
    assert_eq!(route_command("/pwd"), Command::Pwd);
    assert_eq!(route_command("/down a.txt"), Command::Down);
    assert_eq!(route_command("/availabletools"), Command::AvailableTools);
    assert_eq!(route_command("/allowedtools"), Command::AllowedTools);
    assert_eq!(route_command("/allowed +Bash"), Command::Allowed);
    assert_eq!(route_command("!ls"), Command::Shell);
    assert_eq!(route_command("hello there"), Command::Chat);
}

#[test]
fn command_arguments_are_trimmed() {
    assert_eq!(argument_after("/down  /tmp/x ", 5), "/tmp/x");
    assert_eq!(argument_after("/start", 6), "");
    assert_eq!(argument_after("!ls -la", 1), "ls -la");
}

#[test]
fn download_paths_resolve_against_the_session() {
    assert_eq!(resolve_download_path("/abs/f.txt", Some("/base")), Some("/abs/f.txt".to_string()));
    assert_eq!(resolve_download_path("f.txt", Some("/base/")), Some("/base/f.txt".to_string()));
    assert_eq!(resolve_download_path("f.txt", Some("/base")), Some("/base/f.txt".to_string()));
    assert_eq!(resolve_download_path("f.txt", None), None);
}

#[test]
fn workspace_names_are_short_lowercase() {
    let a = workspace_name();
    assert_eq!(a.len(), 8);
    assert!(a.bytes().all(|c| c.is_ascii_lowercase() || c.is_ascii_digit()));
}

#[test]
fn true_color_detection_is_deterministic() {
    let env = TermEnv {
        term_program: Some("Apple_Terminal".to_string()),
        iterm_session: false,
        lc_terminal: None,
        wt_session: false,
        colorterm: Some("truecolor".to_string()),
    };
    assert!(!supports_true_color(&env));
    assert_eq!(supports_true_color(&env), supports_true_color(&env));
    let env2 = TermEnv {
        term_program: None,
        iterm_session: false,
        lc_terminal: None,
        wt_session: false,
        colorterm: Some("truecolor".to_string()),
    };
    assert!(supports_true_color(&env2));
    let env3 = TermEnv {
        term_program: None,
        iterm_session: false,
        lc_terminal: None,
        wt_session: false,
        colorterm: None,
    };
    assert!(!supports_true_color(&env3));
    let env4 = TermEnv {
        term_program: Some("WezTerm".to_string()),
        iterm_session: false,
        lc_terminal: None,
        wt_session: false,
        colorterm: None,
    };
    assert!(supports_true_color(&env4));
}

#[test]
fn presenter_accumulates_and_finalizes() {
    let mut acc = Accumulator::new();
    acc.apply_message(StreamMessage::Init { session_id: "sid-9".to_string() });
    acc.apply_message(StreamMessage::Text { content: "Hello".to_string() });
    acc.apply_message(StreamMessage::Text { content: " world".to_string() });
    assert_eq!(acc.full_response, "Hello world");
    assert_eq!(acc.new_session_id.as_deref(), Some("sid-9"));
    assert!(!acc.done);
    acc.apply_message(
        StreamMessage::Done { result: "ignored".to_string(), session_id: Some("sid-10".to_string()) },
    );
    assert!(acc.done);
    assert_eq!(acc.full_response, "Hello world");
    assert_eq!(acc.new_session_id.as_deref(), Some("sid-10"));
    assert_eq!(final_render(&acc), "Hello world");
}

#[test]
fn presenter_uses_done_result_when_nothing_streamed() {
    let mut acc = Accumulator::new();
    acc.apply_message(StreamMessage::Done { result: "answer".to_string(), session_id: None });
    assert_eq!(acc.full_response, "answer");
    let mut empty = Accumulator::new();
    empty.apply_message(StreamMessage::Done { result: "".to_string(), session_id: None });
    assert_eq!(final_render(&empty), "(No response)");
}

#[test]
fn presenter_error_replaces_response() {
    let mut acc = Accumulator::new();
    acc.apply_message(StreamMessage::Text { content: "partial".to_string() });
    acc.apply_message(StreamMessage::Error { message: "boom".to_string() });
    assert!(acc.done);
    assert_eq!(acc.full_response, "Error: boom");
}

#[test]
fn stopped_render_appends_marker() {
    let mut acc = Accumulator::new();
    acc.apply_message(StreamMessage::Init { session_id: "s".to_string() });
    acc.apply_message(StreamMessage::Text { content: "alpha".to_string() });
    assert_eq!(stopped_render(&acc), "alpha\n\n[Stopped]");
    let empty = Accumulator::new();
    assert_eq!(stopped_render(&empty), "[Stopped]");
}

#[test]
fn progress_render_shows_spinner() {
    let acc = Accumulator::new();
    let r = progress_render(&acc, 0, 2000);
    assert!(r.ends_with(" Processing..."));
    let mut acc2 = Accumulator::new();
    acc2.apply_message(StreamMessage::Text { content: "body".to_string() });
    let r2 = progress_render(&acc2, 3, 2000);
    assert!(r2.starts_with("body\n\n"));
}

#[test]
fn tool_use_decorates_the_stream() {
    let mut acc = Accumulator::new();
    acc.apply_message(StreamMessage::ToolUse { summary: "Read /tmp/a".to_string() });
    assert_eq!(acc.full_response, "\n\n\u{2699}\u{fe0f} Read /tmp/a\n");
    let mut acc2 = Accumulator::new();
    acc2.apply_message(
        StreamMessage::ToolResult { content: "ok".to_string(), is_error: false },
    );
    assert_eq!(acc2.full_response, "\n\u{2705} `ok`\n\n");
}

#[test]
fn rollover_and_rate_limit_rules() {
    assert!(needs_rollover(1951, 101, 2000));
    assert!(!needs_rollover(1951, 100, 2000));
    assert!(!needs_rollover(1950, 500, 2000));
    assert_eq!(next_permitted(1000, 1500, 1000), 2000);
    assert_eq!(next_permitted(1000, 2500, 1000), 2500);
    assert_eq!(next_permitted(u64::MAX - 1, 5, 1000), u64::MAX);
}
