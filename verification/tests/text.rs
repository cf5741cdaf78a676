use openchamber::detect::CompletionDetector;
use openchamber::enhancer::{build_default_group, humanize_identifier, sanitize_identifier};
use openchamber::format::{format_mode, format_model};
use openchamber::json::JsonValue;
use openchamber::payloads::{
    build_prompt_parts, current_directory, notification_text, FilePartPayload,
    NotificationPayload,
};

#[test]
fn mode_formats_title_case() {
    assert_eq!(format_mode("BUILD"), "Build");
    assert_eq!(format_mode("plan"), "Plan");
    assert_eq!(format_mode(""), "Unknown mode");
}

#[test]
fn model_formats_with_dots_and_spaces() {
    assert_eq!(format_model("sonnet-3-5-plus"), "Sonnet 3.5 Plus");
    assert_eq!(format_model("gpt-4"), "Gpt 4");
    assert_eq!(format_model(""), "Unknown model");
    assert_eq!(format_model("---"), "Unknown model");
}

fn obj(pairs: Vec<(&str, JsonValue)>) -> JsonValue {
    JsonValue::Object(
        pairs
            .into_iter()
            .map(|(k, v)| (String::from(k), v))
            .collect(),
    )
}

fn updated_event(id: &str, info: Vec<(&str, JsonValue)>) -> JsonValue {
    obj(vec![
        ("type", JsonValue::Str(String::from("message.updated"))),
        (
            "properties",
            obj(vec![
                ("id", JsonValue::Str(String::from(id))),
                ("info", obj(info)),
            ]),
        ),
    ])
}

#[test]
fn metadata_merge_is_monotonic() {
    let mut det = CompletionDetector::new();
    det.observe(&updated_event(
        "m1",
        vec![("modelID", JsonValue::Str(String::from("gpt-4")))],
    ));
    det.observe(&updated_event(
        "m1",
        vec![("mode", JsonValue::Str(String::from("build")))],
    ));
    let done = obj(vec![
        ("type", JsonValue::Str(String::from("message.updated"))),
        (
            "properties",
            obj(vec![
                ("id", JsonValue::Str(String::from("m1"))),
                ("status", JsonValue::Str(String::from("completed"))),
            ]),
        ),
    ]);
    let outcome = det.observe(&done);
    let notice = outcome.notice.expect("a notification");
    assert_eq!(notice.title, "Build agent is ready");
    assert_eq!(notice.body, "Gpt 4 completed the task");
}

#[test]
fn metadata_survives_completion_before_details() {
    let mut det = CompletionDetector::new();
    let done = obj(vec![
        ("type", JsonValue::Str(String::from("message.updated"))),
        (
            "properties",
            obj(vec![
                ("id", JsonValue::Str(String::from("m9"))),
                ("status", JsonValue::Str(String::from("completed"))),
            ]),
        ),
    ]);
    let outcome = det.observe(&done);
    let notice = outcome.notice.expect("a notification");
    assert_eq!(notice.title, "Unknown mode agent is ready");
    assert_eq!(notice.body, "Unknown model completed the task");
}

#[test]
fn sanitize_normalizes_identifiers() {
    assert_eq!(sanitize_identifier("  Hello World!! "), "hello-world");
    assert_eq!(sanitize_identifier("code-review"), "code-review");
    assert_eq!(sanitize_identifier("__"), "");
    assert_eq!(sanitize_identifier("A__B"), "a-b");
}

#[test]
fn humanize_builds_labels() {
    assert_eq!(humanize_identifier("code-review_helper"), "Code Review Helper");
    assert_eq!(humanize_identifier(""), "Group");
    assert_eq!(humanize_identifier("--_"), "Group");
}

#[test]
fn default_group_is_built_from_the_id() {
    let g = build_default_group(" Output Style ", false);
    assert_eq!(g.id, "output-style");
    assert_eq!(g.label, "Output Style");
    assert_eq!(g.summary_heading, "Output Style");
    assert!(!g.multi_select);
    assert_eq!(g.default_option_id.as_deref(), Some("default"));
    assert_eq!(g.options.len(), 1);
    assert_eq!(g.options[0].id, "default");
    assert_eq!(g.options[0].label, "New option");

    let multi = build_default_group("tags", true);
    assert!(multi.multi_select);
    assert!(multi.default_option_id.is_none());
}

#[test]
fn notification_defaults_fill_missing_fields() {
    let (title, body) = notification_text(&None);
    assert_eq!(title, "OpenCode Agent");
    assert_eq!(body, "Task completed");
    let (title, body) = notification_text(&Some(NotificationPayload {
        title: Some(String::from("Done")),
        body: None,
    }));
    assert_eq!(title, "Done");
    assert_eq!(body, "Task completed");
}

#[test]
fn directory_override_must_not_be_blank() {
    let configured = Some(String::from("/home/base"));
    assert_eq!(
        current_directory(&configured, &Some(String::from("  /other "))).as_deref(),
        Some("/other")
    );
    assert_eq!(
        current_directory(&configured, &Some(String::from("   "))).as_deref(),
        Some("/home/base")
    );
    assert_eq!(current_directory(&None, &None), None);
}

#[test]
fn prompt_parts_cover_text_and_files() {
    let parts = build_prompt_parts(
        &String::from("  review this  "),
        &Some(String::from("coder")),
        vec![FilePartPayload {
            kind: String::from("file"),
            mime: String::from("text/x-rust"),
            filename: Some(String::from("main.rs")),
            url: String::from("data:,x"),
        }],
    );
    assert_eq!(parts.len(), 2);
    assert!(!parts[0].is_file);
    assert_eq!(parts[0].text, "  review this  ");
    assert_eq!(parts[0].mime, "text/plain");
    assert_eq!(parts[0].agent, "coder");
    assert!(parts[1].is_file);
    assert_eq!(parts[1].mime, "text/x-rust");
    assert_eq!(parts[1].filename.as_deref(), Some("main.rs"));

    let blank = build_prompt_parts(&String::from("   "), &None, vec![]);
    assert_eq!(blank.len(), 0);
}

#[test]
fn power_assertion_is_kept_once_held() {
    let mut p = openchamber::power::new(Some(7));
    assert!(p.is_held());
    p.ensure(Some(9));
    assert!(p.is_held());
    let mut q = openchamber::power::new(None);
    assert!(!q.is_held());
    q.ensure(Some(3));
    assert!(q.is_held());
}

#[test]
fn settings_last_directory_must_not_be_blank() {
    let settings = obj(vec![(
        "lastDirectory",
        JsonValue::Str(String::from("  /home/work  ")),
    )]);
    assert_eq!(
        openchamber::payloads::last_directory(&settings).as_deref(),
        Some("/home/work")
    );
    let blank = obj(vec![("lastDirectory", JsonValue::Str(String::from("   ")))]);
    assert!(openchamber::payloads::last_directory(&blank).is_none());
    assert!(openchamber::payloads::last_directory(&JsonValue::Null).is_none());
}
