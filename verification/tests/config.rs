use openchamber::enhancer::{
    build_default_group, ensure_group_integrity, sanitize_config, sanitize_option,
    PromptEnhancerConfig, PromptEnhancerGroup, PromptEnhancerOption,
};
use openchamber::json::JsonValue;

fn obj(pairs: Vec<(&str, JsonValue)>) -> JsonValue {
    JsonValue::Object(
        pairs
            .into_iter()
            .map(|(k, v)| (String::from(k), v))
            .collect(),
    )
}

fn s(text: &str) -> JsonValue {
    JsonValue::Str(String::from(text))
}

fn base_group() -> PromptEnhancerGroup {
    build_default_group("tone", false)
}

fn base_config() -> PromptEnhancerConfig {
    PromptEnhancerConfig {
        version: 1,
        group_order: vec![String::from("tone")],
        groups: vec![(String::from("tone"), base_group())],
    }
}

#[test]
fn option_fields_are_trimmed_and_defaulted() {
    let raw = obj(vec![
        ("id", s(" Fancy Tone ")),
        ("label", s("  ")),
        ("instruction", s("  be fancy  ")),
    ]);
    let o = sanitize_option(&raw).expect("a usable option");
    assert_eq!(o.id, "fancy-tone");
    assert_eq!(o.label, "New option");
    assert_eq!(o.summary_label, "New option");
    assert_eq!(o.instruction, "be fancy");
    assert!(o.description.is_none());
}

#[test]
fn option_without_instruction_is_dropped() {
    let raw = obj(vec![("id", s("ok")), ("instruction", s("   "))]);
    assert!(sanitize_option(&raw).is_none());
    let unusable_id = obj(vec![("id", s("!!!")), ("instruction", s("x"))]);
    assert!(sanitize_option(&unusable_id).is_none());
    assert!(sanitize_option(&s("not an object")).is_none());
}

#[test]
fn group_repair_merges_custom_options() {
    let fallback = base_group();
    let raw = obj(vec![
        ("label", s("  Tone of voice ")),
        (
            "options",
            JsonValue::Array(vec![
                obj(vec![
                    ("id", s("default")),
                    ("label", s("Softer")),
                    ("instruction", s("soften it")),
                ]),
                obj(vec![
                    ("id", s("formal")),
                    ("instruction", s("be formal")),
                ]),
            ]),
        ),
        ("defaultOptionId", s("formal")),
    ]);
    let g = ensure_group_integrity(&raw, &fallback);
    assert_eq!(g.id, "tone");
    assert_eq!(g.label, "Tone of voice");
    assert_eq!(g.options.len(), 2);
    assert_eq!(g.options[0].id, "default");
    assert_eq!(g.options[0].label, "Softer");
    assert_eq!(g.options[1].id, "formal");
    assert_eq!(g.default_option_id.as_deref(), Some("formal"));
}

#[test]
fn group_repair_multi_select_drops_default() {
    let fallback = base_group();
    let raw = obj(vec![("multiSelect", JsonValue::Bool(true))]);
    let g = ensure_group_integrity(&raw, &fallback);
    assert!(g.multi_select);
    assert!(g.default_option_id.is_none());
    assert_eq!(g.options.len(), 1);
    assert_eq!(g.options[0].id, "default");
}

#[test]
fn group_repair_rejects_unknown_default_id() {
    let fallback = base_group();
    let raw = obj(vec![("defaultOptionId", s("missing"))]);
    let g = ensure_group_integrity(&raw, &fallback);
    assert_eq!(g.default_option_id.as_deref(), Some("default"));
}

#[test]
fn config_orders_expected_then_custom_groups() {
    let defaults = base_config();
    let raw = obj(vec![
        (
            "groupOrder",
            JsonValue::Array(vec![s("Extra Group"), s("extra-group"), s("")]),
        ),
        (
            "groups",
            obj(vec![
                (
                    "extra group",
                    obj(vec![
                        (
                            "options",
                            JsonValue::Array(vec![obj(vec![
                                ("id", s("one")),
                                ("instruction", s("do one")),
                            ])]),
                        ),
                    ]),
                ),
                ("???", s("dropped")),
            ]),
        ),
        ("version", JsonValue::Number(String::from("3"))),
    ]);
    let cfg = sanitize_config(&raw, &defaults);
    assert_eq!(cfg.version, 3);
    assert_eq!(cfg.group_order, vec!["extra-group", "tone"]);
    assert_eq!(cfg.groups.len(), 2);
    assert_eq!(cfg.groups[0].0, "extra-group");
    let extra = &cfg.groups[0].1;
    assert_eq!(extra.id, "extra-group");
    assert_eq!(extra.label, "Extra Group");
    assert_eq!(extra.options.len(), 2);
    assert_eq!(extra.options[0].id, "default");
    assert_eq!(extra.options[1].id, "one");
    assert_eq!(cfg.groups[1].0, "tone");
}

#[test]
fn config_falls_back_on_bad_version() {
    let defaults = base_config();
    let raw = obj(vec![("version", JsonValue::Number(String::from("2.5")))]);
    let cfg = sanitize_config(&raw, &defaults);
    assert_eq!(cfg.version, 1);
    let empty = sanitize_config(&JsonValue::Null, &defaults);
    assert_eq!(empty.version, 1);
    assert_eq!(empty.group_order, vec!["tone"]);
}

#[test]
fn option_keeps_given_labels() {
    let raw = obj(vec![
        ("id", s("brief")),
        ("label", s(" Brief ")),
        ("summaryLabel", s("Short")),
        ("description", s(" say less ")),
        ("instruction", s("keep it short")),
    ]);
    let o: PromptEnhancerOption = sanitize_option(&raw).expect("a usable option");
    assert_eq!(o.label, "Brief");
    assert_eq!(o.summary_label, "Short");
    assert_eq!(o.description.as_deref(), Some("say less"));
}
