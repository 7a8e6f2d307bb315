use sqlmerge::config::{pattern_matches, policy_from_word, ConfigError, Section, SectionEntry};
use sqlmerge::{ConflictPolicy, PolicyConfig};

#[test]
fn patterns_match_whole_names() {
    assert!(pattern_matches("users", "users"));
    assert!(!pattern_matches("users", "user"));
    assert!(!pattern_matches("users", "users2"));
    assert!(!pattern_matches("users", "Users"));
    assert!(pattern_matches("cache_*", "cache_hot"));
    assert!(pattern_matches("cache_*", "cache_"));
    assert!(!pattern_matches("cache_*", "cache"));
    assert!(pattern_matches("*", ""));
    assert!(pattern_matches("*", "anything"));
    assert!(pattern_matches("a*b*c", "a__b__b__c"));
    assert!(!pattern_matches("a*b*c", "a__c__b"));
    assert!(pattern_matches("", ""));
    assert!(!pattern_matches("", "a"));
    assert!(pattern_matches("*_log", "app_log"));
    assert!(!pattern_matches("*_log", "app_logs"));
}

#[test]
fn words_name_policies() {
    assert_eq!(policy_from_word("abort"), Some(ConflictPolicy::Abort));
    assert_eq!(policy_from_word("ours"), Some(ConflictPolicy::Ours));
    assert_eq!(policy_from_word("theirs"), Some(ConflictPolicy::Theirs));
    assert_eq!(policy_from_word("append-only"), Some(ConflictPolicy::AppendOnly));
    assert_eq!(policy_from_word("Ours"), None);
    assert_eq!(policy_from_word(""), None);
}

#[test]
fn first_matching_rule_decides() {
    let config = PolicyConfig::load_body(
        "[policies]\n\"cache_*\" = \"theirs\"\ncache_hot = \"ours\"\nlog = \"append-only\"\n",
    )
    .expect("valid body");
    assert_eq!(config.policy_for("cache_hot"), ConflictPolicy::Theirs);
    assert_eq!(config.policy_for("log"), ConflictPolicy::AppendOnly);
    assert_eq!(config.policy_for("users"), ConflictPolicy::Abort);
    // Rules keep the order of the file.
    let config = PolicyConfig::load_body("[policies]\n\"z*\" = \"ours\"\n\"*\" = \"theirs\"\n")
        .expect("valid body");
    assert_eq!(config.policy_for("zoo"), ConflictPolicy::Ours);
    assert_eq!(config.policy_for("ant"), ConflictPolicy::Theirs);
}

#[test]
fn tables_without_a_rule_abort() {
    assert_eq!(PolicyConfig::abort_all().policy_for("users"), ConflictPolicy::Abort);
    assert_eq!(ConflictPolicy::default(), ConflictPolicy::Abort);
}

#[test]
fn body_without_policies_aborts_everything() {
    for body in ["", "# nothing yet\n", "[policies]\n"] {
        let config = PolicyConfig::load_body(body).expect("valid body");
        assert!(config.rules.is_empty());
        assert_eq!(config.policy_for("users"), ConflictPolicy::Abort);
    }
}

#[test]
fn unknown_policy_is_refused() {
    let body = "[policies]\na = \"ours\"\nb = \"mine\"\nc = \"yours\"\n";
    let Err(error) = PolicyConfig::load_body(body) else {
        panic!("expected a refusal");
    };
    assert!(matches!(error, ConfigError::UnknownPolicy { .. }));
    assert_eq!(
        error.display(),
        "sqlmerge.toml: unknown policy `mine` for `b`; use abort, ours, theirs or append-only",
    );
}

#[test]
fn malformed_body_is_refused() {
    for body in ["[policies", "users = ", "[policies]\na = \"ours\"\na = \"theirs\"\n"] {
        let Err(ConfigError::Malformed(message)) = PolicyConfig::load_body(body) else {
            panic!("expected Malformed");
        };
        assert!(!message.is_empty());
        assert_eq!(
            ConfigError::Malformed(message.clone()).display(),
            format!("malformed sqlmerge.toml: {message}"),
        );
    }
}

#[test]
fn misplaced_keys_and_values_are_refused() {
    for (body, message) in [
        ("users = \"ours\"\n", "sqlmerge.toml: unknown key `users`"),
        ("[policy]\nusers = \"ours\"\n", "sqlmerge.toml: unknown key `policy`"),
        ("policies = \"ours\"\n", "sqlmerge.toml: `policies` is not a table"),
        ("[policies]\nusers = 1\n", "sqlmerge.toml: the policy for `users` is not a string"),
        (
            "[policies.users]\non = \"ours\"\n",
            "sqlmerge.toml: the policy for `users` is not a string",
        ),
    ] {
        let Err(error) = PolicyConfig::load_body(body) else {
            panic!("expected a refusal of {body:?}");
        };
        assert_eq!(error.display(), message);
    }
}

#[test]
fn sections_are_read_in_order() {
    let entry = |key: &str, text: Option<&str>| SectionEntry {
        key: key.to_string(),
        text: text.map(str::to_string),
    };
    let sections = vec![Section {
        key: "policies".to_string(),
        entries: Some(vec![entry("a", Some("ours")), entry("b", Some("theirs"))]),
    }];
    let config = PolicyConfig::from_sections(&sections).expect("valid sections");
    assert_eq!(config.rules.len(), 2);
    assert_eq!(config.rules[0].pattern, "a");
    assert_eq!(config.rules[1].policy, ConflictPolicy::Theirs);

    // The first thing that does not belong there is the one that is named.
    let sections = vec![
        Section {
            key: "policies".to_string(),
            entries: Some(vec![entry("a", None), entry("b", Some("mine"))]),
        },
        Section {
            key: "other".to_string(),
            entries: None,
        },
    ];
    assert!(matches!(
        PolicyConfig::from_sections(&sections),
        Err(ConfigError::PolicyNotAString(pattern)) if pattern == "a",
    ));
}
