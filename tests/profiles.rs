use git_profiles_cli::{
    compare_labels, confirms_overwrite, get_outcome, is_yes, plan_switch, set_outcome, Config,
    Profile, SwitchPlan,
};

fn profile(name: &str, email: &str) -> Profile {
    Profile { name: name.to_string(), email: email.to_string() }
}

fn labels_of(config: &Config) -> Vec<String> {
    config.list().into_iter().map(|(label, _)| label).collect()
}

#[test]
fn test_add_profile() {
    let mut config = Config::default();
    let profile = Profile { name: "Test User".to_string(), email: "test@example.com".to_string() };
    config.insert("test".to_string(), profile.clone());

    assert_eq!(config.len(), 1);
    assert_eq!(config.get("test").unwrap(), &profile);
}

#[test]
fn test_remove_profile() {
    let mut config = Config::default();
    config.insert(
        "test".to_string(),
        Profile { name: "Test User".to_string(), email: "test@example.com".to_string() },
    );

    let removed = config.remove("test");
    assert!(removed.is_some());
    assert!(config.get("test").is_none());
}

#[test]
fn test_list_profiles() {
    let mut config = Config::default();
    config.insert(
        "test".to_string(),
        Profile { name: "Test User".to_string(), email: "test@example.com".to_string() },
    );

    let profiles = config.list();

    assert_eq!(profiles.len(), 1);
    assert_eq!(profiles[0].0, "test");
}

#[test]
fn add_then_list_gives_the_profile() {
    let mut config = Config::new();
    let previous = config.add("work".to_string(), "Jane".to_string(), "jane@co.com".to_string());
    assert!(previous.is_none());
    let listing = config.list();
    assert_eq!(listing.len(), 1);
    assert_eq!(listing[0].0, "work");
    assert_eq!(listing[0].1, profile("Jane", "jane@co.com"));
}

#[test]
fn add_twice_overwrites_and_returns_the_old_profile() {
    let mut config = Config::new();
    config.add("work".to_string(), "Jane".to_string(), "jane@co.com".to_string());
    let previous = config.add("work".to_string(), "Janet".to_string(), "janet@co.com".to_string());
    assert_eq!(previous, Some(profile("Jane", "jane@co.com")));
    assert_eq!(config.len(), 1);
    assert_eq!(config.get("work"), Some(&profile("Janet", "janet@co.com")));
    assert!(config.contains_key("work"));
}

#[test]
fn remove_absent_profile_changes_nothing() {
    let mut config = Config::new();
    config.add("home".to_string(), "Jo".to_string(), "jo@home.org".to_string());
    assert_eq!(config.remove("work"), None);
    assert_eq!(config.len(), 1);
    assert_eq!(config.get("home"), Some(&profile("Jo", "jo@home.org")));
    assert_eq!(config.remove("home"), Some(profile("Jo", "jo@home.org")));
    assert!(config.is_empty());
    assert!(!config.contains_key("home"));
}

#[test]
fn listing_is_sorted_whatever_the_insertion_order() {
    let mut first = Config::new();
    for label in ["gamma", "alpha", "beta"] {
        first.insert(label.to_string(), profile(label, "x@y.z"));
    }
    let mut second = Config::new();
    for label in ["beta", "gamma", "alpha"] {
        second.insert(label.to_string(), profile(label, "x@y.z"));
    }
    assert_eq!(labels_of(&first), vec!["alpha", "beta", "gamma"]);
    assert_eq!(first.list(), second.list());
    assert_eq!(first.labels(), vec!["alpha", "beta", "gamma"]);
}

#[test]
fn listing_puts_prefixes_first_and_orders_by_code_point() {
    let mut config = Config::new();
    for label in ["b", "abc", "ab", "B", "é", "a"] {
        config.insert(label.to_string(), profile("n", "e"));
    }
    assert_eq!(labels_of(&config), vec!["B", "a", "ab", "abc", "b", "é"]);
}

#[test]
fn compare_labels_agrees_with_str_order() {
    let words = ["", "a", "ab", "abc", "b", "B", "zz", "é", "e\u{301}", "work", "home"];
    for a in words {
        for b in words {
            assert_eq!(compare_labels(a, b), a.cmp(b), "{} vs {}", a, b);
        }
    }
}

#[test]
fn switch_to_known_profile_sets_name_then_email() {
    let mut config = Config::new();
    config.add("work".to_string(), "Jane".to_string(), "jane@co.com".to_string());
    match plan_switch(&config, "work") {
        SwitchPlan::Apply(settings) => {
            assert_eq!(settings.len(), 2);
            assert_eq!(settings[0].key, "user.name");
            assert_eq!(settings[0].value, "Jane");
            assert_eq!(settings[1].key, "user.email");
            assert_eq!(settings[1].value, "jane@co.com");
        }
        SwitchPlan::Unknown(_) => panic!("the profile is known"),
    }
}

#[test]
fn switch_to_unknown_profile_writes_nothing_and_lists_labels() {
    let mut config = Config::new();
    config.add("work".to_string(), "Jane".to_string(), "jane@co.com".to_string());
    config.add("home".to_string(), "Jane".to_string(), "jane@home.org".to_string());
    match plan_switch(&config, "school") {
        SwitchPlan::Apply(_) => panic!("the profile is unknown"),
        SwitchPlan::Unknown(labels) => assert_eq!(labels, vec!["home", "work"]),
    }
    match plan_switch(&Config::new(), "work") {
        SwitchPlan::Apply(_) => panic!("the store is empty"),
        SwitchPlan::Unknown(labels) => assert!(labels.is_empty()),
    }
}

#[test]
fn find_label_reports_the_first_matching_profile() {
    let mut config = Config::new();
    config.add("work".to_string(), "Jane".to_string(), "jane@co.com".to_string());
    config.add("office".to_string(), "Jane".to_string(), "jane@co.com".to_string());
    config.add("home".to_string(), "Jane".to_string(), "jane@home.org".to_string());
    assert_eq!(config.find_label("Jane", "jane@co.com"), Some("office".to_string()));
    assert_eq!(config.find_label("Jane", "jane@home.org"), Some("home".to_string()));
    assert_eq!(config.find_label("Jane", "other@co.com"), None);
    assert_eq!(config.find_label("Not set", "Not set"), None);
}

#[test]
fn get_outcome_trims_output_or_reports_not_set() {
    assert_eq!(get_outcome(true, "  Jane Doe \n"), "Jane Doe");
    assert_eq!(get_outcome(true, "jane@co.com"), "jane@co.com");
    assert_eq!(get_outcome(true, ""), "");
    assert_eq!(get_outcome(false, "Jane\n"), "Not set");
}

#[test]
fn set_outcome_reports_key_and_error_output() {
    assert_eq!(set_outcome("user.name", true, ""), Ok(()));
    assert_eq!(
        set_outcome("user.name", false, "error: could not lock config file\n"),
        Err("Failed to set user.name: error: could not lock config file\n".to_string())
    );
    assert_eq!(set_outcome("user.email", false, ""), Err("Failed to set user.email: ".to_string()));
}

#[test]
fn overwrite_prompt_accepts_only_y() {
    assert!(confirms_overwrite("y\n"));
    assert!(confirms_overwrite("  Y  "));
    assert!(!confirms_overwrite("yes\n"));
    assert!(!confirms_overwrite("n\n"));
    assert!(!confirms_overwrite("\n"));
    assert!(!confirms_overwrite(""));
    assert!(is_yes("y"));
    assert!(!is_yes(" y"));
}

#[test]
fn profiles_compare_by_name_and_email() {
    assert_eq!(profile("Jane", "jane@co.com"), profile("Jane", "jane@co.com"));
    assert_ne!(profile("Jane", "jane@co.com"), profile("Jane", "jane@home.org"));
    assert_ne!(profile("Jane", "jane@co.com"), profile("Janet", "jane@co.com"));
    assert_eq!(Profile::new("A".to_string(), "a@b".to_string()), profile("A", "a@b"));
    assert_eq!(profile("A", "a@b").copied(), profile("A", "a@b"));
}
