use git_status::config::{
    config_dir, config_file, config_home, interval_texts, load_config, non_empty_env,
    parse_config as parse_config_with, parse_kv_line, pid_file, plugin_id, state_dir, strip_quotes,
    Config, Location, Mode,
};

/// The values of `interval_seconds` as numbers truncated to whole seconds.
fn readings(text: &str) -> Vec<Option<u64>> {
    interval_texts(text)
        .iter()
        .map(|v| v.parse::<f64>().ok().map(|n| n as u64))
        .collect()
}

fn parse_config(text: &str) -> Config {
    parse_config_with(text, &readings(text))
}

#[test]
fn config_empty_text_yields_documented_defaults() {
    let cfg = parse_config("");
    // agents-panel is the default: it works on a stock host, no patch needed.
    assert_eq!(cfg.mode, Mode::AgentsPanel);
    assert_eq!(cfg.interval_seconds, 5);
    assert!(cfg.clean_checkmark);
}

#[test]
fn config_clean_checkmark_only_accepts_booleans() {
    assert!(!parse_config("clean_checkmark = false").clean_checkmark);
    assert!(parse_config("clean_checkmark = true").clean_checkmark);
    assert!(parse_config("clean_checkmark = \"true\"").clean_checkmark);
    // Unknown value leaves the default (true) untouched.
    assert!(parse_config("clean_checkmark = maybe").clean_checkmark);
}

#[test]
fn config_mode_only_accepts_known_values() {
    assert_eq!(parse_config("mode = sidebar").mode, Mode::Sidebar);
    assert_eq!(parse_config("mode = agents-panel").mode, Mode::AgentsPanel);
    // Unknown value leaves the default untouched.
    assert_eq!(parse_config("mode = bogus").mode, Mode::AgentsPanel);
}

#[test]
fn config_quotes_are_stripped_from_values() {
    assert_eq!(
        parse_config("mode = \"agents-panel\"").mode,
        Mode::AgentsPanel
    );
    assert_eq!(
        parse_config("mode = 'agents-panel'").mode,
        Mode::AgentsPanel
    );
    // Mismatched leading/trailing quotes are stripped independently.
    assert_eq!(
        parse_config("mode = \"agents-panel'").mode,
        Mode::AgentsPanel
    );
}

#[test]
fn config_interval_seconds_gates_on_ge_one() {
    assert_eq!(parse_config("interval_seconds = 12").interval_seconds, 12);
    assert_eq!(parse_config("interval_seconds = \"7\"").interval_seconds, 7);
    // Below 1, zero, non-numeric, and empty-after-quotes keep the default 5.
    assert_eq!(parse_config("interval_seconds = 0").interval_seconds, 5);
    assert_eq!(parse_config("interval_seconds = -3").interval_seconds, 5);
    assert_eq!(parse_config("interval_seconds = fast").interval_seconds, 5);
}

#[test]
fn config_skips_comments_and_malformed_lines() {
    let text = "\
            # mode = sidebar\n\
            not a config line\n\
            mode2 = sidebar\n\
            interval_seconds = 9\n";
    let cfg = parse_config(text);
    // The commented and digit-keyed `sidebar` lines are ignored (mode stays
    // the agents-panel default); the valid line applies.
    assert_eq!(cfg.mode, Mode::AgentsPanel);
    assert_eq!(cfg.interval_seconds, 9);
}

#[test]
fn strip_quotes_matches_expected_semantics() {
    assert_eq!(strip_quotes("\"foo\""), "foo");
    assert_eq!(strip_quotes("'foo'"), "foo");
    assert_eq!(strip_quotes("\"foo"), "foo"); // leading only
    assert_eq!(strip_quotes("foo\""), "foo"); // trailing only
    assert_eq!(strip_quotes("\"foo'"), "foo"); // mismatched
    assert_eq!(strip_quotes("\""), ""); // lone quote collapses to empty
    assert_eq!(strip_quotes("bare"), "bare");
}

#[test]
fn parse_kv_line_rejects_bad_keys_and_empty_values() {
    assert_eq!(parse_kv_line("mode = sidebar"), Some(("mode", "sidebar")));
    assert_eq!(parse_kv_line("  spaced  =  v  "), Some(("spaced", "v")));
    assert_eq!(parse_kv_line("mode2 = x"), None); // digit in key
    assert_eq!(parse_kv_line("a b = x"), None); // space in key
    assert_eq!(parse_kv_line("noeq"), None); // no '='
    assert_eq!(parse_kv_line("mode =   "), None); // empty value
}

#[test]
fn kv_lines_at_the_edges() {
    assert_eq!(parse_kv_line("= x"), None);
    assert_eq!(parse_kv_line("k = a = b"), Some(("k", "a = b")));
    assert_eq!(parse_kv_line("k = \"\""), Some(("k", "")));
    assert_eq!(parse_kv_line("k = v # not a comment"), Some(("k", "v # not a comment")));
    assert_eq!(parse_kv_line("\u{a0}k\t=\u{3000}é "), Some(("k", "é")));
    assert_eq!(parse_kv_line("é = x"), None);
}

#[test]
fn the_last_setting_wins_and_only_known_values_count() {
    let cfg = parse_config("mode = sidebar\nclean_checkmark = false\nmode = agents-panel\n");
    assert_eq!(cfg.mode, Mode::AgentsPanel);
    assert!(!cfg.clean_checkmark);
    let cfg = parse_config("mode = sidebar\nmode = other\nMode = agents-panel");
    assert_eq!(cfg.mode, Mode::Sidebar);
    // An inline comment is part of the value.
    assert_eq!(parse_config("mode = sidebar # x").mode, Mode::AgentsPanel);
    // A carriage return is white space.
    assert_eq!(parse_config("mode = sidebar\r\n").mode, Mode::Sidebar);
}

#[test]
fn intervals_are_truncated_and_the_last_good_one_stays() {
    assert_eq!(parse_config("interval_seconds = 2.9").interval_seconds, 2);
    assert_eq!(parse_config("interval_seconds = 1e3").interval_seconds, 1000);
    assert_eq!(parse_config("interval_seconds = 0.5").interval_seconds, 5);
    assert_eq!(parse_config("interval_seconds = nan").interval_seconds, 5);
    assert_eq!(parse_config("interval_seconds = inf").interval_seconds, u64::MAX);
    let text = "interval_seconds = 3\n# interval_seconds = 4\ninterval_seconds = x\ninterval_seconds = 0";
    assert_eq!(interval_texts(text), ["3", "x", "0"]);
    assert_eq!(parse_config(text).interval_seconds, 3);
    // Missing and surplus readings change nothing.
    assert_eq!(parse_config_with(text, &[]).interval_seconds, 5);
    assert_eq!(
        parse_config_with("mode = sidebar", &[Some(9)]).interval_seconds,
        5
    );
}

#[test]
fn ignored_lines_change_nothing_wherever_they_stand() {
    let settings = ["mode = sidebar", "interval_seconds = 9", "clean_checkmark = false"];
    let expected = parse_config(&settings.join("\n"));
    let ignored = [
        "# mode = agents-panel",
        "no setting",
        "mode = other",
        "",
        "interval_seconds = 0",
        "interval_seconds = soon",
    ];
    for line in ignored {
        for at in 0..=settings.len() {
            let mut lines = settings.to_vec();
            lines.insert(at, line);
            assert_eq!(parse_config(&lines.join("\n")), expected, "{line} at {at}");
        }
        assert_eq!(parse_config(line), Config::default());
    }
}

#[test]
fn a_missing_file_is_the_default_config() {
    assert_eq!(load_config(None, &[]), Config::default());
    assert_eq!(
        load_config(Some("interval_seconds = 8"), &[Some(8)]).interval_seconds,
        8
    );
}

#[test]
fn the_environment_decides_where_things_lie() {
    assert_eq!(non_empty_env(None), None);
    assert_eq!(non_empty_env(Some("")), None);
    assert_eq!(non_empty_env(Some("x")), Some("x"));
    assert_eq!(plugin_id(None), "ez-corp.git-status");
    assert_eq!(plugin_id(Some("")), "ez-corp.git-status");
    assert_eq!(plugin_id(Some("me.mine")), "me.mine");
    assert_eq!(
        state_dir(Some("/s"), Some("id")),
        Location::Given("/s".to_string())
    );
    assert_eq!(state_dir(None, Some("id")), Location::Temp("id".to_string()));
    assert_eq!(
        config_dir(Some(""), None),
        Location::Temp("ez-corp.git-status-config".to_string())
    );
    let pid = pid_file(Some("/s"), None);
    assert_eq!((pid.dir, pid.name.as_str()), (Location::Given("/s".to_string()), "updater.pid"));
    let file = config_file(None, Some("id"));
    assert_eq!(
        (file.dir, file.name.as_str()),
        (Location::Temp("id-config".to_string()), "config.toml")
    );
    assert_eq!(config_home(Some("/x")), Location::Given("/x".to_string()));
    assert_eq!(config_home(None), Location::Home(".config".to_string()));
}
