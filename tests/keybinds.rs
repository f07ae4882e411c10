use keybinds::editor::{has_duplicate, index_from_id, release_mode_of};
use keybinds::fold::field_is_unset;
use keybinds::{
    default_file_text, help_text, parse_command, update_binds, Command, CommandError, Config,
    EditError, Keybind, TriggerMode,
};

fn load(text: &str) -> Config {
    match Config::parse(text) {
        Ok(c) => c,
        Err(e) => panic!("line {} did not parse: {}", e.line_number, e.line),
    }
}

fn bind(keys: &str, mode: TriggerMode, action: &str) -> Keybind {
    Keybind { keys: keys.to_string(), mode, action: action.to_string() }
}

#[test]
fn new_file_lists_nothing() {
    let c = load(&default_file_text());
    assert_eq!(c.len(), 0);
    assert!(c.list().is_empty());
    assert_eq!(c.to_text(), "# Keybinds\n");
}

#[test]
fn new_bind_appends_line() {
    let mut c = load("# Keybinds\n");
    assert_eq!(c.new_bind("$mod+1", "exec firefox", None), Ok(()));
    assert_eq!(c.to_text(), "# Keybinds\nbindsym $mod+1 exec exec firefox\n");
    let entries = c.list();
    assert_eq!(entries.len(), 1);
    assert_eq!(entries[0].index, 1);
    assert_eq!(entries[0].keys, "$mod+1");
    assert_eq!(entries[0].mode, TriggerMode::Press);
    assert_eq!(entries[0].action, "exec firefox");
}

#[test]
fn repeated_new_is_duplicate() {
    let mut c = load("# Keybinds\n");
    assert_eq!(c.new_bind("$mod+1", "exec firefox", None), Ok(()));
    let before = c.to_text();
    assert_eq!(c.new_bind("$mod+1", "exec firefox", None), Err(EditError::DuplicateBind));
    assert_eq!(c.to_text(), before);
    assert_eq!(c.len(), 1);
}

#[test]
fn duplicate_ignores_case_of_keys() {
    let mut c = load("bindsym $Mod+Return exec foot\n");
    assert_eq!(c.new_bind("$mod+return", "exec other", None), Err(EditError::DuplicateBind));
    assert_eq!(c.new_bind("$MOD+RETURN", "exec other", Some("yes")), Ok(()));
    assert_eq!(c.len(), 2);
    assert_eq!(c.get(1).mode, TriggerMode::Release);
}

#[test]
fn edit_changes_action_only() {
    let mut c = load("# Keybinds\nbindsym $mod+1 exec firefox\n");
    assert_eq!(c.edit_bind("1", "n/a", "exec chromium", "n/a"), Ok(()));
    assert_eq!(c.get(0).keys, "$mod+1");
    assert_eq!(c.get(0).mode, TriggerMode::Press);
    assert_eq!(c.get(0).action, "exec chromium");
    assert_eq!(c.to_text(), "# Keybinds\nbindsym $mod+1 exec exec chromium\n");
}

#[test]
fn edit_out_of_range_changes_nothing() {
    let text = "# Keybinds\nbindsym $mod+1 exec firefox\n";
    let mut c = load(text);
    assert_eq!(c.edit_bind("5", "n/a", "n/a", "n/a"), Err(EditError::IndexOutOfRange));
    assert_eq!(c.to_text(), text);
}

#[test]
fn edit_bounds_zero_and_past_end() {
    let text = "bindsym a exec x\nbindsym b exec y\n";
    let mut c = load(text);
    assert_eq!(c.edit_bind("0", "z", "n/a", "n/a"), Err(EditError::IndexOutOfRange));
    assert_eq!(c.edit_bind("3", "z", "n/a", "n/a"), Err(EditError::IndexOutOfRange));
    assert_eq!(c.edit_bind("-1", "z", "n/a", "n/a"), Err(EditError::IndexOutOfRange));
    assert_eq!(c.edit_bind("99999999999999999999999", "z", "n/a", "n/a"), Err(EditError::IndexOutOfRange));
    assert_eq!(c.edit_bind("one", "z", "n/a", "n/a"), Err(EditError::InvalidId));
    assert_eq!(c.edit_bind("", "z", "n/a", "n/a"), Err(EditError::InvalidId));
    assert_eq!(c.edit_bind("+", "z", "n/a", "n/a"), Err(EditError::InvalidId));
    assert_eq!(c.to_text(), text);
    assert_eq!(c.edit_bind("+2", "z", "n/a", "n/a"), Ok(()));
    assert_eq!(c.get(1).keys, "z");
}

#[test]
fn edit_all_unset_is_identity() {
    let text = "bindsym --release $mod+q exec kill\n";
    let mut c = load(text);
    assert_eq!(c.edit_bind("1", "n/a", "N/A", "n/A"), Ok(()));
    assert_eq!(c.to_text(), text);
}

#[test]
fn edit_release_field() {
    let mut c = load("bindsym a exec x\nbindsym --release b exec y\n");
    assert_eq!(c.edit_bind("1", "n/a", "n/a", "true"), Ok(()));
    assert_eq!(c.get(0).mode, TriggerMode::Release);
    assert_eq!(c.edit_bind("2", "n/a", "n/a", "yes"), Ok(()));
    assert_eq!(c.get(1).mode, TriggerMode::Press);
    assert_eq!(c.edit_bind("1", "n/a", "n/a", "TRUE"), Ok(()));
    assert_eq!(c.get(0).mode, TriggerMode::Press);
    assert_eq!(c.to_text(), "bindsym a exec x\nbindsym b exec y\n");
}

#[test]
fn new_rejects_bad_keys() {
    let mut c = load("# Keybinds\n");
    assert_eq!(c.new_bind("", "exec x", None), Err(EditError::InvalidKey));
    assert_eq!(c.new_bind("+mod", "exec x", None), Err(EditError::InvalidKey));
    assert_eq!(c.len(), 0);
    assert_eq!(c.to_text(), "# Keybinds\n");
}

#[test]
fn release_flag_of_new() {
    assert_eq!(release_mode_of(None), TriggerMode::Press);
    assert_eq!(release_mode_of(Some("pressed")), TriggerMode::Press);
    assert_eq!(release_mode_of(Some("PRESSED")), TriggerMode::Press);
    assert_eq!(release_mode_of(Some("False")), TriggerMode::Press);
    assert_eq!(release_mode_of(Some("true")), TriggerMode::Release);
    assert_eq!(release_mode_of(Some("released")), TriggerMode::Release);
}

#[test]
fn same_keys_other_mode_is_allowed() {
    let mut c = load("bindsym a exec x\n");
    assert_eq!(c.new_bind("A", "exec y", Some("release")), Ok(()));
    assert_eq!(c.to_text(), "bindsym a exec x\nbindsym --release A exec exec y\n");
}

#[test]
fn parse_reads_fields() {
    let c = load("# head\nBindSym --release $mod+Shift+e exec swaynag -t warning\n\nset $mod Mod4\n");
    assert_eq!(c.len(), 1);
    assert_eq!(c.get(0).keys, "$mod+Shift+e");
    assert_eq!(c.get(0).mode, TriggerMode::Release);
    assert_eq!(c.get(0).action, "swaynag -t warning");
}

#[test]
fn passthrough_lines_survive_rewrite() {
    let text = "# Keybinds\n\nbindsym a exec x\n# note\nbindsym b exec y\nset $mod Mod4\n";
    let mut c = load(text);
    assert_eq!(c.to_text(), text);
    assert_eq!(c.new_bind("c", "z", None), Ok(()));
    assert_eq!(c.to_text(), format!("{}bindsym c exec z\n", text));
}

#[test]
fn text_without_final_break_gains_one() {
    let c = load("# Keybinds\nbindsym a exec x");
    assert_eq!(c.len(), 1);
    assert_eq!(c.to_text(), "# Keybinds\nbindsym a exec x\n");
    assert_eq!(load("").to_text(), "");
}

#[test]
fn malformed_bind_line_fails_load() {
    match Config::parse("# Keybinds\nbindsym a exec x\nbindsym broken\nbindsym b exec y\n") {
        Ok(_) => panic!("expected an error"),
        Err(e) => {
            assert_eq!(e.line_number, 3);
            assert_eq!(e.line, "bindsym broken");
        },
    }
    assert!(Config::parse("bindsymx a exec y\n").is_err());
    assert!(Config::parse("bindsym  a exec y\n").is_err());
    assert!(Config::parse("bindsym a exec\n").is_err());
}

#[test]
fn release_token_as_keys() {
    let c = load("bindsym --release exec x\n");
    assert_eq!(c.get(0).keys, "--release");
    assert_eq!(c.get(0).mode, TriggerMode::Press);
    assert_eq!(c.get(0).action, "x");
    let d = load("bindsym --releasefoo exec x\n");
    assert_eq!(d.get(0).keys, "--releasefoo");
    assert_eq!(d.get(0).mode, TriggerMode::Press);
}

#[test]
fn round_trip_is_byte_identical() {
    let mut c = load("# Keybinds\n");
    assert_eq!(c.new_bind("$mod+1", "exec firefox", None), Ok(()));
    assert_eq!(c.new_bind("$mod+2", "exec foot --hold", Some("release")), Ok(()));
    let first = c.to_text();
    let again = load(&first);
    assert_eq!(again.to_text(), first);
    assert_eq!(again.len(), 2);
}

#[test]
fn update_binds_renders_records() {
    let out = update_binds(vec![
        bind("$mod+1", TriggerMode::Press, "exec firefox"),
        bind("$mod+2", TriggerMode::Release, "exec foot"),
    ]);
    assert_eq!(out, "bindsym $mod+1 exec exec firefox\nbindsym --release $mod+2 exec exec foot\n");
    assert_eq!(update_binds(Vec::new()), "");
    assert_eq!(bind("k", TriggerMode::Release, "a b").to_line(), "bindsym --release k exec a b");
}

#[test]
fn unset_word_in_any_case() {
    assert!(field_is_unset("n/a"));
    assert!(field_is_unset("N/A"));
    assert!(!field_is_unset("na"));
    assert!(!field_is_unset(""));
}

#[test]
fn duplicate_check_folds_case() {
    let binds = vec![bind("Ctrl+A", TriggerMode::Press, "x")];
    assert!(has_duplicate(&binds, "ctrl+a", TriggerMode::Press));
    assert!(!has_duplicate(&binds, "ctrl+a", TriggerMode::Release));
    assert!(!has_duplicate(&binds, "ctrl+b", TriggerMode::Press));
}

#[test]
fn id_reading() {
    assert_eq!(index_from_id("1", 3), Ok(0));
    assert_eq!(index_from_id("3", 3), Ok(2));
    assert_eq!(index_from_id("007", 10), Ok(6));
    assert_eq!(index_from_id("4", 3), Err(EditError::IndexOutOfRange));
    assert_eq!(index_from_id("-0", 3), Err(EditError::IndexOutOfRange));
    assert_eq!(index_from_id("1x", 3), Err(EditError::InvalidId));
    assert_eq!(index_from_id("1", 0), Err(EditError::IndexOutOfRange));
}

fn args(words: &[&str]) -> Vec<String> {
    words.iter().map(|w| w.to_string()).collect()
}

#[test]
fn command_reading() {
    assert!(matches!(parse_command(&args(&["keybinds"])), Ok(Command::Help)));
    assert!(matches!(parse_command(&args(&["keybinds", "list"])), Ok(Command::List)));
    assert!(matches!(parse_command(&args(&["keybinds", "frob"])), Ok(Command::Help)));
    assert!(matches!(parse_command(&args(&["keybinds", "new"])), Err(CommandError::MissingKeys)));
    assert!(matches!(parse_command(&args(&["keybinds", "new", "a"])), Err(CommandError::MissingCommand)));
    assert!(matches!(parse_command(&args(&["keybinds", "edit"])), Err(CommandError::MissingId)));
    assert!(matches!(parse_command(&args(&["keybinds", "edit", "1"])), Err(CommandError::MissingKeys)));
    match parse_command(&args(&["keybinds", "new", "$mod+1", "exec firefox", "false"])) {
        Ok(Command::New { keys, action, release }) => {
            assert_eq!(keys, "$mod+1");
            assert_eq!(action, "exec firefox");
            assert_eq!(release, Some("false".to_string()));
        },
        _ => panic!("expected a create"),
    }
    match parse_command(&args(&["keybinds", "edit", "2", "n/a"])) {
        Ok(Command::Edit { id, keys, action, release }) => {
            assert_eq!(id, "2");
            assert_eq!(keys, "n/a");
            assert_eq!(action, "n/a");
            assert_eq!(release, "n/a");
        },
        _ => panic!("expected an edit"),
    }
}

#[test]
fn help_and_errors_have_text() {
    assert!(help_text().starts_with("This command is used to edit my config files in Sway."));
    assert!(help_text().contains("Usage: keybinds [COMMAND]"));
    assert_eq!(EditError::DuplicateBind.message(), "This key combination already exists.");
    assert_eq!(keybinds::cli::mode_label(TriggerMode::Release), "On Release");
}
