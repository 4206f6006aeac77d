use sherlock::config::{narrow_counts, ConfigFileChange, ReloadNeeds};
use sherlock::widgets::{Selection, ThemeType};

#[test]
fn reload_needs_from_changes() {
    let needs = ReloadNeeds::from_changes(&[ConfigFileChange::Alias, ConfigFileChange::Other]);
    assert_eq!(needs, ReloadNeeds { config: false, launchers: true, apps: false });
    let needs = ReloadNeeds::from_changes(&[ConfigFileChange::Config, ConfigFileChange::Apps]);
    assert_eq!(needs, ReloadNeeds { config: true, launchers: false, apps: true });
    let needs = ReloadNeeds::from_changes(&[]);
    assert_eq!(needs, ReloadNeeds { config: false, launchers: false, apps: false });
}

#[test]
fn counts_keep_their_low_bits() {
    let out = narrow_counts(vec![("a".into(), 7), ("b".into(), 70_000)]);
    assert_eq!(out, vec![("a".to_string(), 7u16), ("b".to_string(), 4_464u16)]);
}

#[test]
fn theme_labels() {
    assert_eq!(ThemeType::Custom.label(), "Custom Theme");
    assert_eq!(ThemeType::default().label(), "Built-in Theme");
}

#[test]
fn selection_new() {
    let s = Selection::new(3, true);
    assert_eq!(s.data_idx, 3);
    assert!(s.is_selected);
}

use sherlock::desktop::desktop_entry_icon;

#[test]
fn desktop_entry_icon_lookup() {
    let entry = "[Desktop Entry]\r\nName=Firefox\r\nExec=/usr/lib/FireFox/firefox %u\r\nIcon=firefox\r\n";
    assert_eq!(desktop_entry_icon(entry, "firefox"), Some(Some("firefox".to_string())));
    assert_eq!(desktop_entry_icon(entry, "kitty"), None);
    let no_icon = "Exec=kitty\nName=Kitty";
    assert_eq!(desktop_entry_icon(no_icon, "Kitty"), Some(None));
    let doubled = "Icon=Icon=odd\nExec=odd-app";
    assert_eq!(desktop_entry_icon(doubled, "odd"), Some(Some("odd".to_string())));
    assert_eq!(desktop_entry_icon("", "x"), None);
}

use sherlock::config::{audit_changes, classify_change, ConfigPaths, FileStamp};
use sherlock::widgets::pid_label;

fn comps(p: &str) -> Vec<Vec<u8>> {
    let mut v = vec![b"/".to_vec()];
    v.extend(p.split('/').filter(|c| !c.is_empty()).map(|c| c.as_bytes().to_vec()));
    v
}

fn paths() -> ConfigPaths {
    ConfigPaths {
        config: comps("cfg/config.toml"),
        fallback: comps("cfg/fallback.json"),
        alias: comps("cfg/alias.json"),
        ignore: comps("cfg/ignore.json"),
        actions: comps("cfg/actions.json"),
    }
}

#[test]
fn classify_config_paths() {
    let files = paths();
    assert_eq!(classify_change(&comps("cfg/alias.json"), &files), ConfigFileChange::Alias);
    assert_eq!(classify_change(&comps("cfg//config.toml"), &files), ConfigFileChange::Config);
    assert_eq!(classify_change(&comps("cfg/other.json"), &files), ConfigFileChange::Other);
}

#[test]
fn audit_reports_each_kind_once() {
    let files = paths();
    let stamp = |p: &str, is_file: bool, modified_after: bool| FileStamp { path: comps(p), is_file, modified_after };
    let entries = vec![
        stamp("cfg/alias.json", true, true),
        stamp("cfg/a.txt", true, true),
        stamp("cfg/b.txt", true, true),
        stamp("cfg/config.toml", true, false),
        stamp("cfg/ignore.json", false, true),
    ];
    let changes = audit_changes(&entries, &files, true);
    assert_eq!(changes, vec![ConfigFileChange::Alias, ConfigFileChange::Other, ConfigFileChange::Apps]);
    let quiet = vec![stamp("cfg/config.toml", true, false), stamp("cfg/ignore.json", false, true)];
    assert!(audit_changes(&quiet, &files, false).is_empty());
}

#[test]
fn process_labels() {
    assert_eq!(pid_label(42, 42), "42");
    assert_eq!(pid_label(42, 7), "7 > 42");
    assert_eq!(pid_label(-1, i32::MIN), "-2147483648 > -1");
}

use sherlock::widgets::{int_string, secs_until_next_minute, sidebar_numbers};

#[test]
fn sidebar_number_texts() {
    assert_eq!(
        sidebar_numbers(4242, 1, 17),
        ("1".to_string(), "4242".to_string(), "17".to_string())
    );
    assert_eq!(int_string(-35), "-35");
    assert_eq!(int_string(0), "0");
}

#[test]
fn minute_boundary_delay() {
    assert_eq!(secs_until_next_minute(0), 60);
    assert_eq!(secs_until_next_minute(59), 1);
    assert_eq!(secs_until_next_minute(15), 45);
}
