use niri_launcher::apps::{apps_from_desktop_files, DesktopFile, NiriApp};
use niri_launcher::desktop::parse_desktop_entry;

#[test]
fn reads_the_main_group_only() {
    let text = "# comment\nName=Outside\n[Desktop Entry]\nName = Firefox \nExec=firefox %u\nIcon=firefox\nTerminal=true\n[Desktop Action new]\nName=New Window\n";
    let e = parse_desktop_entry(text).unwrap();
    assert_eq!(e.name, "Firefox");
    assert_eq!(e.command, "firefox %u");
    assert_eq!(e.icon.as_deref(), Some("firefox"));
    assert!(e.terminal);
}

#[test]
fn hidden_entries_are_dropped() {
    let text = "[Desktop Entry]\nName=Hidden\nExec=h\nNoDisplay=true\n";
    assert!(parse_desktop_entry(text).is_none());
    let shown = "[Desktop Entry]\nName=Shown\nExec=s\nNoDisplay=false\n";
    assert_eq!(parse_desktop_entry(shown).unwrap().name, "Shown");
}

#[test]
fn entries_need_a_name_and_a_command() {
    assert!(parse_desktop_entry("[Desktop Entry]\nName=NoCommand\n").is_none());
    assert!(parse_desktop_entry("[Desktop Entry]\nExec=nameless\n").is_none());
    assert!(parse_desktop_entry("[Desktop Entry]\nName=\nExec=x\n").is_none());
    assert!(parse_desktop_entry("Name=A\nExec=a\n").is_none());
    assert!(parse_desktop_entry("").is_none());
}

#[test]
fn empty_icon_keeps_the_earlier_one() {
    let text = "[Desktop Entry]\r\nName=A\r\nIcon=first\r\nIcon=  \r\nExec=a\r\nTerminal=yes\r\n";
    let e = parse_desktop_entry(text).unwrap();
    assert_eq!(e.icon.as_deref(), Some("first"));
    assert!(!e.terminal);
    let none = parse_desktop_entry("[Desktop Entry]\nName=A\nIcon=\nExec=a").unwrap();
    assert!(none.icon.is_none());
}

#[test]
fn repeated_main_header_goes_on() {
    let text = "[Desktop Entry]\nName=A\n[Desktop Entry]\nExec=a b\nName=B\n";
    let e = parse_desktop_entry(text).unwrap();
    assert_eq!(e.name, "B");
    assert_eq!(e.command, "a b");
}

#[test]
fn value_keeps_inner_equal_signs() {
    let e = parse_desktop_entry("[Desktop Entry]\nName=A\nExec=env X=1 a\n").unwrap();
    assert_eq!(e.command, "env X=1 a");
}

fn file(name: &str, content: &str) -> DesktopFile {
    DesktopFile { file_name: name.to_string(), content: content.to_string() }
}

#[test]
fn gathers_first_application_of_each_name() {
    let files = vec![
        file("a", "[Desktop Entry]\nName=X\nExec=x"),
        file("b", "[Desktop Entry]\nName=Z\nExec=z\nNoDisplay=true"),
        file("c", "[Desktop Entry]\nName=X\nExec=y"),
        file("d", "[Desktop Entry]\nName=Y\nExec=y\n"),
    ];
    let apps = apps_from_desktop_files(&files);
    assert_eq!(apps.len(), 2);
    assert_eq!(apps[0].file_name, "a");
    assert_eq!(apps[0].name, "X");
    assert_eq!(apps[0].command, "x");
    assert!(apps[0].icon.is_none() && apps[0].icon_path.is_none());
    assert_eq!(apps[1].file_name, "d");
    assert_eq!(apps[1].name, "Y");
}

#[test]
fn default_app_is_empty() {
    let a = NiriApp::default();
    assert!(a.name.is_empty() && a.command.is_empty() && a.file_name.is_empty());
    assert!(a.icon.is_none() && a.icon_path.is_none() && !a.terminal);
}
