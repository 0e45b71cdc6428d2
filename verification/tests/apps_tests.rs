use niri_launcher::apps::{
    application_dirs, command_with_terminal, first_present_terminal, get_term, icon_or_fallback, NiriApp,
};
use niri_launcher::config::{config_file_path, default_cache_path, parse_config};
use niri_launcher::error::Error;

#[test]
fn application_dirs_follow_xdg() {
    let dirs = application_dirs(Some("/a:/b/".to_string()), Some("/home/u".to_string()), None).unwrap();
    assert_eq!(dirs, vec!["/a/applications", "/b/applications", "/home/u/.local/share/applications"]);
}

#[test]
fn application_dirs_defaults() {
    let dirs = application_dirs(None, Some("/home/u".to_string()), Some("/data".to_string())).unwrap();
    assert_eq!(dirs, vec!["/usr/local/share/applications", "/usr/share/applications", "/data/applications"]);
    let dirs = application_dirs(Some(String::new()), Some(String::new()), Some("rel".to_string())).unwrap();
    assert_eq!(dirs, vec!["applications", "rel/applications"]);
}

#[test]
fn application_dirs_need_home() {
    match application_dirs(None, None, None) {
        Err(Error::InternalError(m)) => assert_eq!(m, "Cannot access Home"),
        other => panic!("unexpected {:?}", other),
    }
}

fn app(command: &str, terminal: bool) -> NiriApp {
    NiriApp { command: command.to_string(), terminal, ..NiriApp::default() }
}

#[test]
fn launch_command_without_terminal() {
    assert_eq!(app("firefox %u", false).launch_command(Some("/usr/bin".to_string())), "firefox %u");
    assert_eq!(app("htop", true).launch_command(None), "htop");
    assert!(get_term(None).is_none());
}

#[test]
fn terminal_goes_before_the_command() {
    assert_eq!(command_with_terminal("htop", Some("kitty".to_string())), "kitty htop");
    assert_eq!(command_with_terminal("htop", None), "htop");
}

#[test]
fn found_terminal_is_a_known_one() {
    let known = [
        "kitty", "alacritty", "ghostty", "wezterm", "foot", "gnome-terminal", "konsole",
        "xfce4-terminal", "mate-terminal", "terminator", "termite", "st", "urxvt", "xterm",
    ];
    if let Some(t) = get_term(Some("/usr/bin:/bin".to_string())) {
        assert!(known.contains(&t.as_str()));
    }
    let cmd = app("htop", true).launch_command(Some("/usr/bin:/bin".to_string()));
    assert!(cmd == "htop" || known.iter().any(|t| cmd == format!("{} htop", t)));
}

#[test]
fn config_reads_sizes_and_keeps_the_rest() {
    let text = "window_width=800\n window_height = 100\ntrigger_area=5\ncache_file=/tmp/x\nicon_dim=90.5\nwindow_height=120\nicon_dim=50\nicon_gap=5.0\nother=1\nnoequals\n";
    let c = parse_config(text).unwrap();
    assert_eq!((c.window_width, c.window_height, c.trigger_area), (800, 120, 5));
    assert_eq!(c.cache_files, vec!["/tmp/x"]);
    assert_eq!(c.icon_dims, vec![("90.5".to_string(), 0), ("50".to_string(), 120)]);
    assert_eq!(c.icon_gaps, vec!["5.0"]);
}

#[test]
fn config_rejects_bad_sizes() {
    for text in ["window_width=abc", "window_height=", "trigger_area=4294967296", "window_width=-1", "window_width= 5"] {
        assert!(matches!(parse_config(text), Err(Error::ParseError)), "{}", text);
    }
    assert_eq!(parse_config("window_width=+4\ntrigger_area=4294967295").unwrap().trigger_area, 4294967295);
    let empty = parse_config("").unwrap();
    assert_eq!((empty.window_width, empty.window_height, empty.trigger_area), (0, 0, 0));
    assert!(empty.cache_files.is_empty());
}

#[test]
fn config_paths() {
    assert_eq!(config_file_path("/home/u"), "/home/u/.config/app_launcher/conf");
    assert_eq!(default_cache_path("/home/u/"), "/home/u/.cache/app-launcher/app-launch.cache");
    assert_eq!(default_cache_path(""), ".cache/app-launcher/app-launch.cache");
}

#[test]
fn first_present_terminal_in_preference_order() {
    let mut present = vec![false; 14];
    assert!(first_present_terminal(&present).is_none());
    present[4] = true;
    present[13] = true;
    assert_eq!(first_present_terminal(&present).as_deref(), Some("foot"));
    present[1] = true;
    assert_eq!(first_present_terminal(&present).as_deref(), Some("alacritty"));
    assert_eq!(first_present_terminal(&vec![false, false, false, false, false, false, false, false, false, false, false, false, false, true]).as_deref(), Some("xterm"));
    assert!(first_present_terminal(&vec![]).is_none());
    let mut longer = vec![false; 16];
    longer[15] = true;
    assert!(first_present_terminal(&longer).is_none());
}

#[test]
fn found_icon_is_kept() {
    let p = std::path::PathBuf::from("/usr/share/icons/x.png");
    assert_eq!(icon_or_fallback(Some(p.clone()), "x"), Some(p));
}
