use niri_launcher::cache::AccessCache;
use niri_launcher::error::Error;
use niri_launcher::launcher::{icon_source, launch_order, match_windows, stale_entries, windows_reply, IconSource};

fn names(ns: &[&str]) -> Vec<String> {
    ns.iter().map(|n| n.to_string()).collect()
}

fn cache_of(entries: &[(&str, u8)]) -> AccessCache {
    AccessCache { cache: entries.iter().map(|(n, v)| (n.to_string(), *v)).collect() }
}

#[test]
fn launch_order_by_count_then_position() {
    let order = launch_order(&names(&["a", "b", "c", "d"]), &cache_of(&[("c", 5), ("a", 2), ("c", 9)]));
    assert_eq!(order, vec![2, 0, 1, 3]);
    assert!(launch_order(&names(&[]), &cache_of(&[("a", 1)])).is_empty());
}

#[test]
fn stale_entries_are_those_of_missing_apps() {
    let stale = stale_entries(&names(&["a"]), &cache_of(&[("a", 1), ("x", 2), ("y", 3), ("x", 4)]));
    assert_eq!(stale, names(&["x", "y", "x"]));
}

#[test]
fn icon_source_choice() {
    assert!(matches!(icon_source(Some("/p/i.svg".into()), None, false), IconSource::SvgFile(p) if p == "/p/i.svg"));
    assert!(matches!(icon_source(Some(".svg".into()), Some("x".into()), true), IconSource::SvgFile(_)));
    assert!(matches!(icon_source(Some("/p/i.png".into()), None, false), IconSource::ImageFile(p) if p == "/p/i.png"));
    assert!(matches!(icon_source(Some("svg".into()), None, false), IconSource::ImageFile(_)));
    assert!(matches!(icon_source(None, Some("/p/icon.png".into()), true), IconSource::ImageFile(p) if p == "/p/icon.png"));
    assert!(matches!(icon_source(None, Some("firefox".into()), false), IconSource::Fallback));
    assert!(matches!(icon_source(None, None, true), IconSource::Fallback));
}

#[test]
fn windows_match_the_first_app_with_their_icon() {
    let icons = vec![Some("firefox".to_string()), None, Some("kitty".to_string()), Some("firefox".to_string())];
    let ids = vec![Some("kitty".to_string()), None, Some("firefox".to_string()), Some("gimp".to_string())];
    assert_eq!(match_windows(&icons, &ids), vec![(0, 2), (2, 0)]);
}

#[test]
fn windows_reply_outcomes() {
    assert_eq!(windows_reply::<u64>(Ok(Some(vec![1, 2]))).unwrap(), vec![1, 2]);
    match windows_reply::<u64>(Ok(None)) {
        Err(Error::NitiIpcError(m)) => assert_eq!(m, "cannot get windows"),
        other => panic!("unexpected {:?}", other),
    }
    match windows_reply::<u64>(Err("boom".to_string())) {
        Err(Error::NitiIpcError(m)) => assert_eq!(m, "boom"),
        other => panic!("unexpected {:?}", other),
    }
}

#[test]
fn error_messages() {
    assert_eq!(Error::NitiIpcError("x".into()).message(), "NIRI IPC ERROR x ");
    assert_eq!(Error::InternalError("y".into()).message(), "INTERNAL ERROR y ");
    assert_eq!(Error::ParseError.message(), "Error while casting the types");
    assert_eq!(Error::CacheParse.message(), "Error while parsing Cache");
    assert_eq!(Error::NiriAppFetchError.message(), "Error while fetching apps.");
}

#[test]
fn removing_stale_entries_leaves_installed_apps() {
    let apps = names(&["a", "b"]);
    let mut cache = cache_of(&[("a", 1), ("x", 2), ("b", 7), ("y", 3), ("x", 4)]);
    for dead in stale_entries(&apps, &cache) {
        cache.del_from_cache(&dead);
    }
    assert_eq!(cache.cache, vec![("a".to_string(), 1), ("b".to_string(), 7)]);
}
