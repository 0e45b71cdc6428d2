use niri_launcher::cache::AccessCache;

fn cache_of(entries: &[(&str, u8)]) -> AccessCache {
    AccessCache { cache: entries.iter().map(|(n, v)| (n.to_string(), *v)).collect() }
}

fn entries(c: &AccessCache) -> Vec<(String, u8)> {
    c.cache.clone()
}

fn owned(entries: &[(&str, u8)]) -> Vec<(String, u8)> {
    entries.iter().map(|(n, v)| (n.to_string(), *v)).collect()
}

#[test]
fn reads_cache_lines_and_orders_them_ascending() {
    let text = "firefox=5\n  kitty=2  \nbad line\nx=300\ny=+7\n=4\nz=-1\nw=\n";
    let c = AccessCache::from_cache_text(text);
    assert_eq!(entries(&c), owned(&[("kitty", 2), ("", 4), ("firefox", 5), ("y", 7)]));
}

#[test]
fn reading_keeps_equal_counts_in_file_order() {
    let c = AccessCache::from_cache_text("b=3\r\na=3\nc=1");
    assert_eq!(entries(&c), owned(&[("c", 1), ("b", 3), ("a", 3)]));
}

#[test]
fn reading_an_empty_file_gives_an_empty_cache() {
    assert!(AccessCache::from_cache_text("").cache.is_empty());
    assert!(AccessCache::from_cache_text("\n\n").cache.is_empty());
    assert!(AccessCache::default().cache.is_empty());
}

#[test]
fn launch_counts_up_and_decays_the_others() {
    let mut c = cache_of(&[("a", 10), ("b", 15), ("c", 3), ("d", 21)]);
    c.increment("c");
    assert_eq!(entries(&c), owned(&[("d", 20), ("b", 15), ("a", 9), ("c", 4)]));
}

#[test]
fn launch_of_a_new_application_adds_it_with_one() {
    let mut c = cache_of(&[("a", 5)]);
    c.increment("n");
    assert_eq!(entries(&c), owned(&[("a", 4), ("n", 1)]));
}

#[test]
fn launch_caps_at_twenty_and_rests_at_marks() {
    let mut c = cache_of(&[("top", 20), ("e", 8), ("t", 12), ("f", 15), ("low", 4), ("z", 0)]);
    c.increment("top");
    assert_eq!(
        entries(&c),
        owned(&[("top", 20), ("f", 15), ("t", 12), ("e", 8), ("low", 4), ("z", 0)])
    );
}

#[test]
fn launch_counts_up_every_entry_of_the_name() {
    let mut c = cache_of(&[("a", 1), ("a", 2)]);
    c.increment("a");
    assert_eq!(entries(&c), owned(&[("a", 3), ("a", 2)]));
}

#[test]
fn removal_drops_every_entry_of_the_name() {
    let mut c = cache_of(&[("a", 9), ("b", 2), ("a", 1), ("c", 5)]);
    c.del_from_cache("a");
    assert_eq!(entries(&c), owned(&[("b", 2), ("c", 5)]));
    c.del_from_cache("missing");
    assert_eq!(entries(&c), owned(&[("b", 2), ("c", 5)]));
}

#[test]
fn cache_text_has_one_line_per_entry() {
    let c = cache_of(&[("a", 10), ("b", 255), ("c", 0)]);
    assert_eq!(c.to_cache_text(), "a=10\nb=255\nc=0\n");
    assert_eq!(AccessCache::default().to_cache_text(), "");
}

#[test]
fn cache_text_reads_back_ordered_by_count() {
    let mut c = cache_of(&[("firefox", 3), ("kitty", 7), ("my app ", 3)]);
    c.increment("kitty");
    let back = AccessCache::from_cache_text(&c.to_cache_text());
    assert_eq!(entries(&back), owned(&[("firefox", 3), ("my app ", 3), ("kitty", 8)]));
}

#[test]
fn i_am_is_the_cache_itself() {
    let c = cache_of(&[("a", 1)]);
    assert!(std::ptr::eq(c.i_am(), &c));
}
