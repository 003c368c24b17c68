use dmenu_drun::cache::Cache;

fn s(x: &str) -> String {
    x.to_string()
}

fn sample() -> Cache {
    let mut c = Cache::new();
    c.insert(s("vim"), s("vim"));
    c.insert(s("Firefox"), s("firefox.desktop"));
    c
}

#[test]
fn insert_and_get() {
    let c = sample();
    assert_eq!(c.len(), 2);
    assert_eq!(c.get(&s("vim")), Some(s("vim")));
    assert_eq!(c.get(&s("Firefox")), Some(s("firefox.desktop")));
    assert_eq!(c.get(&s("emacs")), None);
}

#[test]
fn insert_replaces_value() {
    let mut c = sample();
    c.insert(s("vim"), s("nvim"));
    assert_eq!(c.len(), 2);
    assert_eq!(c.get(&s("vim")), Some(s("nvim")));
}

#[test]
fn serialize_writes_nul_separated_lines() {
    let c = sample();
    assert_eq!(c.serialize(), "vim\0vim\nFirefox\0firefox.desktop\n");
}

#[test]
fn serialize_empty_is_empty() {
    assert_eq!(Cache::new().serialize(), "");
}

#[test]
fn round_trip_keeps_every_pair() {
    let mut c = sample();
    c.insert(s(""), s("blank.desktop"));
    c.insert(s("Text Editor"), s("org.gnome.gedit.desktop"));
    let back = Cache::parse(&c.serialize());
    assert_eq!(back.len(), 4);
    assert_eq!(back.get(&s("vim")), Some(s("vim")));
    assert_eq!(back.get(&s("Firefox")), Some(s("firefox.desktop")));
    assert_eq!(back.get(&s("")), Some(s("blank.desktop")));
    assert_eq!(back.get(&s("Text Editor")), Some(s("org.gnome.gedit.desktop")));
}

#[test]
fn malformed_lines_are_skipped() {
    let c = Cache::parse("vim\0vim\nno separator here\n");
    assert_eq!(c.len(), 1);
    assert_eq!(c.get(&s("vim")), Some(s("vim")));
    let c = Cache::parse("a\0b\0c\nFirefox\0firefox.desktop\n");
    assert_eq!(c.len(), 1);
    assert_eq!(c.get(&s("Firefox")), Some(s("firefox.desktop")));
}

#[test]
fn parse_later_line_wins_and_crlf_is_read() {
    let c = Cache::parse("k\0one\r\nk\0two\n\nx\0y");
    assert_eq!(c.len(), 2);
    assert_eq!(c.get(&s("k")), Some(s("two")));
    assert_eq!(c.get(&s("x")), Some(s("y")));
}

#[test]
fn parse_empty_text() {
    assert_eq!(Cache::parse("").len(), 0);
}

#[test]
fn hide_path_entries_keeps_desktop_entries() {
    let mut c = sample();
    c.hide_path_entries();
    assert_eq!(c.len(), 1);
    assert_eq!(c.get(&s("Firefox")), Some(s("firefox.desktop")));
    assert_eq!(c.get(&s("vim")), None);
}

#[test]
fn hide_desktop_entries_keeps_direct_entries() {
    let mut c = sample();
    c.hide_desktop_entries();
    assert_eq!(c.len(), 1);
    assert_eq!(c.get(&s("vim")), Some(s("vim")));
    assert_eq!(c.get(&s("Firefox")), None);
}

#[test]
fn both_filters_leave_nothing_of_the_sample() {
    let mut c = sample();
    c.hide_path_entries();
    c.hide_desktop_entries();
    assert_eq!(c.len(), 0);
}

#[test]
fn later_desktop_directory_wins() {
    let pairs = vec![
        (s("Editor"), s("system-editor.desktop")),
        (s("Browser"), s("firefox.desktop")),
        (s("Editor"), s("local-editor.desktop")),
    ];
    let c = Cache::from_pairs(pairs);
    assert_eq!(c.len(), 2);
    assert_eq!(c.get(&s("Editor")), Some(s("local-editor.desktop")));
}

#[test]
fn desktop_entries_override_path_entries() {
    let mut c = Cache::from_executables(&vec![s("firefox"), s("vim")]);
    let d = Cache::from_pairs(vec![(s("firefox"), s("firefox.desktop"))]);
    c.extend(&d);
    assert_eq!(c.len(), 2);
    assert_eq!(c.get(&s("firefox")), Some(s("firefox.desktop")));
    assert_eq!(c.get(&s("vim")), Some(s("vim")));
}

#[test]
fn keys_lists_each_name() {
    let c = sample();
    let mut k = c.keys();
    k.sort();
    assert_eq!(k, vec![s("Firefox"), s("vim")]);
}
