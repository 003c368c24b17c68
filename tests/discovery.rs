use dmenu_drun::freshness::{needs_rebuild, split_search_path, Config};
use dmenu_drun::menu::{menu_names, menu_text, text_less};
use dmenu_drun::scan::{desktop_candidate, desktop_entry_name, executable_candidate, is_executable_mode};
use dmenu_drun::cache::Cache;

fn s(x: &str) -> String {
    x.to_string()
}

#[test]
fn missing_cache_forces_rebuild() {
    assert!(needs_rebuild(None, &vec![]));
    assert!(needs_rebuild(None, &vec![Some(-5), None]));
}

#[test]
fn fresh_cache_is_reused() {
    assert!(!needs_rebuild(Some(100), &vec![Some(10), Some(99), None]));
    assert!(!needs_rebuild(Some(100), &vec![Some(100)]));
}

#[test]
fn newer_directory_forces_rebuild() {
    assert!(needs_rebuild(Some(100), &vec![Some(10), None, Some(101)]));
}

#[test]
fn search_path_is_split_at_colons() {
    assert_eq!(
        split_search_path("/usr/bin::/bin"),
        vec![s("/usr/bin"), s(""), s("/bin")]
    );
    assert_eq!(split_search_path(""), vec![s("")]);
}

#[test]
fn config_orders_watched_directories() {
    let c = Config::new("/usr/bin:/bin", s("/home/u/Desktop"), s("/home/u/.local/share/applications"));
    assert_eq!(
        c.watched_dirs(),
        vec![
            s("/usr/bin"),
            s("/bin"),
            s("/home/u/Desktop"),
            s("/usr/share/applications"),
            s("/home/u/.local/share/applications"),
        ]
    );
}

#[test]
fn executable_bits() {
    assert!(is_executable_mode(0o100755));
    assert!(is_executable_mode(0o100001));
    assert!(!is_executable_mode(0o100644));
    assert!(executable_candidate(true, 0o010));
    assert!(!executable_candidate(false, 0o755));
}

#[test]
fn desktop_extension() {
    assert!(desktop_candidate(true, "firefox.desktop"));
    assert!(!desktop_candidate(true, ".desktop"));
    assert!(!desktop_candidate(true, "firefox.desktop.bak"));
    assert!(!desktop_candidate(false, "firefox.desktop"));
}

#[test]
fn desktop_name_is_first_name_line() {
    let text = "[Desktop Entry]\r\nType=Application\r\nName=Firefox\r\nName=Other\r\n";
    assert_eq!(desktop_entry_name(text), "Firefox");
    assert_eq!(desktop_entry_name("GenericName=x\nName=\n"), "");
    assert_eq!(desktop_entry_name("[Desktop Entry]\nExec=foo\n"), "");
    assert_eq!(desktop_entry_name("Name=Name=X"), "Name=X");
}

#[test]
fn menu_is_sorted_once_each() {
    let c = Cache::from_pairs(vec![
        (s("vim"), s("vim")),
        (s("Firefox"), s("firefox.desktop")),
        (s("ab"), s("ab")),
        (s("a"), s("a")),
    ]);
    let names = menu_names(&c);
    assert_eq!(names, vec![s("Firefox"), s("a"), s("ab"), s("vim")]);
    assert_eq!(menu_text(&names), "Firefox\na\nab\nvim\n");
    assert_eq!(menu_text(&vec![]), "\n");
}

#[test]
fn text_order_is_code_point_order() {
    let a: Vec<char> = "Zebra".chars().collect();
    let b: Vec<char> = "apple".chars().collect();
    let c: Vec<char> = "app".chars().collect();
    assert!(text_less(&a, &b));
    assert!(text_less(&c, &b));
    assert!(!text_less(&b, &c));
    assert!(!text_less(&b, &b));
}
