use dmenu_drun::cache::Cache;
use dmenu_drun::dispatch::{exit_code, resolve, selector_choice, split_words, Launch};

fn s(x: &str) -> String {
    x.to_string()
}

#[test]
fn dispatch_direct() {
    let c = Cache::from_pairs(vec![(s("vim"), s("vim"))]);
    match resolve(&c, &s("vim")) {
        Launch::Direct(p) => assert_eq!(p, "vim"),
        _ => panic!("expected a direct launch"),
    }
}

#[test]
fn dispatch_desktop() {
    let c = Cache::from_pairs(vec![(s("Firefox"), s("firefox.desktop"))]);
    match resolve(&c, &s("Firefox")) {
        Launch::Desktop(f) => assert_eq!(f, "firefox.desktop"),
        _ => panic!("expected a detached launch"),
    }
}

#[test]
fn dispatch_freeform() {
    let c = Cache::from_pairs(vec![(s("vim"), s("vim"))]);
    match resolve(&c, &s("ls -la /tmp")) {
        Launch::Freeform(p, args) => {
            assert_eq!(p, "ls");
            assert_eq!(args, vec![s("-la"), s("/tmp")]);
        }
        _ => panic!("expected a freeform launch"),
    }
}

#[test]
fn dispatch_empty_input() {
    let c = Cache::new();
    assert!(matches!(resolve(&c, &s("")), Launch::Empty));
    assert!(matches!(resolve(&c, &s(" \t ")), Launch::Empty));
}

#[test]
fn words_split_on_any_white_space() {
    assert_eq!(
        split_words("  ls\t-la \u{3000}/tmp\n"),
        vec![s("ls"), s("-la"), s("/tmp")]
    );
    assert!(split_words("").is_empty());
}

#[test]
fn choice_is_trimmed_and_loses_extension() {
    assert_eq!(selector_choice("  Firefox \n"), "Firefox");
    assert_eq!(selector_choice("firefox.desktop\n"), "firefox");
    assert_eq!(selector_choice("a.desktop.desktop"), "a.desktop");
    assert_eq!(selector_choice("\n"), "");
    assert_eq!(selector_choice(" ls -la "), "ls -la");
}

#[test]
fn exit_code_prefers_launched_status() {
    assert_eq!(exit_code(Some(3), Some(0)), 3);
    assert_eq!(exit_code(None, Some(1)), 1);
    assert_eq!(exit_code(None, None), -1);
}
