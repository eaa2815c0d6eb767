use rushell_history::tab_complete::{all_strs_agree, complete_matches, dir_slash, glob_pattern, Complete, PathMatch};

fn pm(text: &str, is_dir: bool) -> PathMatch {
    PathMatch { text: Some(text.to_string()), display: text.to_string(), is_dir }
}

fn strs(v: &[&str]) -> Vec<String> {
    v.iter().map(|s| s.to_string()).collect()
}

#[test]
fn dir_slash_formats() {
    let home = "/home/u".to_string();
    assert_eq!(dir_slash(&pm("/home/u/my dir", true), Some(&home)), "~/my\\ dir/");
    assert_eq!(dir_slash(&pm("/tmp/a b", false), None), "/tmp/a\\ b");
    assert_eq!(dir_slash(&pm("/srv/x", false), Some(&home)), "~/srv/x");
    let odd = PathMatch { text: None, display: "/bad\u{FFFD}".to_string(), is_dir: true };
    assert_eq!(dir_slash(&odd, Some(&home)), "/bad\u{FFFD}/");
}

#[test]
fn glob_patterns() {
    assert_eq!(glob_pattern("~/Doc\\ s**", "/home/u"), "/home/u/Doc s*");
    assert_eq!(glob_pattern("abc", "/home/u"), "abc*");
    assert_eq!(glob_pattern("a~b", "/home/u"), "a~b*");
    assert_eq!(glob_pattern("", "/h"), "*");
}

#[test]
fn common_prefix() {
    assert_eq!(all_strs_agree(&strs(&["abcd", "abce", "abcf"]), 2), Some("abc".to_string()));
    assert_eq!(all_strs_agree(&strs(&["abcd", "abce"]), 3), None);
    assert_eq!(all_strs_agree(&strs(&["abcd", "xbce"]), 0), None);
    assert_eq!(all_strs_agree(&strs(&["ab"]), 5), Some("ab".to_string()));
    assert_eq!(all_strs_agree(&strs(&[]), 0), None);
    assert_eq!(all_strs_agree(&strs(&["éa", "éb"]), 0), Some("é".to_string()));
}

#[test]
fn complete_no_match() {
    assert!(matches!(complete_matches("nothing", &"/h".to_string(), &vec![]), Complete::Empty));
}

#[test]
fn complete_one_directory() {
    let home = "/home/u".to_string();
    match complete_matches("~/Do", &home, &vec![pm("/home/u/Documents", true)]) {
        Complete::One(s) => assert_eq!(s, "~/Documents/"),
        other => panic!("unexpected {:?}", other),
    }
}

#[test]
fn complete_shared_prefix() {
    let v = vec![pm("src/main.rs", false), pm("src/manager.rs", false)];
    match complete_matches("src/m", &"/h".to_string(), &v) {
        Complete::One(s) => assert_eq!(s, "src/ma"),
        other => panic!("unexpected {:?}", other),
    }
}

#[test]
fn complete_ambiguous() {
    let v = vec![pm("src/a.rs", false), pm("src/b", true)];
    match complete_matches("src/", &"/h".to_string(), &v) {
        Complete::Many(all) => assert_eq!(all, strs(&["src/a.rs", "src/b/"])),
        other => panic!("unexpected {:?}", other),
    }
}
