use rushell_history::history::{rank, HistoryItem, HistoryRecord, Store};

fn item(pwds: &[&str], time: u64, hits: u64) -> HistoryItem {
    HistoryItem { pwds: pwds.iter().map(|s| s.to_string()).collect(), time, hits, changed: false }
}

fn keys(store: &Store, q: &str) -> Vec<String> {
    store.cmd_complete(q).into_iter().map(|(k, _)| k).collect()
}

#[test]
fn record_then_query_and_rank_scenario() {
    let mut s = Store::new();
    s.record("ls -la".to_string(), "/home/a".to_string(), 100);
    let found = s.cmd_complete("ls");
    assert_eq!(found.len(), 1);
    assert_eq!(found[0].0, "ls -la");
    assert_eq!(found[0].1.hits, 1);
    assert_eq!(found[0].1.pwds, vec!["/home/a".to_string()]);
    assert_eq!(found[0].1.time, 100);
    assert!(found[0].1.changed);
    let mut cands = found;
    cands.insert(0, ("lsblk".to_string(), item(&["/elsewhere"], 50, 0)));
    let ranked = rank(cands, &"/home/a".to_string());
    assert_eq!(ranked[1].0, "ls -la");
    // also when the competitor is the more recent one
    let mut cands = s.cmd_complete("ls");
    cands.push(("lsof".to_string(), item(&["/elsewhere"], 500, 0)));
    let ranked = rank(cands, &"/home/a".to_string());
    assert_eq!(ranked[1].0, "ls -la");
}

#[test]
fn record_twice_updates_item() {
    let mut s = Store::new();
    s.record("make".to_string(), "/a".to_string(), 10);
    s.record("make".to_string(), "/b".to_string(), 20);
    let found = s.cmd_complete("make");
    assert_eq!(found.len(), 1);
    assert_eq!(found[0].1.hits, 2);
    let mut pwds = found[0].1.pwds.clone();
    pwds.sort();
    assert_eq!(pwds, vec!["/a".to_string(), "/b".to_string()]);
    assert_eq!(found[0].1.time, 20);
    assert_eq!(s.len(), 1);
}

#[test]
fn record_same_pwd_keeps_one_entry() {
    let mut s = Store::new();
    s.record("make".to_string(), "/a".to_string(), 10);
    s.record("make".to_string(), "/a".to_string(), 30);
    let found = s.cmd_complete("");
    assert_eq!(found[0].1.pwds, vec!["/a".to_string()]);
    assert_eq!(found[0].1.hits, 2);
}

#[test]
fn hit_count_stops_at_max() {
    let mut s = Store::new();
    s.load_records(&vec![HistoryRecord { cmd: "x".to_string(), pwds: vec![], time: 1, hits: u64::MAX }]);
    s.record("x".to_string(), "/p".to_string(), 2);
    assert_eq!(s.cmd_complete("x")[0].1.hits, u64::MAX);
}

#[test]
fn prefix_query_excludes_unrelated_commands() {
    let mut s = Store::new();
    s.record("git status".to_string(), "/".to_string(), 1);
    s.record("ls".to_string(), "/".to_string(), 2);
    s.record("gi".to_string(), "/".to_string(), 3);
    assert_eq!(keys(&s, "git"), vec!["git status".to_string()]);
    assert_eq!(keys(&s, "ls"), vec!["ls".to_string()]);
    assert!(keys(&s, "cd").is_empty());
}

#[test]
fn empty_prefix_returns_whole_store_in_order() {
    let mut s = Store::new();
    for c in ["zsh", "ab", "b", "a", "abc"] {
        s.record(c.to_string(), "/".to_string(), 1);
    }
    assert_eq!(keys(&s, ""), vec!["a", "ab", "abc", "b", "zsh"]);
    assert_eq!(s.len(), 5);
}

#[test]
fn prefix_query_on_multibyte_text() {
    let mut s = Store::new();
    for c in ["é1", "é2", "ê", "e"] {
        s.record(c.to_string(), "/".to_string(), 1);
    }
    assert_eq!(keys(&s, "é"), vec!["é1", "é2"]);
}

#[test]
fn prefix_query_without_successor_is_empty() {
    let mut s = Store::new();
    s.record("a\u{10FFFF}b".to_string(), "/".to_string(), 1);
    s.record("a\u{D7FF}b".to_string(), "/".to_string(), 1);
    assert!(keys(&s, "a\u{10FFFF}").is_empty());
    assert!(keys(&s, "a\u{D7FF}").is_empty());
    assert_eq!(keys(&s, "a").len(), 2);
}

#[test]
fn rank_prefers_matching_pwd() {
    let a = ("cargo build".to_string(), item(&["/proj"], 100, 3));
    let b = ("cargo test".to_string(), item(&["/other"], 100, 3));
    let r = rank(vec![a, b], &"/proj".to_string());
    assert_eq!(r[0].0, "cargo test");
    assert_eq!(r[1].0, "cargo build");
    let a = ("cargo build".to_string(), item(&["/proj"], 100, 3));
    let b = ("cargo test".to_string(), item(&["/other"], 50, 3));
    let r = rank(vec![b, a], &"/proj".to_string());
    assert_eq!(r[1].0, "cargo build");
}

#[test]
fn rank_recency_bonus_and_hits() {
    let a = ("a".to_string(), item(&[], 10, 5));
    let b = ("b".to_string(), item(&[], 20, 5));
    let r = rank(vec![b, a], &"/".to_string());
    assert_eq!(r[1].0, "b");
    // the bonus is 10: eleven more hits beat it, ten tie with it
    let a = ("a".to_string(), item(&[], 10, 16));
    let b = ("b".to_string(), item(&[], 20, 5));
    let r = rank(vec![a, b], &"/".to_string());
    assert_eq!(r[1].0, "a");
}

#[test]
fn rank_orders_many_ascending() {
    let cands: Vec<(String, HistoryItem)> =
        [7u64, 1, 40, 3, 22].iter().map(|h| (format!("c{}", h), item(&[], 5, *h))).collect();
    let r = rank(cands, &"/".to_string());
    let names: Vec<String> = r.into_iter().map(|(k, _)| k).collect();
    assert_eq!(names, vec!["c1", "c3", "c7", "c22", "c40"]);
}

#[test]
fn guess_is_ascending_by_score() {
    let mut s = Store::new();
    s.record("ls".to_string(), "/a".to_string(), 1);
    s.record("lsof".to_string(), "/b".to_string(), 1);
    s.record("lsof".to_string(), "/b".to_string(), 1);
    s.record("cd".to_string(), "/a".to_string(), 1);
    assert_eq!(s.guess("l", &"/z".to_string()), vec!["ls".to_string(), "lsof".to_string()]);
    assert_eq!(s.guess("l", &"/a".to_string()), vec!["lsof".to_string(), "ls".to_string()]);
}

#[test]
fn dirty_records_and_mark_saved() {
    let mut s = Store::new();
    s.record("b".to_string(), "/1".to_string(), 7);
    s.record("a".to_string(), "/2".to_string(), 8);
    let d = s.dirty_records();
    assert_eq!(d.len(), 2);
    assert_eq!(d[0].cmd, "a");
    assert_eq!(d[0].pwds, vec!["/2".to_string()]);
    assert_eq!(d[0].time, 8);
    assert_eq!(d[0].hits, 1);
    s.mark_saved(&"a".to_string());
    s.mark_saved(&"missing".to_string());
    let d = s.dirty_records();
    assert_eq!(d.len(), 1);
    assert_eq!(d[0].cmd, "b");
    assert!(!s.cmd_complete("a")[0].1.changed);
}

#[test]
fn write_out_then_load_round_trip() {
    let mut s = Store::new();
    s.record("vim x".to_string(), "/1".to_string(), 7);
    s.record("vim x".to_string(), "/2".to_string(), 9);
    s.record("ls".to_string(), "/1".to_string(), 8);
    let recs = s.dirty_records();
    let mut t = Store::new();
    t.load_records(&recs);
    let a = s.cmd_complete("");
    let b = t.cmd_complete("");
    assert_eq!(a.len(), b.len());
    for ((ka, ia), (kb, ib)) in a.iter().zip(b.iter()) {
        assert_eq!(ka, kb);
        assert_eq!(ia.hits, ib.hits);
        assert_eq!(ia.pwds, ib.pwds);
        assert_eq!(ia.time, ib.time);
        assert!(!ib.changed);
    }
    assert!(t.dirty_records().is_empty());
}

#[test]
fn later_record_wins_on_load() {
    let mut s = Store::new();
    let r1 = HistoryRecord { cmd: "x".to_string(), pwds: vec!["/old".to_string()], time: 1, hits: 3 };
    let r2 = HistoryRecord { cmd: "x".to_string(), pwds: vec!["/new".to_string()], time: 2, hits: 4 };
    s.load_records(&vec![r1, r2]);
    let f = s.cmd_complete("x");
    assert_eq!(f.len(), 1);
    assert_eq!(f[0].1.hits, 4);
    assert_eq!(f[0].1.pwds, vec!["/new".to_string()]);
}

#[test]
fn load_months_skips_missing_file() {
    let mut s = Store::new();
    let older = vec![HistoryRecord { cmd: "make".to_string(), pwds: vec!["/p".to_string()], time: 5, hits: 2 }];
    s.load_months(&vec![Some(older), None]);
    assert_eq!(s.len(), 1);
    assert_eq!(s.cmd_complete("make")[0].1.hits, 2);
}

#[test]
fn load_months_newest_file_wins() {
    let mut s = Store::new();
    let older = vec![HistoryRecord { cmd: "make".to_string(), pwds: vec![], time: 5, hits: 2 }];
    let newer = vec![HistoryRecord { cmd: "make".to_string(), pwds: vec![], time: 9, hits: 6 }];
    s.load_months(&vec![Some(older), None, Some(newer)]);
    assert_eq!(s.cmd_complete("make")[0].1.hits, 6);
}

#[test]
fn push_command_records_with_clock() {
    let mut s = Store::new();
    s.push_command("echo".to_string(), "/".to_string());
    let f = s.cmd_complete("echo");
    assert_eq!(f[0].1.hits, 1);
    assert!(f[0].1.time > 1_600_000_000);
}

#[test]
fn saver_writes_item() {
    let it = item(&["/a", "/b"], 42, 3);
    let r = it.saver("cmd");
    assert_eq!(r.cmd, "cmd");
    assert_eq!(r.pwds, vec!["/a".to_string(), "/b".to_string()]);
    assert_eq!(r.time, 42);
    assert_eq!(r.hits, 3);
    let c = it.copied();
    assert_eq!(c.pwds, it.pwds);
}

#[test]
fn write_out_split_over_files_then_load() {
    let mut s = Store::new();
    s.record("old".to_string(), "/1".to_string(), 7);
    s.record("new".to_string(), "/2".to_string(), 9);
    s.record("new".to_string(), "/3".to_string(), 11);
    s.record("lost".to_string(), "/4".to_string(), 12);
    let recs = s.dirty_records();
    let mut first = Vec::new();
    let mut second = Vec::new();
    for r in recs {
        match r.cmd.as_str() {
            "old" => first.push(r),
            "new" => second.push(r),
            _ => {}
        }
    }
    let mut t = Store::new();
    t.load_months(&vec![Some(first), None, Some(second)]);
    let got = t.cmd_complete("");
    assert_eq!(got.len(), 2);
    assert_eq!(got[0].0, "new");
    assert_eq!(got[0].1.hits, 2);
    assert_eq!(got[0].1.pwds, vec!["/2".to_string(), "/3".to_string()]);
    assert_eq!(got[0].1.time, 11);
    assert_eq!(got[1].0, "old");
    assert_eq!(got[1].1.hits, 1);
}
