use rushell_history::history::HistoryRecord;
use rushell_history::manager::{Completer, Manager, Mode, Phase};

fn req(mode: &str, s: &str, pwd: &str) -> Completer {
    Completer { mode: mode.to_string(), s: s.to_string(), pwd: pwd.to_string() }
}

#[test]
fn completer_from_pairs() {
    let pairs = vec![
        ("mode".to_string(), "save".to_string()),
        ("s".to_string(), "ls".to_string()),
        ("other".to_string(), "x".to_string()),
        ("pwd".to_string(), "/a".to_string()),
        ("s".to_string(), "ls -l".to_string()),
    ];
    let c = Completer::from_pairs(&pairs);
    assert_eq!(c.mode, "save");
    assert_eq!(c.s, "ls -l");
    assert_eq!(c.pwd, "/a");
}

#[test]
fn completer_from_query_decodes() {
    let c = Completer::from_query("mode=history&s=ls+-la%21&pwd=%2Fhome%2Fa");
    assert_eq!(c.mode, "history");
    assert_eq!(c.s, "ls -la!");
    assert_eq!(c.pwd, "/home/a");
    let e = Completer::from_query("");
    assert_eq!(e.mode, "");
    assert_eq!(e.s, "");
}

#[test]
fn completer_from_uri() {
    let uri: hyper::Uri = "/complete?mode=save&s=cd%20src&pwd=/p".parse().unwrap();
    let c = Completer::from_uri(&uri);
    assert_eq!(c.mode, "save");
    assert_eq!(c.s, "cd src");
    assert_eq!(c.pwd, "/p");
    let bare: hyper::Uri = "/complete".parse().unwrap();
    assert_eq!(Completer::from_uri(&bare).mode, "");
}

#[test]
fn modes() {
    assert_eq!(req("", "", "").mode(), Mode::History);
    assert_eq!(req("history", "", "").mode(), Mode::History);
    assert_eq!(req("save", "", "").mode(), Mode::Save);
    assert_eq!(req("kill", "", "").mode(), Mode::Kill);
    assert_eq!(req("path", "", "").mode(), Mode::Path);
    assert_eq!(req("hist", "", "").mode(), Mode::Other);
}

#[test]
fn manager_serves_in_order_and_drains() {
    let mut m = Manager::new(0);
    assert_eq!(m.phase(), Phase::Initializing);
    assert!(m.handle(req("save", "ls", "/a"), 1).reply.is_none());
    m.start(&vec![None, Some(vec![HistoryRecord { cmd: "lsof".to_string(), pwds: vec![], time: 1, hits: 1 }])]);
    assert_eq!(m.phase(), Phase::Running);
    assert_eq!(m.len(), 1);
    let a = m.handle(req("save", "ls", "/a"), 10);
    assert_eq!(a.reply, Some(vec![]));
    assert!(!a.flush);
    let a = m.handle(req("history", "ls", "/a"), 11);
    assert_eq!(a.reply, Some(vec!["ls".to_string(), "lsof".to_string()]));
    let a = m.handle(req("bogus", "ls", "/a"), 12);
    assert_eq!(a.reply, Some(vec![]));
    assert_eq!(m.pending().len(), 1);
    let a = m.handle(req("kill", "", ""), 13);
    assert!(a.reply.is_none());
    assert_eq!(m.phase(), Phase::Draining);
    // a request queued before the kill is still served
    let a = m.handle(req("save", "late", "/a"), 14);
    assert_eq!(a.reply, Some(vec![]));
    assert_eq!(m.len(), 3);
    assert_eq!(m.phase(), Phase::Draining);
    let a = m.handle(req("history", "la", "/a"), 15);
    assert_eq!(a.reply, Some(vec!["late".to_string()]));
    assert!(m.handle(req("kill", "", ""), 16).reply.is_none());
    assert_eq!(m.phase(), Phase::Draining);
    m.saved(&"ls".to_string());
    m.saved(&"late".to_string());
    assert!(m.pending().is_empty());
    m.finish();
    assert_eq!(m.phase(), Phase::Stopped);
    assert!(m.handle(req("save", "after", "/a"), 17).reply.is_none());
    assert_eq!(m.len(), 3);
}

#[test]
fn manager_flushes_after_interval() {
    let mut m = Manager::new(1000);
    m.start(&vec![]);
    assert!(!m.handle(req("history", "", ""), 2800).flush);
    assert!(m.handle(req("history", "", ""), 2801).flush);
    assert!(!m.handle(req("history", "", ""), 2802).flush);
    assert!(!m.handle(req("history", "", ""), 100).flush);
    assert!(m.handle(req("save", "x", "/"), 4602).flush);
}
