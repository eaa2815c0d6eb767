//! Requests from the shell and the single owner of the history: each request
//! goes through `Manager::handle`, one at a time, in the order it arrived.
use vstd::prelude::*;
use crate::history::{keys_of, prefix_spec, ranked, record_spec, strings_view, EntryView, HistoryRecord, Store, dirty_spec, clean_spec, load_files_spec, files_view};
use crate::text::{chars_of, starts_with};

verus! {

/// A request as the shell sends it: what to do, the text, and the working directory.
#[derive(Debug)]
pub struct Completer {
    pub mode: String,
    pub s: String,
    pub pwd: String,
}

pub struct CompleterView {
    pub mode: Seq<char>,
    pub s: Seq<char>,
    pub pwd: Seq<char>,
}

impl View for Completer {
    type V = CompleterView;

    open spec fn view(&self) -> CompleterView {
        CompleterView { mode: self.mode@, s: self.s@, pwd: self.pwd@ }
    }
}

pub open spec fn pairs_view(v: Seq<(String, String)>) -> Seq<(Seq<char>, Seq<char>)> {
    v.map_values(|p: (String, String)| (p.0@, p.1@))
}

/// The request described by query pairs: `mode`, `s` and `pwd` take the value
/// of their last pair; other names are ignored; a missing one is empty.
pub open spec fn completer_spec(ps: Seq<(Seq<char>, Seq<char>)>) -> CompleterView
    decreases ps.len(),
{
    if ps.len() == 0 {
        CompleterView { mode: seq![], s: seq![], pwd: seq![] }
    } else {
        let c = completer_spec(ps.drop_last());
        let (k, v) = ps.last();
        if k == "mode"@ {
            CompleterView { mode: v, ..c }
        } else if k == "s"@ {
            CompleterView { s: v, ..c }
        } else if k == "pwd"@ {
            CompleterView { pwd: v, ..c }
        } else {
            c
        }
    }
}

/// The decoded name/value pairs of a URL query string.
pub uninterp spec fn form_pairs_of(q: Seq<char>) -> Seq<(Seq<char>, Seq<char>)>;

/// Relies on `url::form_urlencoded::parse`: the name/value pairs of an
/// `application/x-www-form-urlencoded` query, decoded, in order. They depend
/// on the text alone, and an empty text has none.
#[verifier::external_body]
fn query_pairs(q: &str) -> (r: Vec<(String, String)>)
    ensures
        pairs_view(r@) == form_pairs_of(q@),
        q@.len() == 0 ==> r@.len() == 0,
{
    url::form_urlencoded::parse(q.as_bytes()).map(|(k, v)| (k.into_owned(), v.into_owned())).collect()
}

#[verifier::external_type_specification]
#[verifier::external_body]
pub struct ExUri(hyper::Uri);

/// Relies on `hyper::Uri::query`: the query of the URI, without the `?`, if it has one.
#[verifier::external_body]
fn uri_query(uri: &hyper::Uri) -> (r: Option<&str>) {
    uri.query()
}

/// Decides whether `a` and `b` hold the same characters.
fn same_chars(a: &Vec<char>, b: &Vec<char>) -> (r: bool)
    ensures
        r == (a@ == b@),
{
    if a.len() != b.len() {
        return false;
    }
    let r = starts_with(a, b);
    assert(r ==> a@ =~= b@);
    r
}

/// Decides whether `s` is the text `lit`.
fn is_text(s: &String, lit: &str) -> (r: bool)
    ensures
        r == (s@ == lit@),
{
    let a = chars_of(s.as_str());
    let b = chars_of(lit);
    same_chars(&a, &b)
}

/// What a request asks for.
#[derive(Debug, Clone, Copy, PartialEq, Eq, Structural)]
pub enum Mode {
    /// Ranked history entries that start with the text.
    History,
    /// Record the text as a command run in the working directory.
    Save,
    /// Stop taking requests, write out the history, and end.
    Kill,
    /// Complete a filesystem path; served without the manager.
    Path,
    /// Anything else: answered with an empty list.
    Other,
}

pub open spec fn mode_spec(m: Seq<char>) -> Mode {
    if m == "history"@ || m == ""@ {
        Mode::History
    } else if m == "save"@ {
        Mode::Save
    } else if m == "kill"@ {
        Mode::Kill
    } else if m == "path"@ {
        Mode::Path
    } else {
        Mode::Other
    }
}

impl Completer {
    /// The request described by already decoded query pairs.
    pub fn from_pairs(pairs: &Vec<(String, String)>) -> (r: Completer)
        ensures
            r@ == completer_spec(pairs_view(pairs@)),
    {
        let mut r = Completer { mode: String::new(), s: String::new(), pwd: String::new() };
        let mut i: usize = 0;
        assert(pairs_view(pairs@).subrange(0, 0) =~= Seq::<(Seq<char>, Seq<char>)>::empty());
        while i < pairs.len()
            invariant
                i <= pairs@.len(),
                r@ == completer_spec(pairs_view(pairs@).subrange(0, i as int)),
            decreases pairs@.len() - i,
        {
            assert(pairs_view(pairs@).subrange(0, i + 1).drop_last() =~= pairs_view(pairs@).subrange(0, i as int));
            let k = &pairs[i].0;
            let v = &pairs[i].1;
            if is_text(k, "mode") {
                r.mode = v.clone();
            } else if is_text(k, "s") {
                r.s = v.clone();
            } else if is_text(k, "pwd") {
                r.pwd = v.clone();
            }
            i = i + 1;
        }
        assert(pairs_view(pairs@).subrange(0, pairs@.len() as int) =~= pairs_view(pairs@));
        r
    }

    /// The request described by a URL query string such as `mode=history&s=ls&pwd=/home`.
    pub fn from_query(query: &str) -> (r: Completer)
        ensures
            r@ == completer_spec(form_pairs_of(query@)),
    {
        let pairs = query_pairs(query);
        Completer::from_pairs(&pairs)
    }

    /// The request described by the query of a request URI; a URI without
    /// a query gives an empty request.
    pub fn from_uri(uri: &hyper::Uri) -> (r: Completer)
        ensures
            exists|q: Seq<char>| r@ == #[trigger] completer_spec(form_pairs_of(q)),
    {
        match uri_query(uri) {
            Some(q) => Completer::from_query(q),
            None => Completer::from_query(""),
        }
    }

    /// What the request asks for.
    pub fn mode(&self) -> (r: Mode)
        ensures
            r == mode_spec(self.mode@),
    {
        if is_text(&self.mode, "history") || is_text(&self.mode, "") {
            Mode::History
        } else if is_text(&self.mode, "save") {
            Mode::Save
        } else if is_text(&self.mode, "kill") {
            Mode::Kill
        } else if is_text(&self.mode, "path") {
            Mode::Path
        } else {
            Mode::Other
        }
    }
}

/// The life of a manager.
#[derive(Debug, Clone, Copy, PartialEq, Eq, Structural)]
pub enum Phase {
    /// Loading the recent months; no request is served yet.
    Initializing,
    /// Serving requests.
    Running,
    /// A stop was asked for: no new request is taken, and those already
    /// queued are still served until the final write-out.
    Draining,
    /// The history was written out for the last time.
    Stopped,
}

/// The phases in which requests are served.
pub open spec fn serving(p: Phase) -> bool {
    p == Phase::Running || p == Phase::Draining
}

/// What the caller does after a request: send `reply` if there is one (else
/// drop the request unanswered), and write out the changed items if `flush` is set.
#[derive(Debug)]
pub struct Action {
    pub reply: Option<Vec<String>>,
    pub flush: bool,
}

/// Seconds between two periodic write-outs.
pub const SAVE_INTERVAL: u64 = 1800;

/// The single owner of a history index.
#[derive(Debug)]
pub struct Manager {
    store: Store,
    phase: Phase,
    last_save: u64,
}

/// `s` in reverse order.
fn reversed(v: &Vec<String>) -> (r: Vec<String>)
    ensures
        r@ == v@.reverse(),
{
    let mut r: Vec<String> = Vec::new();
    let mut i: usize = v.len();
    while i > 0
        invariant
            i <= v@.len(),
            r@ == v@.subrange(i as int, v@.len() as int).reverse(),
        decreases i,
    {
        i = i - 1;
        r.push(v[i].clone());
        assert(r@ =~= v@.subrange(i as int, v@.len() as int).reverse());
    }
    assert(v@.subrange(0, v@.len() as int) =~= v@);
    r
}

impl Manager {
    pub closed spec fn wf(&self) -> bool {
        self.store.wf()
    }

    pub closed spec fn history(&self) -> Seq<EntryView> {
        self.store@
    }

    pub closed spec fn phase_spec(&self) -> Phase {
        self.phase
    }

    pub closed spec fn last_save_spec(&self) -> u64 {
        self.last_save
    }

    /// A manager with an empty history, about to load.
    pub fn new(now: u64) -> (r: Manager)
        ensures
            r.wf(),
            r.history() == Seq::<EntryView>::empty(),
            r.phase_spec() == Phase::Initializing,
            r.last_save_spec() == now,
    {
        Manager { store: Store::new(), phase: Phase::Initializing, last_save: now }
    }

    /// The phase the manager is in.
    pub fn phase(&self) -> (r: Phase)
        ensures
            r == self.phase_spec(),
    {
        self.phase
    }

    /// The number of distinct commands in the history.
    pub fn len(&self) -> (r: usize)
        ensures
            r == self.history().len(),
    {
        self.store.len()
    }

    /// Loads the recent months' files, oldest first (unreadable ones are
    /// `None` and skipped), and starts serving requests.
    pub fn start(&mut self, files: &Vec<Option<Vec<HistoryRecord>>>)
        requires
            old(self).wf(),
            old(self).phase_spec() == Phase::Initializing,
        ensures
            final(self).wf(),
            final(self).phase_spec() == Phase::Running,
            final(self).history() == load_files_spec(old(self).history(), files_view(files@)),
            final(self).last_save_spec() == old(self).last_save_spec(),
    {
        self.store.load_months(files);
        self.phase = Phase::Running;
    }

    /// Serves one request at `now` (seconds since the Unix epoch). While
    /// running or draining: a history request is answered with the matching
    /// commands, best first; a save records the command and is answered with
    /// an empty list; a kill starts draining (or keeps it) and gets no answer;
    /// anything else, including a path request, gets an empty list. A
    /// write-out is due when more than `SAVE_INTERVAL` seconds passed since
    /// the last one. Before the history is loaded and after the final
    /// write-out, the request is dropped.
    pub fn handle(&mut self, c: Completer, now: u64) -> (a: Action)
        requires
            old(self).wf(),
        ensures
            final(self).wf(),
            !serving(old(self).phase_spec()) ==> {
                &&& a.reply is None
                &&& !a.flush
                &&& final(self).history() == old(self).history()
                &&& final(self).phase_spec() == old(self).phase_spec()
                &&& final(self).last_save_spec() == old(self).last_save_spec()
            },
            serving(old(self).phase_spec()) ==> {
                &&& mode_spec(c.mode@) == Mode::History ==> {
                    &&& final(self).history() == old(self).history()
                    &&& a.reply matches Some(v) && exists|s: Seq<EntryView>|
                        s.to_multiset() == #[trigger] prefix_spec(old(self).history(), c.s@).to_multiset()
                            && ranked(s, c.pwd@) && strings_view(v@) == keys_of(s).reverse()
                }
                &&& mode_spec(c.mode@) == Mode::Save ==> {
                    &&& final(self).history() == record_spec(old(self).history(), c.s@, c.pwd@, now)
                    &&& a.reply matches Some(v) && v@.len() == 0
                }
                &&& (mode_spec(c.mode@) == Mode::Other || mode_spec(c.mode@) == Mode::Path) ==> {
                    &&& final(self).history() == old(self).history()
                    &&& a.reply matches Some(v) && v@.len() == 0
                }
                &&& mode_spec(c.mode@) == Mode::Kill ==> {
                    &&& final(self).history() == old(self).history()
                    &&& a.reply is None
                    &&& !a.flush
                    &&& final(self).phase_spec() == Phase::Draining
                    &&& final(self).last_save_spec() == old(self).last_save_spec()
                }
                &&& mode_spec(c.mode@) != Mode::Kill ==> {
                    &&& final(self).phase_spec() == old(self).phase_spec()
                    &&& a.flush == (now >= old(self).last_save_spec() && now - old(self).last_save_spec() > SAVE_INTERVAL)
                    &&& final(self).last_save_spec() == if a.flush { now } else { old(self).last_save_spec() }
                }
            },
    {
        if self.phase != Phase::Running && self.phase != Phase::Draining {
            return Action { reply: None, flush: false };
        }
        let mode = c.mode();
        let reply = match mode {
            Mode::History => {
                let g = self.store.guess(c.s.as_str(), &c.pwd);
                let r = reversed(&g);
                proof {
                    let s = choose|s: Seq<EntryView>|
                        s.to_multiset() == #[trigger] prefix_spec(self.store@, c.s@).to_multiset()
                            && ranked(s, c.pwd@) && strings_view(g@) == keys_of(s);
                    assert(strings_view(r@) =~= keys_of(s).reverse());
                }
                Some(r)
            },
            Mode::Save => {
                self.store.record(c.s, c.pwd, now);
                Some(Vec::new())
            },
            Mode::Kill => {
                self.phase = Phase::Draining;
                None
            },
            Mode::Path | Mode::Other => Some(Vec::new()),
        };
        let mut flush = false;
        if mode != Mode::Kill && now >= self.last_save && now - self.last_save > SAVE_INTERVAL {
            flush = true;
            self.last_save = now;
        }
        Action { reply, flush }
    }

    /// The records of the items changed since they were last written out.
    pub fn pending(&self) -> (r: Vec<HistoryRecord>)
        ensures
            crate::history::records_view(r@) == dirty_spec(self.history()),
    {
        self.store.dirty_records()
    }

    /// Notes that the record of `cmd` was written out.
    pub fn saved(&mut self, cmd: &String)
        requires
            old(self).wf(),
        ensures
            final(self).wf(),
            final(self).history() == clean_spec(old(self).history(), cmd@),
            final(self).phase_spec() == old(self).phase_spec(),
            final(self).last_save_spec() == old(self).last_save_spec(),
    {
        self.store.mark_saved(cmd);
    }

    /// Ends the manager after its final write-out.
    pub fn finish(&mut self)
        ensures
            final(self).phase_spec() == Phase::Stopped,
            final(self).history() == old(self).history(),
            final(self).wf() == old(self).wf(),
    {
        self.phase = Phase::Stopped;
    }
}

} // verus!
