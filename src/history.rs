//! The in-memory history index: one entry per distinct command, kept in
//! ascending key order, with usage metadata for ranking and persistence.
use vstd::prelude::*;
use crate::text::{chars_of, key_lt, key_less, lemma_key_lt_irreflexive, lemma_key_lt_total, lemma_key_lt_transitive, starts_with};

verus! {

/// Usage metadata of one command.
#[derive(Debug)]
pub struct HistoryItem {
    /// Working directories the command ran in, without repetitions.
    pub pwds: Vec<String>,
    /// Last use, in seconds since the Unix epoch.
    pub time: u64,
    /// Number of uses.
    pub hits: u64,
    /// Set when the item changed since it was last written out.
    pub changed: bool,
}

/// Mathematical view of a `HistoryItem`.
pub struct ItemView {
    pub pwds: Seq<Seq<char>>,
    pub time: u64,
    pub hits: u64,
    pub changed: bool,
}

pub open spec fn strings_view(v: Seq<String>) -> Seq<Seq<char>> {
    v.map_values(|s: String| s@)
}

impl View for HistoryItem {
    type V = ItemView;

    open spec fn view(&self) -> ItemView {
        ItemView { pwds: strings_view(self.pwds@), time: self.time, hits: self.hits, changed: self.changed }
    }
}

/// One entry of the index: a command and its metadata.
pub type EntryView = (Seq<char>, ItemView);

pub open spec fn entries_view(v: Seq<(String, HistoryItem)>) -> Seq<EntryView> {
    v.map_values(|e: (String, HistoryItem)| (e.0@, e.1@))
}

/// The item of a command run for the first time.
pub open spec fn fresh_item(pwd: Seq<char>, now: u64) -> ItemView {
    ItemView { pwds: seq![pwd], time: now, hits: 1, changed: true }
}

/// The item after one more use of its command in `pwd` at `now`; the hit
/// count stops at `u64::MAX`.
pub open spec fn touched_item(it: ItemView, pwd: Seq<char>, now: u64) -> ItemView {
    ItemView {
        pwds: if it.pwds.contains(pwd) { it.pwds } else { it.pwds.push(pwd) },
        time: now,
        hits: if it.hits < u64::MAX { (it.hits + 1) as u64 } else { it.hits },
        changed: true,
    }
}

/// Keys strictly ascending.
pub open spec fn sorted_keys(s: Seq<EntryView>) -> bool {
    forall|i: int, j: int| 0 <= i < j < s.len() ==> key_lt(#[trigger] s[i].0, #[trigger] s[j].0)
}

pub open spec fn unique_keys(s: Seq<EntryView>) -> bool {
    forall|i: int, j: int| 0 <= i < s.len() && 0 <= j < s.len() && i != j ==> #[trigger] s[i].0 != #[trigger] s[j].0
}

/// The number of keys below `k`: where `k` stands or would be inserted.
pub open spec fn position(s: Seq<EntryView>, k: Seq<char>) -> nat
    decreases s.len(),
{
    if s.len() == 0 {
        0
    } else {
        position(s.drop_last(), k) + if key_lt(s.last().0, k) { 1nat } else { 0nat }
    }
}

/// The item stored under `k` (the last one, should there be several).
pub open spec fn lookup(s: Seq<EntryView>, k: Seq<char>) -> Option<ItemView>
    decreases s.len(),
{
    if s.len() == 0 {
        None
    } else if s.last().0 == k {
        Some(s.last().1)
    } else {
        lookup(s.drop_last(), k)
    }
}

/// The index with `v` stored under `k`, in place of any earlier item.
pub open spec fn put(s: Seq<EntryView>, k: Seq<char>, v: ItemView) -> Seq<EntryView> {
    let p = position(s, k) as int;
    if p < s.len() && s[p].0 == k {
        s.update(p, (k, v))
    } else {
        s.insert(p, (k, v))
    }
}

/// The index after a use of command `k` in `pwd` at `now`.
pub open spec fn record_spec(s: Seq<EntryView>, k: Seq<char>, pwd: Seq<char>, now: u64) -> Seq<EntryView> {
    put(s, k, match lookup(s, k) {
        Some(it) => touched_item(it, pwd, now),
        None => fresh_item(pwd, now),
    })
}


/// Whether `c` has a successor code point that is itself a character.
pub open spec fn has_successor(c: char) -> bool {
    c != '\u{D7FF}' && c != '\u{10FFFF}'
}

/// The entries of `s` whose key starts with `p`, in the order of `s`.
pub open spec fn matching(s: Seq<EntryView>, p: Seq<char>) -> Seq<EntryView>
    decreases s.len(),
{
    if s.len() == 0 {
        seq![]
    } else if p.is_prefix_of(s.last().0) {
        matching(s.drop_last(), p).push(s.last())
    } else {
        matching(s.drop_last(), p)
    }
}

/// The entries in the key range from `p` up to `p` with its last character
/// raised by one code point: the keys that start with `p`. The whole index
/// for an empty `p`; nothing where that last character has no successor.
pub open spec fn prefix_spec(s: Seq<EntryView>, p: Seq<char>) -> Seq<EntryView> {
    if p.len() > 0 && !has_successor(p.last()) {
        seq![]
    } else {
        matching(s, p)
    }
}

/// Points added to a candidate's score for having been used in the query's
/// working directory, and to the more recently used of two compared candidates.
pub const BONUS: u64 = 10;

/// Hits, plus `BONUS` if the item was used in `pwd`.
pub open spec fn base_score(it: ItemView, pwd: Seq<char>) -> int {
    it.hits as int + if it.pwds.contains(pwd) { BONUS as int } else { 0 }
}

/// Whether `a` scores above `b` when the two are compared for `pwd`: each has
/// its base score, and the one with the strictly later time gets `BONUS` more.
pub open spec fn outranks(a: ItemView, b: ItemView, pwd: Seq<char>) -> bool {
    base_score(a, pwd) + (if a.time > b.time { BONUS as int } else { 0 })
        > base_score(b, pwd) + (if b.time > a.time { BONUS as int } else { 0 })
}

/// Ascending under the pairwise comparison: no entry outranks the next one.
pub open spec fn ranked(s: Seq<EntryView>, pwd: Seq<char>) -> bool {
    forall|i: int| 0 < i < s.len() ==> !outranks(s[i - 1].1, #[trigger] s[i].1, pwd)
}

pub open spec fn keys_of(s: Seq<EntryView>) -> Seq<Seq<char>> {
    s.map_values(|e: EntryView| e.0)
}

/// Every entry that a prefix query returns has a key that starts with the query.
pub proof fn lemma_matching_prefix(s: Seq<EntryView>, p: Seq<char>)
    ensures
        forall|i: int| 0 <= i < matching(s, p).len() ==> p.is_prefix_of(#[trigger] matching(s, p)[i].0),
    decreases s.len(),
{
    if s.len() > 0 {
        let m = matching(s.drop_last(), p);
        lemma_matching_prefix(s.drop_last(), p);
        assert forall|i: int| 0 <= i < matching(s, p).len() implies p.is_prefix_of(#[trigger] matching(s, p)[i].0) by {
            if i < m.len() {
                assert(matching(s, p)[i] == m[i]);
            }
        }
    }
}

/// A prefix query never returns an entry keyed by a command that does not
/// start with the query text; so of two commands with no common start,
/// a query for one never yields the other.
pub proof fn lemma_prefix_query_excludes(s: Seq<EntryView>, query: Seq<char>, other: Seq<char>)
    requires
        !query.is_prefix_of(other),
    ensures
        forall|i: int| 0 <= i < prefix_spec(s, query).len() ==> #[trigger] prefix_spec(s, query)[i].0 != other,
{
    lemma_matching_prefix(s, query);
}

/// A prefix query for the empty text returns the whole index, in order.
pub proof fn lemma_prefix_query_empty(s: Seq<EntryView>)
    ensures
        prefix_spec(s, Seq::<char>::empty()) == s,
    decreases s.len(),
{
    if s.len() > 0 {
        lemma_prefix_query_empty(s.drop_last());
        assert(Seq::<char>::empty().is_prefix_of(s.last().0));
        assert(s.drop_last().push(s.last()) =~= s);
    }
}


/// Durable form of one item: the command, its directories, last use in
/// seconds since the Unix epoch, and hit count.
#[derive(Debug)]
pub struct HistoryRecord {
    pub cmd: String,
    pub pwds: Vec<String>,
    pub time: u64,
    pub hits: u64,
}

pub struct RecordView {
    pub cmd: Seq<char>,
    pub pwds: Seq<Seq<char>>,
    pub time: u64,
    pub hits: u64,
}

impl View for HistoryRecord {
    type V = RecordView;

    open spec fn view(&self) -> RecordView {
        RecordView { cmd: self.cmd@, pwds: strings_view(self.pwds@), time: self.time, hits: self.hits }
    }
}

pub open spec fn records_view(v: Seq<HistoryRecord>) -> Seq<RecordView> {
    v.map_values(|r: HistoryRecord| r@)
}

/// The record written for command `k` with item `it`.
pub open spec fn record_of(k: Seq<char>, it: ItemView) -> RecordView {
    RecordView { cmd: k, pwds: it.pwds, time: it.time, hits: it.hits }
}

/// The item a loaded record becomes: unchanged since it is on disk.
pub open spec fn item_of(r: RecordView) -> ItemView {
    ItemView { pwds: r.pwds, time: r.time, hits: r.hits, changed: false }
}

/// The records of the changed entries, in key order.
pub open spec fn dirty_spec(s: Seq<EntryView>) -> Seq<RecordView>
    decreases s.len(),
{
    if s.len() == 0 {
        seq![]
    } else if s.last().1.changed {
        dirty_spec(s.drop_last()).push(record_of(s.last().0, s.last().1))
    } else {
        dirty_spec(s.drop_last())
    }
}

/// The index after loading `recs` in order: a later record of a command
/// replaces an earlier one.
pub open spec fn load_spec(s: Seq<EntryView>, recs: Seq<RecordView>) -> Seq<EntryView>
    decreases recs.len(),
{
    if recs.len() == 0 {
        s
    } else {
        put(load_spec(s, recs.drop_last()), recs.last().cmd, item_of(recs.last()))
    }
}

/// The index with the entry of `k`, if any, marked as written out.
pub open spec fn clean_spec(s: Seq<EntryView>, k: Seq<char>) -> Seq<EntryView> {
    match lookup(s, k) {
        Some(it) => put(s, k, ItemView { changed: false, ..it }),
        None => s,
    }
}

/// The last record of command `k` in `recs`.
pub open spec fn last_with(recs: Seq<RecordView>, k: Seq<char>) -> Option<RecordView>
    decreases recs.len(),
{
    if recs.len() == 0 {
        None
    } else if recs.last().cmd == k {
        Some(recs.last())
    } else {
        last_with(recs.drop_last(), k)
    }
}


pub open spec fn files_view(fs: Seq<Option<Vec<HistoryRecord>>>) -> Seq<Option<Seq<RecordView>>> {
    fs.map_values(|f: Option<Vec<HistoryRecord>>| match f {
        Some(v) => Some(records_view(v@)),
        None => None,
    })
}

/// The index after loading the files of `fs` in order, skipping those that
/// could not be read (`None`).
pub open spec fn load_files_spec(s: Seq<EntryView>, fs: Seq<Option<Seq<RecordView>>>) -> Seq<EntryView>
    decreases fs.len(),
{
    if fs.len() == 0 {
        s
    } else {
        match fs.last() {
            Some(recs) => load_spec(load_files_spec(s, fs.drop_last()), recs),
            None => load_files_spec(s, fs.drop_last()),
        }
    }
}

/// Two uses of a command new to the index, in `pwd_a` at `t1` and then in
/// `pwd_b` at `t2`, leave it with two hits, both directories, and time `t2`.
pub proof fn lemma_record_twice(s: Seq<EntryView>, c: Seq<char>, pwd_a: Seq<char>, pwd_b: Seq<char>, t1: u64, t2: u64)
    requires
        sorted_keys(s),
        lookup(s, c) is None,
    ensures
        lookup(record_spec(record_spec(s, c, pwd_a, t1), c, pwd_b, t2), c) is Some,
        ({
            let it = lookup(record_spec(record_spec(s, c, pwd_a, t1), c, pwd_b, t2), c)->Some_0;
            &&& it.hits == 2
            &&& it.pwds.to_set() == set![pwd_a, pwd_b]
            &&& it.time == t2
        }),
{
    lemma_put(s, c, fresh_item(pwd_a, t1));
    let s1 = record_spec(s, c, pwd_a, t1);
    let it1 = fresh_item(pwd_a, t1);
    assert(lookup(s1, c) == Some(it1));
    lemma_put(s1, c, touched_item(it1, pwd_b, t2));
    let it2 = touched_item(it1, pwd_b, t2);
    if it1.pwds.contains(pwd_b) {
        assert(pwd_b == pwd_a) by {
            let j = choose|j: int| 0 <= j < it1.pwds.len() && it1.pwds[j] == pwd_b;
        }
        assert(it2.pwds.to_set() =~= set![pwd_a, pwd_b]) by {
            assert(it2.pwds.to_set().contains(pwd_a)) by {
                assert(it2.pwds[0] == pwd_a);
            }
        }
    } else {
        assert(it2.pwds =~= seq![pwd_a, pwd_b]);
        assert(it2.pwds.to_set() =~= set![pwd_a, pwd_b]) by {
            assert(it2.pwds[0] == pwd_a);
            assert(it2.pwds[1] == pwd_b);
        }
    }
}

/// Of two candidates with equal hits, only the first of which was used in
/// `pwd`, the first ends up after the second in every ranked order of the
/// two, provided the second is not the more recent one (if it is, the two
/// bonuses cancel out and the scores tie).
pub proof fn lemma_rank_prefers_pwd(a: EntryView, b: EntryView, pwd: Seq<char>, r: Seq<EntryView>)
    requires
        a.1.hits == b.1.hits,
        a.1.pwds.contains(pwd),
        !b.1.pwds.contains(pwd),
        b.1.time <= a.1.time,
        r.to_multiset() == seq![a, b].to_multiset(),
        ranked(r, pwd),
    ensures
        r == seq![b, a],
{
    let ab = seq![a, b];
    assert(a != b);
    vstd::seq_lib::to_multiset_len(r);
    vstd::seq_lib::to_multiset_len(ab);
    assert(ab =~= seq![a].push(b));
    vstd::seq_lib::to_multiset_build(seq![a], b);
    assert(seq![a] =~= Seq::<EntryView>::empty().push(a));
    vstd::seq_lib::to_multiset_build(Seq::<EntryView>::empty(), a);
    Seq::<EntryView>::empty().to_multiset_ensures();
    assert(r.len() == 2);
    assert(r =~= seq![r[0]].push(r[1]));
    assert(seq![r[0]] =~= Seq::<EntryView>::empty().push(r[0]));
    vstd::seq_lib::to_multiset_build(seq![r[0]], r[1]);
    vstd::seq_lib::to_multiset_build(Seq::<EntryView>::empty(), r[0]);
    assert(outranks(a.1, b.1, pwd));
    assert(r.to_multiset().count(a) == 1);
    assert(r.to_multiset().count(b) == 1);
    if r[0] == a {
        assert(r[1] == b);
        assert(!outranks(r[0].1, r[1].1, pwd));
    } else {
        assert(r[0] == b);
        assert(r[1] == a);
    }
}

proof fn lemma_load_lookup(s: Seq<EntryView>, recs: Seq<RecordView>, k: Seq<char>)
    requires
        sorted_keys(s),
    ensures
        sorted_keys(load_spec(s, recs)),
        lookup(load_spec(s, recs), k) == match last_with(recs, k) {
            Some(r) => Some(item_of(r)),
            None => lookup(s, k),
        },
    decreases recs.len(),
{
    if recs.len() > 0 {
        lemma_load_lookup(s, recs.drop_last(), k);
        lemma_put(load_spec(s, recs.drop_last()), recs.last().cmd, item_of(recs.last()));
    }
}

proof fn lemma_dirty_last(s: Seq<EntryView>, k: Seq<char>)
    requires
        unique_keys(s),
    ensures
        last_with(dirty_spec(s), k) == match lookup(s, k) {
            Some(it) => if it.changed { Some(record_of(k, it)) } else { None },
            None => None,
        },
    decreases s.len(),
{
    if s.len() > 0 {
        let d = s.drop_last();
        assert(unique_keys(d));
        lemma_dirty_last(d, k);
        if s.last().1.changed {
            let x = dirty_spec(d).push(record_of(s.last().0, s.last().1));
            assert(x.drop_last() =~= dirty_spec(d));
        }
        if s.last().0 == k {
            assert forall|i: int| 0 <= i < d.len() implies (#[trigger] d[i]).0 != k by {
                assert(s[i].0 != s[s.len() - 1].0);
            }
            lemma_lookup_absent(d, k);
        }
    }
}

/// Writing out the changed entries and loading the written records into an
/// empty index gives back exactly the changed commands, each with its
/// directories, time and hit count.
pub proof fn lemma_round_trip(s: Seq<EntryView>)
    requires
        sorted_keys(s),
    ensures
        sorted_keys(load_spec(Seq::<EntryView>::empty(), dirty_spec(s))),
        forall|k: Seq<char>| #[trigger] lookup(load_spec(Seq::<EntryView>::empty(), dirty_spec(s)), k) == match lookup(s, k) {
            Some(it) => if it.changed { Some(ItemView { changed: false, ..it }) } else { None },
            None => None,
        },
{
    lemma_sorted_unique(s);
    assert(sorted_keys(Seq::<EntryView>::empty()));
    lemma_load_lookup(Seq::<EntryView>::empty(), dirty_spec(s), Seq::<char>::empty());
    assert forall|k: Seq<char>| #[trigger] lookup(load_spec(Seq::<EntryView>::empty(), dirty_spec(s)), k) == match lookup(s, k) {
        Some(it) => if it.changed { Some(ItemView { changed: false, ..it }) } else { None },
        None => None,
    } by {
        lemma_load_lookup(Seq::<EntryView>::empty(), dirty_spec(s), k);
        lemma_dirty_last(s, k);
    }
}


/// A key that starts with `p` is not below `p`.
proof fn lemma_prefix_not_below(k: Seq<char>, p: Seq<char>)
    requires
        p.is_prefix_of(k),
    ensures
        !key_lt(k, p),
    decreases p.len(),
{
    if p.len() > 0 {
        assert(k[0] == p[0]);
        assert(p.drop_first().is_prefix_of(k.drop_first())) by {
            assert forall|i: int| 0 <= i < p.drop_first().len() implies p.drop_first()[i] == k.drop_first()[i] by {
                assert(p[i + 1] == k[i + 1]);
            }
        }
        lemma_prefix_not_below(k.drop_first(), p.drop_first());
    }
}

/// Between `p` and a key that starts with `p`, every key starts with `p`.
proof fn lemma_prefix_between(a: Seq<char>, b: Seq<char>, p: Seq<char>)
    requires
        !key_lt(a, p),
        key_lt(a, b),
        p.is_prefix_of(b),
    ensures
        p.is_prefix_of(a),
    decreases p.len(),
{
    if p.len() > 0 {
        assert(b[0] == p[0]);
        if a[0] != p[0] {
            lemma_key_lt_transitive(a, b, a);
            lemma_key_lt_irreflexive(a);
        } else {
            assert(p.drop_first().is_prefix_of(b.drop_first())) by {
                assert forall|i: int| 0 <= i < p.drop_first().len() implies p.drop_first()[i] == b.drop_first()[i] by {
                    assert(p[i + 1] == b[i + 1]);
                }
            }
            lemma_prefix_between(a.drop_first(), b.drop_first(), p.drop_first());
            assert forall|i: int| 0 <= i < p.len() implies p[i] == a[i] by {
                if i > 0 {
                    assert(p.drop_first()[i - 1] == a.drop_first()[i - 1]);
                }
            }
        }
    }
}

/// Where exactly the entries in `[a, b)` have keys that start with `p`,
/// those entries are what `matching` keeps.
proof fn lemma_matching_block(s: Seq<EntryView>, p: Seq<char>, a: int, b: int)
    requires
        0 <= a <= b <= s.len(),
        forall|j: int| 0 <= j < s.len() ==> ((a <= j < b) == p.is_prefix_of(#[trigger] s[j].0)),
    ensures
        matching(s, p) == s.subrange(a, b),
    decreases s.len(),
{
    if s.len() > 0 {
        let d = s.drop_last();
        let n = d.len() as int;
        assert(forall|j: int| 0 <= j < d.len() ==> d[j] == s[j]);
        if b == s.len() && a < b {
            assert(p.is_prefix_of(s[n].0));
            lemma_matching_block(d, p, a, n);
            assert(d.subrange(a, n).push(s.last()) =~= s.subrange(a, b));
        } else {
            assert(!p.is_prefix_of(s[n].0));
            let a2 = if a > n { n } else { a };
            let b2 = if b > n { n } else { b };
            lemma_matching_block(d, p, a2, b2);
            assert(d.subrange(a2, b2) =~= s.subrange(a, b));
        }
    }
}


/// Whether the record `r` sits in one of the files of `fs` that were read.
pub open spec fn written_in(fs: Seq<Option<Seq<RecordView>>>, r: RecordView) -> bool {
    exists|i: int| 0 <= i < fs.len() && (#[trigger] fs[i]) is Some && fs[i]->Some_0.contains(r)
}

proof fn lemma_load_files_lookup(fs: Seq<Option<Seq<RecordView>>>, k: Seq<char>)
    ensures
        sorted_keys(load_files_spec(Seq::<EntryView>::empty(), fs)),
        lookup(load_files_spec(Seq::<EntryView>::empty(), fs), k) is None <==> !exists|i: int, j: int|
            0 <= i < fs.len() && (#[trigger] fs[i]) is Some && 0 <= j < fs[i]->Some_0.len() && (#[trigger] fs[i]->Some_0[j]).cmd == k,
        lookup(load_files_spec(Seq::<EntryView>::empty(), fs), k) matches Some(it) ==> exists|r: RecordView|
            r.cmd == k && it == item_of(r) && #[trigger] written_in(fs, r),
    decreases fs.len(),
{
    if fs.len() == 0 {
        assert(sorted_keys(Seq::<EntryView>::empty()));
    } else {
        let d = fs.drop_last();
        lemma_load_files_lookup(d, k);
        let t = load_files_spec(Seq::<EntryView>::empty(), d);
        assert forall|i: int| 0 <= i < d.len() implies d[i] == fs[i] by {}
        match fs.last() {
            Some(recs) => {
                lemma_load_lookup(t, recs, k);
                lemma_last_with(recs, k);
                if last_with(recs, k) is Some {
                    let r = last_with(recs, k)->Some_0;
                    let j = choose|j: int| 0 <= j < recs.len() && recs[j] == r;
                    assert(fs[fs.len() - 1] is Some && fs[fs.len() - 1]->Some_0.contains(r));
                    assert(written_in(fs, r));
                    assert(fs[fs.len() - 1]->Some_0[j].cmd == k);
                } else {
                    if let Some(it) = lookup(t, k) {
                        let r = choose|r: RecordView| r.cmd == k && it == item_of(r) && #[trigger] written_in(d, r);
                        let i = choose|i: int| 0 <= i < d.len() && (#[trigger] d[i]) is Some && d[i]->Some_0.contains(r);
                        assert(fs[i] == d[i]);
                        assert(written_in(fs, r));
                    }
                    assert forall|i: int, j: int| 0 <= i < fs.len() && (#[trigger] fs[i]) is Some && 0 <= j < fs[i]->Some_0.len()
                        && (#[trigger] fs[i]->Some_0[j]).cmd == k implies i < d.len() by {
                        if i == fs.len() - 1 {
                            assert(recs[j].cmd == k);
                        }
                    }
                    if lookup(t, k) is None {
                        assert forall|i: int, j: int| 0 <= i < fs.len() && (#[trigger] fs[i]) is Some && 0 <= j < fs[i]->Some_0.len()
                            implies (#[trigger] fs[i]->Some_0[j]).cmd != k by {
                            if i == fs.len() - 1 {
                                assert(recs[j].cmd != k);
                            } else {
                                assert(d[i] == fs[i]);
                            }
                        }
                    } else {
                        let i0 = choose|i: int, j: int| 0 <= i < d.len() && (#[trigger] d[i]) is Some && 0 <= j < d[i]->Some_0.len()
                            && (#[trigger] d[i]->Some_0[j]).cmd == k;
                        assert(fs[i0.0] == d[i0.0]);
                    }
                }
            },
            None => {
                if let Some(it) = lookup(t, k) {
                    let r = choose|r: RecordView| r.cmd == k && it == item_of(r) && #[trigger] written_in(d, r);
                    let i = choose|i: int| 0 <= i < d.len() && (#[trigger] d[i]) is Some && d[i]->Some_0.contains(r);
                    assert(fs[i] == d[i]);
                    assert(written_in(fs, r));
                    let j = choose|j: int| 0 <= j < d[i]->Some_0.len() && d[i]->Some_0[j] == r;
                    assert(fs[i]->Some_0[j].cmd == k);
                } else {
                    assert forall|i: int, j: int| 0 <= i < fs.len() && (#[trigger] fs[i]) is Some && 0 <= j < fs[i]->Some_0.len()
                        implies (#[trigger] fs[i]->Some_0[j]).cmd != k by {
                        if i < d.len() {
                            assert(d[i] == fs[i]);
                        }
                    }
                }
            },
        }
    }
}

proof fn lemma_last_with(recs: Seq<RecordView>, k: Seq<char>)
    ensures
        last_with(recs, k) is None <==> forall|j: int| 0 <= j < recs.len() ==> (#[trigger] recs[j]).cmd != k,
        last_with(recs, k) matches Some(r) ==> r.cmd == k && recs.contains(r),
    decreases recs.len(),
{
    if recs.len() > 0 {
        let d = recs.drop_last();
        lemma_last_with(d, k);
        assert forall|j: int| 0 <= j < d.len() implies d[j] == recs[j] by {}
        if recs.last().cmd != k {
            if let Some(r) = last_with(d, k) {
                let j = choose|j: int| 0 <= j < d.len() && d[j] == r;
                assert(recs[j] == r);
            }
        } else {
            assert(recs[recs.len() - 1] == recs.last());
        }
    }
}

proof fn lemma_dirty_member(s: Seq<EntryView>, r: RecordView)
    requires
        unique_keys(s),
        dirty_spec(s).contains(r),
    ensures
        lookup(s, r.cmd) matches Some(it) && it.changed && r == record_of(r.cmd, it),
    decreases s.len(),
{
    let d = s.drop_last();
    assert(unique_keys(d));
    if s.last().1.changed && r == record_of(s.last().0, s.last().1) {
    } else {
        if s.last().1.changed {
            let x = dirty_spec(d).push(record_of(s.last().0, s.last().1));
            let j = choose|j: int| 0 <= j < x.len() && x[j] == r;
            assert(j < dirty_spec(d).len());
            assert(dirty_spec(d).contains(r));
        }
        lemma_dirty_member(d, r);
        assert forall|i: int| 0 <= i < d.len() implies (#[trigger] d[i]).0 != s.last().0 by {
            assert(s[i].0 != s[s.len() - 1].0);
        }
        if s.last().0 == r.cmd {
            lemma_lookup_absent(d, r.cmd);
        }
    }
}

/// Writing out the changed entries to any number of files and loading some
/// of those files, oldest first, into an empty index gives back exactly the
/// changed commands whose record sits in a loaded file, each with its
/// directories, time and hit count; files that could not be read (`None`)
/// add nothing.
pub proof fn lemma_round_trip_files(s: Seq<EntryView>, fs: Seq<Option<Seq<RecordView>>>)
    requires
        sorted_keys(s),
        forall|i: int, r: RecordView| 0 <= i < fs.len() && (#[trigger] fs[i]) is Some && fs[i]->Some_0.contains(r)
            ==> #[trigger] dirty_spec(s).contains(r),
    ensures
        sorted_keys(load_files_spec(Seq::<EntryView>::empty(), fs)),
        forall|k: Seq<char>| #[trigger] lookup(load_files_spec(Seq::<EntryView>::empty(), fs), k) == match lookup(s, k) {
            Some(it) => if it.changed && written_in(fs, record_of(k, it)) { Some(ItemView { changed: false, ..it }) } else { None },
            None => None,
        },
{
    lemma_sorted_unique(s);
    lemma_load_files_lookup(fs, Seq::<char>::empty());
    let l = load_files_spec(Seq::<EntryView>::empty(), fs);
    assert forall|k: Seq<char>| #[trigger] lookup(l, k) == match lookup(s, k) {
        Some(it) => if it.changed && written_in(fs, record_of(k, it)) { Some(ItemView { changed: false, ..it }) } else { None },
        None => None,
    } by {
        lemma_load_files_lookup(fs, k);
        if let Some(it) = lookup(l, k) {
            let r = choose|r: RecordView| r.cmd == k && it == item_of(r) && #[trigger] written_in(fs, r);
            let i = choose|i: int| 0 <= i < fs.len() && (#[trigger] fs[i]) is Some && fs[i]->Some_0.contains(r);
            assert(dirty_spec(s).contains(r));
            lemma_dirty_member(s, r);
        } else {
            if let Some(it) = lookup(s, k) {
                if it.changed && written_in(fs, record_of(k, it)) {
                    let r = record_of(k, it);
                    let i = choose|i: int| 0 <= i < fs.len() && (#[trigger] fs[i]) is Some && fs[i]->Some_0.contains(r);
                    let j = choose|j: int| 0 <= j < fs[i]->Some_0.len() && fs[i]->Some_0[j] == r;
                    assert(fs[i]->Some_0[j].cmd == k);
                }
            }
        }
    }
}

pub proof fn lemma_sorted_unique(s: Seq<EntryView>)
    requires
        sorted_keys(s),
    ensures
        unique_keys(s),
{
    assert forall|i: int, j: int| 0 <= i < s.len() && 0 <= j < s.len() && i != j implies #[trigger] s[i].0 != #[trigger] s[j].0 by {
        if i < j {
            lemma_key_lt_irreflexive(s[i].0);
        } else {
            lemma_key_lt_irreflexive(s[j].0);
        }
    }
}

/// In a sorted index, `position` is the first index whose key is not below `k`.
pub proof fn lemma_position(s: Seq<EntryView>, k: Seq<char>, i: int)
    requires
        sorted_keys(s),
        0 <= i <= s.len(),
        forall|j: int| 0 <= j < i ==> key_lt(#[trigger] s[j].0, k),
        i < s.len() ==> !key_lt(s[i].0, k),
    ensures
        position(s, k) == i,
    decreases s.len(),
{
    if s.len() > 0 {
        let d = s.drop_last();
        assert(sorted_keys(d));
        if i == s.len() {
            lemma_position(d, k, i - 1);
            assert(key_lt(s[i - 1].0, k));
        } else {
            if i < s.len() - 1 {
                assert(key_lt(s[i].0, s[s.len() - 1].0));
                if key_lt(s.last().0, k) {
                    lemma_key_lt_transitive(s[i].0, s.last().0, k);
                }
            }
            lemma_position(d, k, i);
        }
    }
}

proof fn lemma_lookup_absent(s: Seq<EntryView>, k: Seq<char>)
    requires
        forall|i: int| 0 <= i < s.len() ==> (#[trigger] s[i]).0 != k,
    ensures
        lookup(s, k) is None,
    decreases s.len(),
{
    if s.len() > 0 {
        lemma_lookup_absent(s.drop_last(), k);
    }
}

proof fn lemma_lookup_insert(s: Seq<EntryView>, p: int, k: Seq<char>, v: ItemView, k2: Seq<char>)
    requires
        0 <= p <= s.len(),
        forall|i: int| 0 <= i < s.len() ==> (#[trigger] s[i]).0 != k,
    ensures
        lookup(s.insert(p, (k, v)), k2) == if k2 == k { Some(v) } else { lookup(s, k2) },
    decreases s.len(),
{
    let t = s.insert(p, (k, v));
    if p == s.len() {
        assert(t.drop_last() =~= s);
    } else {
        assert(t.drop_last() =~= s.drop_last().insert(p, (k, v)));
        assert(t.last() == s.last());
        lemma_lookup_insert(s.drop_last(), p, k, v, k2);
    }
}

proof fn lemma_lookup_update(s: Seq<EntryView>, p: int, k: Seq<char>, v: ItemView, k2: Seq<char>)
    requires
        0 <= p < s.len(),
        s[p].0 == k,
        unique_keys(s),
    ensures
        lookup(s.update(p, (k, v)), k2) == if k2 == k { Some(v) } else { lookup(s, k2) },
    decreases s.len(),
{
    let t = s.update(p, (k, v));
    if p == s.len() - 1 {
        assert(t.drop_last() =~= s.drop_last());
    } else {
        assert(t.drop_last() =~= s.drop_last().update(p, (k, v)));
        assert(t.last() == s.last());
        assert(s.last().0 != k);
        let d = s.drop_last();
        assert(unique_keys(d));
        lemma_lookup_update(d, p, k, v, k2);
    }
}

/// `put` keeps the keys sorted, stores `v` under `k` and leaves every other key as it was.
pub proof fn lemma_put(s: Seq<EntryView>, k: Seq<char>, v: ItemView)
    requires
        sorted_keys(s),
    ensures
        sorted_keys(put(s, k, v)),
        forall|k2: Seq<char>| #[trigger] lookup(put(s, k, v), k2) == if k2 == k { Some(v) } else { lookup(s, k2) },
        put(s, k, v).len() == if lookup(s, k) is Some { s.len() } else { s.len() + 1 },
{
    lemma_sorted_unique(s);
    let p = position(s, k) as int;
    lemma_position_split(s, k);
    if p < s.len() && s[p].0 == k {
        let t = s.update(p, (k, v));
        assert forall|i: int, j: int| 0 <= i < j < t.len() implies key_lt(#[trigger] t[i].0, #[trigger] t[j].0) by {
            assert(key_lt(s[i].0, s[j].0));
        }
        assert forall|k2: Seq<char>| #[trigger] lookup(t, k2) == if k2 == k { Some(v) } else { lookup(s, k2) } by {
            lemma_lookup_update(s, p, k, v, k2);
        }
        lemma_lookup_update(s, p, k, v, k);
        lemma_lookup_update(s, p, k, s[p].1, k);
        assert(s.update(p, (k, s[p].1)) =~= s);
    } else {
        assert forall|j: int| 0 <= j < s.len() implies (#[trigger] s[j]).0 != k by {
            if j < p {
                lemma_key_lt_irreflexive(k);
            } else {
                lemma_key_lt_total(s[p].0, k);
                if j > p {
                    lemma_key_lt_transitive(k, s[p].0, s[j].0);
                }
                lemma_key_lt_irreflexive(k);
            }
        }
        lemma_lookup_absent(s, k);
        let t = s.insert(p, (k, v));
        assert forall|i: int, j: int| 0 <= i < j < t.len() implies key_lt(#[trigger] t[i].0, #[trigger] t[j].0) by {
            if j < p {
                assert(key_lt(s[i].0, s[j].0));
            } else if j == p {
                assert(t[j].0 == k);
            } else if i < p {
                assert(t[j].0 == s[j - 1].0);
                lemma_key_lt_total(s[p].0, k);
                if j - 1 > p {
                    lemma_key_lt_transitive(k, s[p].0, s[j - 1].0);
                }
                lemma_key_lt_transitive(s[i].0, k, s[j - 1].0);
            } else if i == p {
                lemma_key_lt_total(s[p].0, k);
                if j - 1 > p {
                    lemma_key_lt_transitive(k, s[p].0, s[j - 1].0);
                }
            } else {
                assert(key_lt(s[i - 1].0, s[j - 1].0));
            }
        }
        assert forall|k2: Seq<char>| #[trigger] lookup(t, k2) == if k2 == k { Some(v) } else { lookup(s, k2) } by {
            lemma_lookup_insert(s, p, k, v, k2);
        }
    }
}

/// The keys of a sorted index split at `position`: those before are below `k`,
/// those after are not.
pub proof fn lemma_position_split(s: Seq<EntryView>, k: Seq<char>)
    requires
        sorted_keys(s),
    ensures
        position(s, k) <= s.len(),
        forall|j: int| 0 <= j < position(s, k) ==> key_lt(#[trigger] s[j].0, k),
        forall|j: int| position(s, k) <= j < s.len() ==> !key_lt(#[trigger] s[j].0, k),
    decreases s.len(),
{
    if s.len() > 0 {
        let d = s.drop_last();
        assert(sorted_keys(d));
        lemma_position_split(d, k);
        let p = position(d, k) as int;
        if key_lt(s.last().0, k) {
            assert forall|j: int| 0 <= j < s.len() implies key_lt(#[trigger] s[j].0, k) by {
                if j < s.len() - 1 {
                    assert(key_lt(s[j].0, s.last().0));
                    lemma_key_lt_transitive(s[j].0, s.last().0, k);
                }
            }
            if p < d.len() {
                assert(d[p] == s[p]);
                assert(key_lt(s[p].0, k));
            }
        } else {
            assert forall|j: int| 0 <= j < position(s, k) implies key_lt(#[trigger] s[j].0, k) by {
                assert(d[j] == s[j]);
            }
            assert forall|j: int| position(s, k) <= j < s.len() implies !key_lt(#[trigger] s[j].0, k) by {
                if j < s.len() - 1 {
                    assert(d[j] == s[j]);
                }
            }
        }
    }
}


/// Decides whether `v` holds a string equal to `s`.
fn contains_str(v: &Vec<String>, s: &String) -> (r: bool)
    ensures
        r == strings_view(v@).contains(s@),
{
    let mut i: usize = 0;
    while i < v.len()
        invariant
            i <= v@.len(),
            forall|j: int| 0 <= j < i ==> v@[j]@ != s@,
        decreases v@.len() - i,
    {
        if v[i] == *s {
            assert(strings_view(v@)[i as int] == s@);
            return true;
        }
        i = i + 1;
    }
    assert(!strings_view(v@).contains(s@)) by {
        if strings_view(v@).contains(s@) {
            let j = choose|j: int| 0 <= j < strings_view(v@).len() && strings_view(v@)[j] == s@;
            assert(v@[j]@ == s@);
        }
    }
    false
}

/// A copy of `v`, string by string.
pub(crate) fn copy_strings(v: &Vec<String>) -> (r: Vec<String>)
    ensures
        r@ == v@,
{
    let mut r: Vec<String> = Vec::new();
    let mut i: usize = 0;
    while i < v.len()
        invariant
            i <= v@.len(),
            r@ == v@.subrange(0, i as int),
        decreases v@.len() - i,
    {
        r.push(v[i].clone());
        assert(r@ =~= v@.subrange(0, i + 1));
        i = i + 1;
    }
    assert(r@ =~= v@);
    r
}

impl HistoryItem {
    /// A copy of the item.
    pub fn copied(&self) -> (r: HistoryItem)
        ensures
            r@ == self@,
    {
        HistoryItem { pwds: copy_strings(&self.pwds), time: self.time, hits: self.hits, changed: self.changed }
    }

    /// One more use of the item's command, in `pwd` at `time`; the item
    /// counts as changed if it did or if `change` is set.
    fn update(&mut self, time: u64, pwd: String, change: bool)
        ensures
            final(self)@ == (ItemView { changed: old(self).changed || change, ..touched_item(old(self)@, pwd@, time) }),
    {
        self.time = time;
        if !contains_str(&self.pwds, &pwd) {
            self.pwds.push(pwd);
            assert(strings_view(self.pwds@) =~= strings_view(old(self).pwds@).push(pwd@));
        }
        if self.hits < u64::MAX {
            self.hits = self.hits + 1;
        }
        self.changed = self.changed || change;
    }
}

/// The history index: commands in strictly ascending order, each with its item.
#[derive(Debug)]
pub struct Store {
    mp: Vec<(String, HistoryItem)>,
}

impl View for Store {
    type V = Seq<EntryView>;

    closed spec fn view(&self) -> Seq<EntryView> {
        entries_view(self.mp@)
    }
}

impl Store {
    pub open spec fn wf(&self) -> bool {
        sorted_keys(self@)
    }

    /// An empty index.
    pub fn new() -> (r: Store)
        ensures
            r.wf(),
            r@ == Seq::<EntryView>::empty(),
    {
        let r = Store { mp: Vec::new() };
        assert(r@ =~= Seq::<EntryView>::empty());
        r
    }

    /// The number of distinct commands.
    pub fn len(&self) -> (r: usize)
        ensures
            r == self@.len(),
    {
        self.mp.len()
    }

    /// Where the command with characters `k` stands or would be inserted,
    /// found by binary search.
    fn position_of(&self, k: &Vec<char>) -> (r: usize)
        requires
            self.wf(),
        ensures
            r == position(self@, k@),
    {
        let mut lo: usize = 0;
        let mut hi: usize = self.mp.len();
        while lo < hi
            invariant
                hi <= self@.len(),
                lo <= hi,
                sorted_keys(self@),
                forall|j: int| 0 <= j < lo ==> key_lt(#[trigger] self@[j].0, k@),
                forall|j: int| hi <= j < self@.len() ==> !key_lt(#[trigger] self@[j].0, k@),
            decreases hi - lo,
        {
            let mid = lo + (hi - lo) / 2;
            let ek = chars_of(self.mp[mid].0.as_str());
            if key_less(&ek, k) {
                assert forall|j: int| 0 <= j < mid + 1 implies key_lt(#[trigger] self@[j].0, k@) by {
                    if j < mid {
                        lemma_key_lt_transitive(self@[j].0, self@[mid as int].0, k@);
                    }
                }
                lo = mid + 1;
            } else {
                assert forall|j: int| mid <= j < self@.len() implies !key_lt(#[trigger] self@[j].0, k@) by {
                    if j > mid && key_lt(self@[j].0, k@) {
                        lemma_key_lt_transitive(self@[mid as int].0, self@[j].0, k@);
                    }
                }
                hi = mid;
            }
        }
        proof {
            lemma_position(self@, k@, lo as int);
        }
        lo
    }

    /// Stores `item` under `cmd`, in place of any earlier item.
    fn put_item(&mut self, cmd: String, item: HistoryItem)
        requires
            old(self).wf(),
        ensures
            final(self).wf(),
            final(self)@ == put(old(self)@, cmd@, item@),
    {
        let k = chars_of(cmd.as_str());
        let p = self.position_of(&k);
        proof {
            lemma_put(self@, cmd@, item@);
            lemma_position_split(self@, cmd@);
        }
        if p < self.mp.len() && self.mp[p].0 == cmd {
            self.mp.set(p, (cmd, item));
            assert(self@ =~= old(self)@.update(p as int, (cmd@, item@)));
        } else {
            self.mp.insert(p, (cmd, item));
            assert(self@ =~= old(self)@.insert(p as int, (cmd@, item@)));
        }
    }

    /// Records a use of `cmd` in `pwd` at `now` (seconds since the Unix epoch):
    /// a new command gets one hit and `pwd`; a known one gets one more hit,
    /// the new time, and `pwd` if it lacked it. Either way it is marked changed.
    pub fn record(&mut self, cmd: String, pwd: String, now: u64)
        requires
            old(self).wf(),
        ensures
            final(self).wf(),
            final(self)@ == record_spec(old(self)@, cmd@, pwd@, now),
    {
        let k = chars_of(cmd.as_str());
        let p = self.position_of(&k);
        proof {
            lemma_position_split(self@, cmd@);
            lemma_sorted_unique(self@);
            lemma_put(self@, cmd@, fresh_item(pwd@, now));
        }
        if p < self.mp.len() && self.mp[p].0 == cmd {
            let (c, mut item) = self.mp.remove(p);
            proof {
                lemma_lookup_update(old(self)@, p as int, cmd@, item@, cmd@);
                assert(old(self)@.update(p as int, (cmd@, item@)) =~= old(self)@);
            }
            item.update(now, pwd, true);
            self.mp.insert(p, (c, item));
            assert(self@ =~= old(self)@.update(p as int, (cmd@, item@)));
        } else {
            let item = HistoryItem { pwds: vec![pwd], time: now, hits: 1, changed: true };
            assert(item@.pwds =~= seq![pwd@]);
            self.put_item(cmd, item);
        }
    }
}


/// The base score of `it` for `pwd`.
fn score(it: &HistoryItem, pwd: &String) -> (r: u128)
    ensures
        r == base_score(it@, pwd@),
{
    let mut sc: u128 = it.hits as u128;
    if contains_str(&it.pwds, pwd) {
        sc = sc + BONUS as u128;
    }
    sc
}

/// Decides `outranks(a@, b@, pwd@)`.
fn outranks_item(a: &HistoryItem, b: &HistoryItem, pwd: &String) -> (r: bool)
    ensures
        r == outranks(a@, b@, pwd@),
{
    let mut sca = score(a, pwd);
    let mut scb = score(b, pwd);
    if a.time > b.time {
        sca = sca + BONUS as u128;
    } else if a.time < b.time {
        scb = scb + BONUS as u128;
    }
    sca > scb
}

/// Inserts `x` into the ranked `r` just after the last entry that does not outrank it.
fn insert_ranked(r: &mut Vec<(String, HistoryItem)>, x: (String, HistoryItem), pwd: &String)
    requires
        ranked(entries_view(old(r)@), pwd@),
    ensures
        ranked(entries_view(final(r)@), pwd@),
        entries_view(final(r)@).to_multiset() == entries_view(old(r)@).to_multiset().insert((x.0@, x.1@)),
{
    let ghost xv = (x.0@, x.1@);
    let mut j: usize = r.len();
    let mut done = false;
    while !done && j > 0
        invariant
            r@ == old(r)@,
            j <= r@.len(),
            j < r@.len() ==> outranks(entries_view(r@)[j as int].1, xv.1, pwd@),
            done ==> j > 0 && !outranks(entries_view(r@)[j - 1].1, xv.1, pwd@),
            xv == (x.0@, x.1@),
        decreases j + (if done { 0int } else { 1int }),
    {
        if !outranks_item(&r[j - 1].1, &x.1, pwd) {
            done = true;
        } else {
            j = j - 1;
        }
    }
    let ghost s = entries_view(r@);
    r.insert(j, x);
    proof {
        assert(entries_view(r@) =~= s.insert(j as int, xv));
        vstd::seq_lib::to_multiset_insert(s, j as int, xv);
        let t = s.insert(j as int, xv);
        assert forall|i: int| 0 < i < t.len() implies !outranks(t[i - 1].1, #[trigger] t[i].1, pwd@) by {
            if i < j {
                assert(t[i - 1] == s[i - 1] && t[i] == s[i]);
            } else if i == j {
            } else if i == j + 1 {
            } else {
                assert(t[i - 1] == s[i - 2] && t[i] == s[i - 1]);
            }
        }
    }
}

/// Orders `cands` ascending under the pairwise comparison of `outranks`
/// for `pwd`: the best candidate comes last. Ties keep no particular order.
pub fn rank(cands: Vec<(String, HistoryItem)>, pwd: &String) -> (r: Vec<(String, HistoryItem)>)
    ensures
        entries_view(r@).to_multiset() == entries_view(cands@).to_multiset(),
        ranked(entries_view(r@), pwd@),
{
    let mut rest = cands;
    let mut r: Vec<(String, HistoryItem)> = Vec::new();
    proof {
        assert(entries_view(r@) =~= Seq::<EntryView>::empty());
        Seq::<EntryView>::empty().to_multiset_ensures();
        assert(entries_view(r@).to_multiset().add(entries_view(rest@).to_multiset()) =~= entries_view(cands@).to_multiset());
    }
    while rest.len() > 0
        invariant
            ranked(entries_view(r@), pwd@),
            entries_view(r@).to_multiset().add(entries_view(rest@).to_multiset()) == entries_view(cands@).to_multiset(),
        decreases rest@.len(),
    {
        let ghost before = rest@;
        let x = rest.pop().unwrap();
        let ghost xv = (x.0@, x.1@);
        let ghost mr = entries_view(r@).to_multiset();
        proof {
            assert(entries_view(before) =~= entries_view(rest@).push(xv));
            vstd::seq_lib::to_multiset_build(entries_view(rest@), xv);
        }
        insert_ranked(&mut r, x, pwd);
        proof {
            assert(entries_view(r@).to_multiset().add(entries_view(rest@).to_multiset()) =~= mr.add(entries_view(before).to_multiset()));
        }
    }
    proof {
        assert(entries_view(rest@) =~= Seq::<EntryView>::empty());
        Seq::<EntryView>::empty().to_multiset_ensures();
        assert(entries_view(r@).to_multiset() =~= entries_view(r@).to_multiset().add(entries_view(rest@).to_multiset()));
    }
    r
}

impl Store {
    /// The entries whose command starts with `cmd`, in key order: the key
    /// range from `cmd` up to `cmd` with its last character raised by one
    /// code point. Empty `cmd` gives every entry; a last character without a
    /// successor gives none.
    pub fn cmd_complete(&self, cmd: &str) -> (r: Vec<(String, HistoryItem)>)
        requires
            self.wf(),
        ensures
            entries_view(r@) == prefix_spec(self@, cmd@),
    {
        let p = chars_of(cmd);
        let mut r: Vec<(String, HistoryItem)> = Vec::new();
        if p.len() > 0 {
            let c = p[p.len() - 1];
            if c == '\u{D7FF}' || c == '\u{10FFFF}' {
                assert(entries_view(r@) =~= Seq::<EntryView>::empty());
                return r;
            }
        }
        let start = self.position_of(&p);
        proof {
            lemma_position_split(self@, cmd@);
        }
        let mut i: usize = start;
        let mut done = false;
        assert(entries_view(r@) =~= self@.subrange(start as int, start as int));
        while !done && i < self.mp.len()
            invariant
                start <= i <= self@.len(),
                p@ == cmd@,
                entries_view(r@) == self@.subrange(start as int, i as int),
                forall|j: int| start <= j < i ==> cmd@.is_prefix_of(#[trigger] self@[j].0),
                done ==> i < self@.len() && !cmd@.is_prefix_of(self@[i as int].0),
            decreases self@.len() - i + (if done { 0int } else { 1int }),
        {
            let ek = chars_of(self.mp[i].0.as_str());
            if starts_with(&ek, &p) {
                let ghost before = r@;
                r.push((self.mp[i].0.clone(), self.mp[i].1.copied()));
                assert(entries_view(r@) =~= entries_view(before).push(self@[i as int]));
                assert(self@.subrange(start as int, i + 1) =~= self@.subrange(start as int, i as int).push(self@[i as int]));
                i = i + 1;
            } else {
                done = true;
            }
        }
        proof {
            assert forall|j: int| 0 <= j < self@.len() implies ((start <= j < i) == cmd@.is_prefix_of(#[trigger] self@[j].0)) by {
                if j < start {
                    if cmd@.is_prefix_of(self@[j].0) {
                        lemma_prefix_not_below(self@[j].0, cmd@);
                    }
                } else if j > i && cmd@.is_prefix_of(self@[j].0) {
                    lemma_prefix_between(self@[i as int].0, self@[j].0, cmd@);
                }
            }
            lemma_matching_block(self@, cmd@, start as int, i as int);
        }
        r
    }

    /// The commands that start with `cmd`, ranked for `pwd`: ascending under
    /// the pairwise comparison, so the best match comes last.
    pub fn guess(&self, cmd: &str, pwd: &String) -> (r: Vec<String>)
        requires
            self.wf(),
        ensures
            exists|s: Seq<EntryView>|
                s.to_multiset() == #[trigger] prefix_spec(self@, cmd@).to_multiset() && ranked(s, pwd@)
                    && strings_view(r@) == keys_of(s),
    {
        let g = self.cmd_complete(cmd);
        let ranked_entries = rank(g, pwd);
        let mut r: Vec<String> = Vec::new();
        let mut i: usize = 0;
        while i < ranked_entries.len()
            invariant
                i <= ranked_entries@.len(),
                strings_view(r@) == keys_of(entries_view(ranked_entries@)).subrange(0, i as int),
            decreases ranked_entries@.len() - i,
        {
            let ghost before = r@;
            r.push(ranked_entries[i].0.clone());
            assert(strings_view(r@) =~= strings_view(before).push(ranked_entries@[i as int].0@));
            assert(keys_of(entries_view(ranked_entries@)).subrange(0, i + 1) =~= keys_of(entries_view(ranked_entries@)).subrange(0, i as int).push(ranked_entries@[i as int].0@));
            i = i + 1;
        }
        assert(strings_view(r@) =~= keys_of(entries_view(ranked_entries@)));
        r
    }
}


/// Relies on `SystemTime::elapsed` on `UNIX_EPOCH`: the current time in
/// whole seconds since the Unix epoch, or 0 for a clock set before it.
/// Nothing is promised of the value.
#[verifier::external_body]
fn now_secs() -> (r: u64) {
    std::time::UNIX_EPOCH.elapsed().map(|d| d.as_secs()).unwrap_or(0)
}

impl HistoryItem {
    /// The record that writes out this item as the item of `cmd`.
    pub fn saver(&self, cmd: &str) -> (r: HistoryRecord)
        ensures
            r@ == record_of(cmd@, self@),
    {
        HistoryRecord { cmd: cmd.to_owned(), pwds: copy_strings(&self.pwds), time: self.time, hits: self.hits }
    }
}

impl Store {
    /// Records a use of `cmd` in `pwd` now, by the system clock.
    pub fn push_command(&mut self, cmd: String, pwd: String)
        requires
            old(self).wf(),
        ensures
            final(self).wf(),
            exists|now: u64| final(self)@ == record_spec(old(self)@, cmd@, pwd@, now),
    {
        let now = now_secs();
        self.record(cmd, pwd, now);
    }

    /// The records of the changed entries, in key order.
    pub fn dirty_records(&self) -> (r: Vec<HistoryRecord>)
        ensures
            records_view(r@) == dirty_spec(self@),
    {
        let mut r: Vec<HistoryRecord> = Vec::new();
        let mut i: usize = 0;
        assert(records_view(r@) =~= dirty_spec(self@.subrange(0, 0)));
        while i < self.mp.len()
            invariant
                i <= self@.len(),
                records_view(r@) == dirty_spec(self@.subrange(0, i as int)),
            decreases self@.len() - i,
        {
            assert(self@.subrange(0, i + 1).drop_last() =~= self@.subrange(0, i as int));
            if self.mp[i].1.changed {
                let ghost before = r@;
                let rec = self.mp[i].1.saver(self.mp[i].0.as_str());
                r.push(rec);
                assert(records_view(r@) =~= records_view(before).push(rec@));
            }
            i = i + 1;
        }
        assert(self@.subrange(0, self@.len() as int) =~= self@);
        r
    }

    /// Marks the entry of `cmd`, if any, as written out.
    pub fn mark_saved(&mut self, cmd: &String)
        requires
            old(self).wf(),
        ensures
            final(self).wf(),
            final(self)@ == clean_spec(old(self)@, cmd@),
    {
        let k = chars_of(cmd.as_str());
        let p = self.position_of(&k);
        proof {
            lemma_position_split(self@, cmd@);
            lemma_sorted_unique(self@);
        }
        if p < self.mp.len() && self.mp[p].0 == *cmd {
            let (c, mut item) = self.mp.remove(p);
            proof {
                lemma_lookup_update(old(self)@, p as int, cmd@, item@, cmd@);
                assert(old(self)@.update(p as int, (cmd@, item@)) =~= old(self)@);
                lemma_put(old(self)@, cmd@, ItemView { changed: false, ..item@ });
            }
            item.changed = false;
            self.mp.insert(p, (c, item));
            assert(self@ =~= old(self)@.update(p as int, (cmd@, item@)));
        } else {
            proof {
                assert forall|j: int| 0 <= j < self@.len() implies (#[trigger] self@[j]).0 != cmd@ by {
                    if j < p {
                        lemma_key_lt_irreflexive(cmd@);
                    } else {
                        lemma_key_lt_total(self@[p as int].0, cmd@);
                        if j > p {
                            lemma_key_lt_transitive(cmd@, self@[p as int].0, self@[j].0);
                        }
                        lemma_key_lt_irreflexive(cmd@);
                    }
                }
                lemma_lookup_absent(self@, cmd@);
            }
        }
    }

    /// Loads `recs` in order; a record replaces any item of its command, so the
    /// last record of a command wins. Loaded items count as unchanged.
    pub fn load_records(&mut self, recs: &Vec<HistoryRecord>)
        requires
            old(self).wf(),
        ensures
            final(self).wf(),
            final(self)@ == load_spec(old(self)@, records_view(recs@)),
    {
        let mut i: usize = 0;
        assert(records_view(recs@).subrange(0, 0) =~= Seq::<RecordView>::empty());
        while i < recs.len()
            invariant
                i <= recs@.len(),
                self.wf(),
                self@ == load_spec(old(self)@, records_view(recs@).subrange(0, i as int)),
            decreases recs@.len() - i,
        {
            let rec = &recs[i];
            let item = HistoryItem { pwds: copy_strings(&rec.pwds), time: rec.time, hits: rec.hits, changed: false };
            assert(records_view(recs@).subrange(0, i + 1).drop_last() =~= records_view(recs@).subrange(0, i as int));
            self.put_item(rec.cmd.clone(), item);
            i = i + 1;
        }
        assert(records_view(recs@).subrange(0, recs@.len() as int) =~= records_view(recs@));
    }
}


impl Store {
    /// Loads the records of several files, oldest first, so that for each
    /// command the newest record wins. A file that could not be read or
    /// parsed (`None`) is skipped; the others load as usual.
    pub fn load_months(&mut self, files: &Vec<Option<Vec<HistoryRecord>>>)
        requires
            old(self).wf(),
        ensures
            final(self).wf(),
            final(self)@ == load_files_spec(old(self)@, files_view(files@)),
    {
        let mut i: usize = 0;
        assert(files_view(files@).subrange(0, 0) =~= Seq::<Option<Seq<RecordView>>>::empty());
        while i < files.len()
            invariant
                i <= files@.len(),
                self.wf(),
                self@ == load_files_spec(old(self)@, files_view(files@).subrange(0, i as int)),
            decreases files@.len() - i,
        {
            assert(files_view(files@).subrange(0, i + 1).drop_last() =~= files_view(files@).subrange(0, i as int));
            match &files[i] {
                Some(recs) => {
                    self.load_records(recs);
                },
                None => {},
            }
            i = i + 1;
        }
        assert(files_view(files@).subrange(0, files@.len() as int) =~= files_view(files@));
    }
}

} // verus!
