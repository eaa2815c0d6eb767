//! Filesystem path completion: the glob pattern for a partial path, and the
//! answer made from the paths that the pattern matched.
use vstd::prelude::*;
use crate::text::{chars_of, string_of};

verus! {

/// The answer to a path completion.
#[derive(Debug)]
pub enum Complete {
    /// The text to complete to.
    One(String),
    /// Several candidates, none of which extends the query.
    Many(Vec<String>),
    /// Nothing matched.
    Empty,
}

/// One path that the glob pattern matched, as the filesystem gave it.
#[derive(Debug)]
pub struct PathMatch {
    /// The path as text; `None` where it is not valid Unicode.
    pub text: Option<String>,
    /// The path as displayed, with invalid Unicode replaced.
    pub display: String,
    /// Whether the path is a directory.
    pub is_dir: bool,
}

/// `s` without the prefix `h`, if it has it.
pub open spec fn strip(s: Seq<char>, h: Seq<char>) -> Seq<char> {
    if h.is_prefix_of(s) { s.subrange(h.len() as int, s.len() as int) } else { s }
}

/// `s` with each space written as a backslash and a space.
pub open spec fn escape_spaces(s: Seq<char>) -> Seq<char>
    decreases s.len(),
{
    if s.len() == 0 {
        seq![]
    } else if s.last() == ' ' {
        escape_spaces(s.drop_last()) + seq!['\\', ' ']
    } else {
        escape_spaces(s.drop_last()).push(s.last())
    }
}

/// `s` with each backslash-space, read from the left, turned back into a space.
pub open spec fn unescape_spaces(s: Seq<char>) -> Seq<char>
    decreases s.len(),
{
    if s.len() == 0 {
        seq![]
    } else if s.len() >= 2 && s[0] == '\\' && s[1] == ' ' {
        seq![' '] + unescape_spaces(s.subrange(2, s.len() as int))
    } else {
        seq![s[0]] + unescape_spaces(s.subrange(1, s.len() as int))
    }
}

/// `s` without its trailing `*` characters.
pub open spec fn trim_stars(s: Seq<char>) -> Seq<char>
    decreases s.len(),
{
    if s.len() > 0 && s.last() == '*' { trim_stars(s.drop_last()) } else { s }
}

/// A matched path as the shell shows it: with the home directory `home`
/// written as `~` and spaces escaped, or as displayed where the path is not
/// valid Unicode; a directory ends in `/`.
pub open spec fn dir_slash_spec(text: Option<Seq<char>>, display: Seq<char>, is_dir: bool, home: Option<Seq<char>>) -> Seq<char> {
    let base = match text {
        Some(t) => escape_spaces(match home {
            Some(h) => seq!['~'] + strip(t, h),
            None => t,
        }),
        None => display,
    };
    if is_dir { base.push('/') } else { base }
}

pub open spec fn uses_home(src: Seq<char>) -> bool {
    src.len() > 0 && src[0] == '~'
}

/// The query with a leading `~` replaced by `home`.
pub open spec fn expand_home(src: Seq<char>, home: Seq<char>) -> Seq<char> {
    if uses_home(src) { home + src.subrange(1, src.len() as int) } else { src }
}

/// The glob pattern for a query: home expanded, spaces unescaped, trailing
/// `*` removed, and one `*` appended.
pub open spec fn pattern_spec(src: Seq<char>, home: Seq<char>) -> Seq<char> {
    trim_stars(unescape_spaces(expand_home(src, home))).push('*')
}

/// The number of leading characters on which `a` and `b` agree.
pub open spec fn agree_len(a: Seq<char>, b: Seq<char>) -> nat
    decreases a.len(),
{
    if a.len() == 0 || b.len() == 0 || a[0] != b[0] {
        0
    } else {
        1 + agree_len(a.drop_first(), b.drop_first())
    }
}

/// The length of the prefix on which every string of `v` agrees with the first.
pub open spec fn lcp_all(v: Seq<Seq<char>>) -> nat
    decreases v.len(),
{
    if v.len() <= 1 {
        if v.len() == 0 { 0 } else { v[0].len() }
    } else {
        agree_len(v[0].subrange(0, lcp_all(v.drop_last()) as int), v.last())
    }
}

/// The prefix shared by all of `v`, where it is longer than `min_len`
/// (a single string is its own prefix, whatever its length).
pub open spec fn agree_spec(v: Seq<Seq<char>>, min_len: nat) -> Option<Seq<char>> {
    if v.len() == 0 {
        None
    } else if v.len() > 1 && lcp_all(v) <= min_len {
        None
    } else {
        Some(v[0].subrange(0, lcp_all(v) as int))
    }
}

pub open spec fn formatted(ms: Seq<PathMatch>, home: Option<Seq<char>>) -> Seq<Seq<char>> {
    ms.map_values(|m: PathMatch| dir_slash_spec(
        match m.text { Some(t) => Some(t@), None => None },
        m.display@,
        m.is_dir,
        home,
    ))
}

pub open spec fn view_strings(v: Seq<String>) -> Seq<Seq<char>> {
    v.map_values(|s: String| s@)
}

proof fn lemma_agree_len_bound(a: Seq<char>, b: Seq<char>)
    ensures
        agree_len(a, b) <= a.len(),
        agree_len(a, b) <= b.len(),
        forall|i: int| 0 <= i < agree_len(a, b) ==> a[i] == b[i],
        agree_len(a, b) < a.len() && agree_len(a, b) < b.len() ==> a[agree_len(a, b) as int] != b[agree_len(a, b) as int],
    decreases a.len(),
{
    if !(a.len() == 0 || b.len() == 0 || a[0] != b[0]) {
        lemma_agree_len_bound(a.drop_first(), b.drop_first());
        assert forall|i: int| 0 <= i < agree_len(a, b) implies a[i] == b[i] by {
            if i > 0 {
                assert(a.drop_first()[i - 1] == a[i]);
                assert(b.drop_first()[i - 1] == b[i]);
            }
        }
    }
}

proof fn lemma_lcp_shrinks(v: Seq<Seq<char>>, i: int, j: int)
    requires
        1 <= i <= j <= v.len(),
    ensures
        lcp_all(v.subrange(0, j)) <= lcp_all(v.subrange(0, i)),
        lcp_all(v.subrange(0, i)) <= v[0].len(),
    decreases j,
{
    if i == 1 {
        assert(v.subrange(0, 1)[0] == v[0]);
    }
    if j > i {
        lemma_lcp_shrinks(v, i, j - 1);
        let w = v.subrange(0, j);
        assert(w.drop_last() =~= v.subrange(0, j - 1));
        assert(w[0] == v[0]);
        lemma_agree_len_bound(v[0].subrange(0, lcp_all(w.drop_last()) as int), w.last());
    } else if i > 1 {
        lemma_lcp_shrinks(v, i - 1, i - 1);
        let w = v.subrange(0, i);
        assert(w.drop_last() =~= v.subrange(0, i - 1));
        assert(w[0] == v[0]);
        lemma_agree_len_bound(v[0].subrange(0, lcp_all(w.drop_last()) as int), w.last());
    }
}

fn agree(a: &Vec<char>, max: usize, b: &Vec<char>) -> (r: usize)
    requires
        max <= a@.len(),
    ensures
        r == agree_len(a@.subrange(0, max as int), b@),
{
    let ghost sa = a@.subrange(0, max as int);
    let mut i: usize = 0;
    assert(sa.subrange(0, sa.len() as int) =~= sa);
    assert(b@.subrange(0, b@.len() as int) =~= b@);
    while i < max && i < b.len() && a[i] == b[i]
        invariant
            max <= a@.len(),
            sa == a@.subrange(0, max as int),
            i <= max,
            i <= b@.len(),
            agree_len(sa, b@) == i + agree_len(sa.subrange(i as int, sa.len() as int), b@.subrange(i as int, b@.len() as int)),
        decreases max - i,
    {
        let ghost x = sa.subrange(i as int, sa.len() as int);
        let ghost y = b@.subrange(i as int, b@.len() as int);
        assert(x.drop_first() =~= sa.subrange(i + 1, sa.len() as int));
        assert(y.drop_first() =~= b@.subrange(i + 1, b@.len() as int));
        i = i + 1;
    }
    proof {
        assert(sa.subrange(0, sa.len() as int) =~= sa);
        assert(b@.subrange(0, b@.len() as int) =~= b@);
    }
    i
}

/// The prefix on which all of `v` agree, if longer than `min_len` characters;
/// a single string is returned whole. Gives up as soon as the agreed length
/// drops to `min_len`.
pub fn all_strs_agree(v: &Vec<String>, min_len: usize) -> (r: Option<String>)
    ensures
        r matches Some(s) ==> agree_spec(view_strings(v@), min_len as nat) == Some(s@),
        r is None ==> agree_spec(view_strings(v@), min_len as nat) is None,
{
    let ghost w = view_strings(v@);
    if v.len() == 0 {
        return None;
    }
    let res = chars_of(v[0].as_str());
    let mut max: usize = res.len();
    let mut i: usize = 1;
    proof {
        assert(w.subrange(0, 1)[0] == w[0]);
    }
    while i < v.len()
        invariant
            1 <= i <= v@.len(),
            w == view_strings(v@),
            res@ == w[0],
            max == lcp_all(w.subrange(0, i as int)),
            max <= res@.len(),
            i > 1 ==> max > min_len,
        decreases v@.len() - i,
    {
        let b = chars_of(v[i].as_str());
        let ghost u = w.subrange(0, i + 1);
        proof {
            assert(u.drop_last() =~= w.subrange(0, i as int));
            assert(u[0] == w[0]);
            assert(u.last() == b@);
        }
        max = agree(&res, max, &b);
        proof {
            lemma_agree_len_bound(res@.subrange(0, lcp_all(w.subrange(0, i as int)) as int), b@);
        }
        if max <= min_len {
            proof {
                lemma_lcp_shrinks(w, i + 1, w.len() as int);
                assert(w.subrange(0, w.len() as int) =~= w);
            }
            return None;
        }
        i = i + 1;
    }
    proof {
        assert(w.subrange(0, w.len() as int) =~= w);
    }
    let mut out: Vec<char> = Vec::new();
    let mut j: usize = 0;
    while j < max
        invariant
            j <= max <= res@.len(),
            out@ == res@.subrange(0, j as int),
        decreases max - j,
    {
        out.push(res[j]);
        assert(out@ =~= res@.subrange(0, j + 1));
        j = j + 1;
    }
    Some(string_of(&out))
}

fn escape_chars(s: &Vec<char>) -> (r: Vec<char>)
    ensures
        r@ == escape_spaces(s@),
{
    let mut r: Vec<char> = Vec::new();
    let mut i: usize = 0;
    assert(s@.subrange(0, 0) =~= Seq::<char>::empty());
    while i < s.len()
        invariant
            i <= s@.len(),
            r@ == escape_spaces(s@.subrange(0, i as int)),
        decreases s@.len() - i,
    {
        assert(s@.subrange(0, i + 1).drop_last() =~= s@.subrange(0, i as int));
        let ghost before = r@;
        if s[i] == ' ' {
            r.push('\\');
            r.push(' ');
            assert(r@ =~= before + seq!['\\', ' ']);
        } else {
            r.push(s[i]);
        }
        i = i + 1;
    }
    assert(s@.subrange(0, s@.len() as int) =~= s@);
    r
}

fn unescape_chars(s: &Vec<char>) -> (r: Vec<char>)
    ensures
        r@ == unescape_spaces(s@),
{
    let mut r: Vec<char> = Vec::new();
    let mut i: usize = 0;
    assert(s@.subrange(0, s@.len() as int) =~= s@);
    while i < s.len()
        invariant
            i <= s@.len(),
            unescape_spaces(s@) == r@ + unescape_spaces(s@.subrange(i as int, s@.len() as int)),
        decreases s@.len() - i,
    {
        let ghost t = s@.subrange(i as int, s@.len() as int);
        if i + 1 < s.len() && s[i] == '\\' && s[i + 1] == ' ' {
            assert(t.subrange(2, t.len() as int) =~= s@.subrange(i + 2, s@.len() as int));
            r.push(' ');
            i = i + 2;
        } else {
            assert(t.subrange(1, t.len() as int) =~= s@.subrange(i + 1, s@.len() as int));
            r.push(s[i]);
            i = i + 1;
        }
    }
    assert(s@.subrange(i as int, s@.len() as int) =~= Seq::<char>::empty());
    assert(r@ + Seq::<char>::empty() =~= r@);
    r
}

/// The glob pattern for the query `src`, with `home` standing for a leading `~`.
pub fn glob_pattern(src: &str, home: &str) -> (r: String)
    ensures
        r@ == pattern_spec(src@, home@),
{
    let sc = chars_of(src);
    let mut s: Vec<char> = Vec::new();
    if sc.len() > 0 && sc[0] == '~' {
        s = chars_of(home);
        let mut k: usize = 1;
        while k < sc.len()
            invariant
                1 <= k <= sc@.len(),
                s@ == home@ + sc@.subrange(1, k as int),
            decreases sc@.len() - k,
        {
            s.push(sc[k]);
            assert(s@ =~= home@ + sc@.subrange(1, k + 1));
            k = k + 1;
        }
    } else {
        s = sc;
    }
    assert(s@ == expand_home(src@, home@));
    let mut u = unescape_chars(&s);
    let ghost full = u@;
    assert(full.subrange(0, full.len() as int) =~= full);
    while u.len() > 0 && u[u.len() - 1] == '*'
        invariant
            trim_stars(full) == trim_stars(u@),
        decreases u@.len(),
    {
        u.pop();
    }
    u.push('*');
    string_of(&u)
}

/// The text of a matched path as the shell shows it (see `dir_slash_spec`).
pub fn dir_slash(p: &PathMatch, td: Option<&String>) -> (r: String)
    ensures
        r@ == dir_slash_spec(
            match p.text { Some(t) => Some(t@), None => None },
            p.display@,
            p.is_dir,
            match td { Some(h) => Some(h@), None => None },
        ),
{
    let mut s: Vec<char> = match &p.text {
        Some(t) => {
            let tc = chars_of(t.as_str());
            let named: Vec<char> = match td {
                Some(hs) => {
                    let h = chars_of(hs.as_str());
                    let mut v: Vec<char> = Vec::new();
                    v.push('~');
                    let start: usize = if crate::text::starts_with(&tc, &h) { h.len() } else { 0 };
                    let mut k: usize = start;
                    while k < tc.len()
                        invariant
                            start <= k <= tc@.len(),
                            v@ == seq!['~'] + tc@.subrange(start as int, k as int),
                        decreases tc@.len() - k,
                    {
                        v.push(tc[k]);
                        assert(v@ =~= seq!['~'] + tc@.subrange(start as int, k + 1));
                        k = k + 1;
                    }
                    assert(tc@.subrange(0, tc@.len() as int) =~= tc@);
                    v
                },
                None => tc,
            };
            escape_chars(&named)
        },
        None => chars_of(p.display.as_str()),
    };
    if p.is_dir {
        s.push('/');
    }
    string_of(&s)
}

/// The answer for the query `src` from the paths its glob pattern matched, in
/// the order the filesystem gave them; `home` stands for a leading `~`. No
/// match gives `Empty`; one gives that path; several give their common prefix
/// where it is longer than the query, else all of them.
pub fn complete_matches(src: &str, home: &String, matches: &Vec<PathMatch>) -> (r: Complete)
    ensures
        ({
            let hd = if uses_home(src@) { Some(home@) } else { None };
            let fs = formatted(matches@, hd);
            &&& matches@.len() == 0 ==> r is Empty
            &&& matches@.len() == 1 ==> (r matches Complete::One(s) && s@ == fs[0])
            &&& matches@.len() == 1 && matches@[0].is_dir ==> (r matches Complete::One(s) && s@.last() == '/')
            &&& matches@.len() > 1 && lcp_all(fs) > src@.len() ==> (r matches Complete::One(s) && s@ == fs[0].subrange(0, lcp_all(fs) as int))
            &&& matches@.len() > 1 && lcp_all(fs) <= src@.len() ==> (r matches Complete::Many(v) && view_strings(v@) == fs)
        }),
{
    let sc = chars_of(src);
    let hd: Option<&String> = if sc.len() > 0 && sc[0] == '~' { Some(home) } else { None };
    let ghost hdv = if uses_home(src@) { Some(home@) } else { None };
    assert(match hd { Some(h) => Some(h@), None => None } == hdv);
    if matches.len() == 0 {
        return Complete::Empty;
    }
    if matches.len() == 1 {
        return Complete::One(dir_slash(&matches[0], hd));
    }
    let mut v: Vec<String> = Vec::new();
    let mut i: usize = 0;
    while i < matches.len()
        invariant
            i <= matches@.len(),
            hdv == match hd { Some(h) => Some(h@), None => None::<Seq<char>> },
            view_strings(v@) == formatted(matches@, hdv).subrange(0, i as int),
        decreases matches@.len() - i,
    {
        let f = dir_slash(&matches[i], hd);
        assert(formatted(matches@, hdv)[i as int] == f@);
        let ghost before = v@;
        v.push(f);
        assert(view_strings(v@) =~= view_strings(before).push(formatted(matches@, hdv)[i as int]));
        assert(view_strings(v@) =~= formatted(matches@, hdv).subrange(0, i + 1));
        i = i + 1;
    }
    assert(view_strings(v@) =~= formatted(matches@, hdv));
    match all_strs_agree(&v, sc.len()) {
        Some(s) => Complete::One(s),
        None => Complete::Many(v),
    }
}

} // verus!
