//! The change scanner's decisions: which walked paths are watched, which
//! paths are new, and the delta between two scans.
use vstd::prelude::*;
use crate::baseline::{contains_path, clone_entry, sorted_desc};
use crate::file_change_data::{string_views, EntryView, FileAddData, FileChangeData, FileRemoveData};

verus! {

/// `d` is the dot that starts the extension of the last component of `p`:
/// the last dot of that component, and not its first character.
pub open spec fn ext_dot(p: Seq<char>, d: int) -> bool {
    &&& 0 < d < p.len()
    &&& p[d] == '.'
    &&& p[d - 1] != '/'
    &&& forall|k: int| d < k < p.len() ==> p[k] != '.' && p[k] != '/'
}

/// The extension of the file that `p` names, without its dot.
pub open spec fn extension_of(p: Seq<char>) -> Option<Seq<char>> {
    if exists|d: int| ext_dot(p, d) {
        let d = choose|d: int| ext_dot(p, d);
        Some(p.subrange(d + 1, p.len() as int))
    } else {
        None
    }
}

/// `p` has an extension, and it is one of `exts`.
pub open spec fn watched(p: Seq<char>, exts: Seq<Seq<char>>) -> bool {
    match extension_of(p) {
        Some(e) => exts.contains(e),
        None => false,
    }
}

/// A dot at `d` that is not the first character of its component.
spec fn dot_candidate(p: Seq<char>, d: int) -> bool {
    0 < d < p.len() && p[d] == '.' && p[d - 1] != '/'
}

/// Some dot or slash follows position `d` before position `n`.
spec fn blocked(p: Seq<char>, d: int, n: int) -> bool {
    exists|k: int| d < k < n && (p[k] == '.' || p[k] == '/')
}

proof fn lemma_ext_dot_unique(p: Seq<char>, d1: int, d2: int)
    requires
        ext_dot(p, d1),
        ext_dot(p, d2),
    ensures
        d1 == d2,
{
    if d1 < d2 {
        assert(p[d2] == '.');
    } else if d2 < d1 {
        assert(p[d1] == '.');
    }
}

/// The position of the dot that starts the extension of `path`, if any.
fn extension_dot(path: &str) -> (r: Option<usize>)
    ensures
        match r {
            Some(d) => ext_dot(path@, d as int),
            None => forall|d: int| !ext_dot(path@, d),
        },
{
    let n = path.unicode_len();
    let ghost p = path@;
    let mut found = false;
    let mut dot: usize = 0;
    let mut i: usize = 0;
    while i < n
        invariant
            n == p.len(),
            p == path@,
            i <= n,
            found ==> 0 < dot < i && p[dot as int] == '.' && p[dot - 1] != '/' && forall|k: int|
                dot < k < i ==> p[k] != '.' && p[k] != '/',
            !found ==> forall|d: int| d < i && #[trigger] dot_candidate(p, d) ==> blocked(p, d, i as int),
        decreases n - i,
    {
        let c = path.get_char(i);
        if c == '/' {
            found = false;
            assert forall|d: int| d < i + 1 && #[trigger] dot_candidate(p, d) implies blocked(
                p,
                d,
                i + 1,
            ) by {
                assert(p[i as int] == '/');
            }
        } else if c == '.' {
            if i > 0 && path.get_char(i - 1) != '/' {
                found = true;
                dot = i;
            } else {
                found = false;
                assert forall|d: int| d < i + 1 && #[trigger] dot_candidate(p, d) implies blocked(
                    p,
                    d,
                    i + 1,
                ) by {
                    assert(p[i as int] == '.');
                    if d < i {
                        let k = choose|k: int| d < k < i && (p[k] == '.' || p[k] == '/');
                    }
                }
            }
        } else {
            if !found {
                assert forall|d: int| d < i + 1 && #[trigger] dot_candidate(p, d) implies blocked(
                    p,
                    d,
                    i + 1,
                ) by {
                    assert(d < i);
                    let k = choose|k: int| d < k < i && (p[k] == '.' || p[k] == '/');
                }
            }
        }
        i = i + 1;
    }
    if found {
        Some(dot)
    } else {
        proof {
            assert forall|d: int| !ext_dot(p, d) by {
                if ext_dot(p, d) {
                    assert(dot_candidate(p, d));
                    let k = choose|k: int| d < k < n && (p[k] == '.' || p[k] == '/');
                }
            }
        }
        None
    }
}

/// Whether the characters of `s` from `from` on are exactly `t`.
fn tail_equals(s: &str, from: usize, t: &str) -> (r: bool)
    requires
        from <= s@.len(),
    ensures
        r == (s@.subrange(from as int, s@.len() as int) == t@),
{
    let n = s.unicode_len();
    let m = t.unicode_len();
    if n - from != m {
        return false;
    }
    let mut i: usize = 0;
    while i < m
        invariant
            n == s@.len(),
            m == t@.len(),
            n - from == m,
            i <= m,
            forall|k: int| 0 <= k < i ==> s@[from + k] == t@[k],
        decreases m - i,
    {
        if s.get_char(from + i) != t.get_char(i) {
            assert(s@.subrange(from as int, n as int)[i as int] != t@[i as int]);
            return false;
        }
        i = i + 1;
    }
    assert(s@.subrange(from as int, n as int) =~= t@);
    true
}

/// Whether `path` names a file whose extension is one of `exts`.
pub fn has_watched_extension(path: &str, exts: &Vec<String>) -> (r: bool)
    ensures
        r == watched(path@, string_views(exts@)),
{
    match extension_dot(path) {
        None => false,
        Some(d) => {
            proof {
                assert(exists|x: int| ext_dot(path@, x));
                let c = choose|x: int| ext_dot(path@, x);
                lemma_ext_dot_unique(path@, c, d as int);
            }
            let n = path.unicode_len();
            let mut i: usize = 0;
            while i < exts.len()
                invariant
                    n == path@.len(),
                    i <= exts.len(),
                    ext_dot(path@, d as int),
                    extension_of(path@) == Some(path@.subrange(d + 1, path@.len() as int)),
                    forall|k: int| 0 <= k < i ==> exts@[k]@ != path@.subrange(d + 1, path@.len() as int),
                decreases exts.len() - i,
            {
                if tail_equals(path, d + 1, exts[i].as_str()) {
                    assert(string_views(exts@)[i as int] == exts@[i as int]@);
                    return true;
                }
                i = i + 1;
            }
            proof {
                let e = path@.subrange(d + 1, path@.len() as int);
                if string_views(exts@).contains(e) {
                    let k = choose|k: int| 0 <= k < exts@.len() && #[trigger] string_views(exts@)[k] == e;
                    assert(exts@[k]@ == e);
                }
            }
            false
        }
    }
}

} // verus!

verus! {

/// The paths of `v` that are not among `excluded`, in their order.
pub open spec fn without(v: Seq<Seq<char>>, excluded: Seq<Seq<char>>) -> Seq<Seq<char>> {
    v.filter(|p: Seq<char>| !excluded.contains(p))
}

/// The paths of `v` that are not listed in `excluded`.
fn paths_without(v: &Vec<String>, excluded: &Vec<String>) -> (r: Vec<String>)
    ensures
        string_views(r@) == without(string_views(v@), string_views(excluded@)),
{
    let ghost ex = string_views(excluded@);
    let ghost pred = |p: Seq<char>| !ex.contains(p);
    let mut out: Vec<String> = Vec::new();
    let mut i: usize = 0;
    while i < v.len()
        invariant
            i <= v.len(),
            ex == string_views(excluded@),
            pred == (|p: Seq<char>| !ex.contains(p)),
            string_views(out@) == string_views(v@).subrange(0, i as int).filter(pred),
        decreases v.len() - i,
    {
        let ghost before = out@;
        let gone = contains_path(excluded, &v[i]);
        proof {
            let s = string_views(v@);
            assert(s.subrange(0, i + 1) =~= s.subrange(0, i as int) + seq![s[i as int]]);
            Seq::filter_distributes_over_add(s.subrange(0, i as int), seq![s[i as int]], pred);
            reveal_with_fuel(Seq::filter, 2);
            assert(seq![s[i as int]].drop_last() =~= Seq::<Seq<char>>::empty());
        }
        if !gone {
            out.push(v[i].clone());
            assert(string_views(out@) =~= string_views(before).push(v@[i as int]@));
        }
        i = i + 1;
    }
    assert(string_views(v@).subrange(0, v.len() as int) =~= string_views(v@));
    out
}

/// The entries of `s` with time `v`, in their order.
pub open spec fn at_time(s: Seq<EntryView>, v: i64) -> Seq<EntryView> {
    s.filter(|e: EntryView| e.1 == v)
}

proof fn lemma_at_time_push(s: Seq<EntryView>, e: EntryView, v: i64)
    ensures
        at_time(s.push(e), v) == if e.1 == v {
            at_time(s, v).push(e)
        } else {
            at_time(s, v)
        },
{
    reveal(Seq::filter);
    assert(s.push(e).drop_last() =~= s);
}

proof fn lemma_at_time_none(s: Seq<EntryView>, v: i64)
    requires
        forall|k: int| 0 <= k < s.len() ==> s[k].1 != v,
    ensures
        at_time(s, v) == Seq::<EntryView>::empty(),
    decreases s.len(),
{
    reveal(Seq::filter);
    if s.len() > 0 {
        lemma_at_time_none(s.drop_last(), v);
    }
}

proof fn lemma_at_time_insert(s: Seq<EntryView>, pos: int, e: EntryView, v: i64)
    requires
        0 <= pos <= s.len(),
        forall|k: int| pos <= k < s.len() ==> s[k].1 < e.1,
    ensures
        at_time(s.insert(pos, e), v) == if e.1 == v {
            at_time(s, v).push(e)
        } else {
            at_time(s, v)
        },
{
    let pre = s.subrange(0, pos);
    let post = s.subrange(pos, s.len() as int);
    let pred = |x: EntryView| x.1 == v;
    assert(s =~= pre + post);
    assert(s.insert(pos, e) =~= pre.push(e) + post);
    Seq::filter_distributes_over_add(pre, post, pred);
    Seq::filter_distributes_over_add(pre.push(e), post, pred);
    lemma_at_time_push(pre, e, v);
    if e.1 == v {
        lemma_at_time_none(post, v);
        assert(at_time(s, v) =~= at_time(pre, v));
        assert(at_time(s.insert(pos, e), v) =~= at_time(pre, v).push(e));
    }
}

/// `v` ordered newest first; entries with equal times keep their order.
pub fn sort_newest_first(v: Vec<(String, i64)>) -> (r: Vec<(String, i64)>)
    ensures
        sorted_desc(FileAddData(r)@),
        FileAddData(r)@.to_multiset() == FileAddData(v)@.to_multiset(),
        forall|t: i64| #[trigger] at_time(FileAddData(r)@, t) == at_time(FileAddData(v)@, t),
{
    let ghost src = FileAddData(v)@;
    let mut out: Vec<(String, i64)> = Vec::new();
    let mut i: usize = 0;
    assert(src.subrange(0, 0).to_multiset() =~= FileAddData(out)@.to_multiset()) by {
        assert(src.subrange(0, 0) =~= FileAddData(out)@);
    }
    assert(src.subrange(0, 0) =~= FileAddData(out)@);
    while i < v.len()
        invariant
            i <= v.len(),
            src == FileAddData(v)@,
            sorted_desc(FileAddData(out)@),
            FileAddData(out)@.to_multiset() == src.subrange(0, i as int).to_multiset(),
            forall|x: i64| #[trigger]
                at_time(FileAddData(out)@, x) == at_time(src.subrange(0, i as int), x),
        decreases v.len() - i,
    {
        let ghost before = FileAddData(out)@;
        let t = v[i].1;
        let mut pos: usize = 0;
        while pos < out.len() && out[pos].1 >= t
            invariant
                pos <= out.len(),
                before == FileAddData(out)@,
                forall|k: int| 0 <= k < pos ==> before[k].1 >= t,
            decreases out.len() - pos,
        {
            pos = pos + 1;
        }
        let e = clone_entry(&v[i]);
        out.insert(pos, e);
        proof {
            let ev = src[i as int];
            assert(FileAddData(out)@ =~= before.insert(pos as int, ev));
            assert(src.subrange(0, i + 1) =~= src.subrange(0, i as int).insert(i as int, ev));
            vstd::seq_lib::to_multiset_insert(before, pos as int, ev);
            vstd::seq_lib::to_multiset_insert(src.subrange(0, i as int), i as int, ev);
            let after = FileAddData(out)@;
            assert forall|a: int, b: int| 0 <= a < b < after.len() implies after[a].1
                >= after[b].1 by {
                if b < pos {
                } else if b == pos {
                } else if a < pos {
                    if pos < before.len() {
                        assert(before[pos as int].1 < t);
                    }
                } else if a == pos {
                    assert(before[pos as int].1 < t);
                    assert(before[b - 1].1 <= before[pos as int].1 || b - 1 == pos);
                } else {
                }
            }
            assert forall|k: int| pos <= k < before.len() implies before[k].1 < t by {
                assert(before[pos as int].1 < t);
                assert(before[pos as int].1 >= before[k].1);
            }
            assert(src.subrange(0, i + 1) =~= src.subrange(0, i as int).push(ev));
            assert forall|x: i64| #[trigger]
                at_time(after, x) == at_time(src.subrange(0, i + 1), x) by {
                lemma_at_time_insert(before, pos as int, ev, x);
                lemma_at_time_push(src.subrange(0, i as int), ev, x);
            }
        }
        i = i + 1;
    }
    assert(src.subrange(0, v.len() as int) =~= src);
    out
}

/// What the scanner remembers between two walks of the watched tree.
pub struct FileChangeTracker {
    file_extensions: Vec<String>,
    known_files: Vec<String>,
}

impl FileChangeTracker {
    /// The extensions that make a file watched.
    pub closed spec fn extensions(&self) -> Seq<Seq<char>> {
        string_views(self.file_extensions@)
    }

    /// The watched paths that the last scan found.
    pub closed spec fn known(&self) -> Seq<Seq<char>> {
        string_views(self.known_files@)
    }

    pub closed spec fn wf(&self) -> bool {
        self.known().no_duplicates()
    }

    /// A scanner that knows no file yet.
    pub fn new(file_extensions: Vec<String>) -> (r: Self)
        ensures
            r.wf(),
            r.extensions() == string_views(file_extensions@),
            r.known() == Seq::<Seq<char>>::empty(),
    {
        let r = FileChangeTracker { file_extensions, known_files: Vec::new() };
        assert(r.known() =~= Seq::<Seq<char>>::empty());
        r
    }

    /// The watched paths among those a walk produced, each once, in the order
    /// of their first occurrence.
    pub fn select_found(&self, walked: &Vec<String>) -> (r: Vec<String>)
        ensures
            string_views(r@).no_duplicates(),
            forall|p: Seq<char>| #[trigger]
                string_views(r@).contains(p) <==> (string_views(walked@).contains(p) && watched(
                    p,
                    self.extensions(),
                )),
    {
        let mut out: Vec<String> = Vec::new();
        let mut i: usize = 0;
        while i < walked.len()
            invariant
                i <= walked.len(),
                string_views(out@).no_duplicates(),
                forall|p: Seq<char>| #[trigger]
                    string_views(out@).contains(p) <==> (string_views(walked@).subrange(
                        0,
                        i as int,
                    ).contains(p) && watched(p, self.extensions())),
            decreases walked.len() - i,
        {
            let ghost before = out@;
            let ghost w = string_views(walked@);
            assert(w.subrange(0, i + 1) =~= w.subrange(0, i as int).push(w[i as int]));
            let ok = has_watched_extension(walked[i].as_str(), &self.file_extensions);
            let dup = contains_path(&out, &walked[i]);
            if ok && !dup {
                out.push(walked[i].clone());
                assert(string_views(out@) =~= string_views(before).push(w[i as int]));
            }
            proof {
                let o = string_views(out@);
                let ob = string_views(before);
                let x = w[i as int];
                let wn = w.subrange(0, i + 1);
                let wo = w.subrange(0, i as int);
                assert forall|p: Seq<char>| #[trigger]
                    o.contains(p) <==> (wn.contains(p) && watched(
                        p,
                        self.extensions(),
                    )) by {
                    if wn.contains(p) && p != x {
                        let k = choose|k: int| 0 <= k < i + 1 && wn[k] == p;
                        assert(wo[k] == p);
                    }
                    if ok && !dup {
                        if o.contains(p) && p != x {
                            let k = choose|k: int| 0 <= k < o.len() && o[k] == p;
                            assert(ob[k] == p);
                        }
                        if ob.contains(p) {
                            let k = choose|k: int| 0 <= k < ob.len() && ob[k] == p;
                            assert(o[k] == p);
                        }
                        assert(o[o.len() - 1] == x);
                        if wo.contains(p) {
                            let k = choose|k: int| 0 <= k < i && wo[k] == p;
                            assert(wn[k] == p);
                        }
                    } else {
                        if wo.contains(p) {
                            let k = choose|k: int| 0 <= k < i && wo[k] == p;
                            assert(wn[k] == p);
                        }
                    }
                    assert(wn[i as int] == x);
                }
            }
            i = i + 1;
        }
        assert(string_views(walked@).subrange(0, walked.len() as int) =~= string_views(walked@));
        out
    }

    /// The found paths that the last scan did not know.
    pub fn new_paths(&self, found: &Vec<String>) -> (r: Vec<String>)
        ensures
            string_views(r@) == without(string_views(found@), self.known()),
    {
        paths_without(found, &self.known_files)
    }

    /// Ends a scan: `found` are the watched paths now present and `stamped`
    /// the new ones whose modification time could be read. The delta removes
    /// every known path that is gone and adds `stamped`, newest first; the
    /// found paths become the known ones. Entries with equal times keep the
    /// order they had in `stamped`.
    pub fn finish_scan(&mut self, found: Vec<String>, stamped: Vec<(String, i64)>) -> (r:
        FileChangeData)
        requires
            string_views(found@).no_duplicates(),
        ensures
            final(self).wf(),
            final(self).known() == string_views(found@),
            final(self).extensions() == old(self).extensions(),
            r.removed@ == without(old(self).known(), string_views(found@)),
            sorted_desc(r.added@),
            r.added@.to_multiset() == FileAddData(stamped)@.to_multiset(),
            forall|t: i64| #[trigger] at_time(r.added@, t) == at_time(FileAddData(stamped)@, t),
    {
        let removed = paths_without(&self.known_files, &found);
        let added = sort_newest_first(stamped);
        self.known_files = found;
        FileChangeData { removed: FileRemoveData(removed), added: FileAddData(added) }
    }
}

} // verus!
