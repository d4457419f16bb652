//! The baseline: every known file, most recently modified first. A delta is
//! applied by a linear merge of two runs sorted by time.
use vstd::prelude::*;
use vstd::hash_set::StringHashSet;
use crate::file_change_data::{string_views, EntryView, FileAddData, FileChangeData};

verus! {

/// Timestamps never increase along `s`.
pub open spec fn sorted_desc(s: Seq<EntryView>) -> bool {
    forall|i: int, j: int| 0 <= i < j < s.len() ==> s[i].1 >= s[j].1
}

/// No path occurs twice in `s`.
pub open spec fn unique_paths(s: Seq<EntryView>) -> bool {
    forall|i: int, j: int| 0 <= i < s.len() && 0 <= j < s.len() && i != j ==> s[i].0 != s[j].0
}

/// Some entry of `s` has path `p`.
pub open spec fn has_path(s: Seq<EntryView>, p: Seq<char>) -> bool {
    exists|i: int| 0 <= i < s.len() && s[i].0 == p
}

/// The entries of `s` whose path is not in `excluded`, in their order.
pub open spec fn kept(s: Seq<EntryView>, excluded: Set<Seq<char>>) -> Seq<EntryView> {
    s.filter(|e: EntryView| !excluded.contains(e.0))
}

/// The paths listed in `removed`, as a set.
pub open spec fn removed_set(removed: Seq<Seq<char>>) -> Set<Seq<char>> {
    Set::new(|p: Seq<char>| removed.contains(p))
}

/// The paths of the entries of `s`, as a set.
pub open spec fn path_set(s: Seq<EntryView>) -> Set<Seq<char>> {
    Set::new(|p: Seq<char>| has_path(s, p))
}

/// The first entry of each path of `s` that is not in `excluded`, in their
/// order: of an added run sorted newest first, the newest entry of each
/// path.
pub open spec fn fresh_added(s: Seq<EntryView>, excluded: Set<Seq<char>>) -> Seq<EntryView>
    decreases s.len(),
{
    if s.len() == 0 {
        s
    } else {
        let d = s.drop_last();
        let rest = fresh_added(d, excluded);
        if excluded.contains(s.last().0) || has_path(d, s.last().0) {
            rest
        } else {
            rest.push(s.last())
        }
    }
}

/// Interleaves two runs by time; on equal times the entry of `a` goes first.
pub open spec fn merge_runs(b: Seq<EntryView>, a: Seq<EntryView>) -> Seq<EntryView>
    decreases b.len() + a.len(),
{
    if b.len() == 0 {
        a
    } else if a.len() == 0 {
        b
    } else if b[0].1 > a[0].1 {
        seq![b[0]] + merge_runs(b.drop_first(), a)
    } else {
        seq![a[0]] + merge_runs(b, a.drop_first())
    }
}

/// The baseline after a delta: the added run's newest entry of each path
/// that is not removed, and the baseline's entries whose path is neither
/// removed nor added again, interleaved by time.
pub open spec fn applied(
    baseline: Seq<EntryView>,
    removed: Seq<Seq<char>>,
    added: Seq<EntryView>,
) -> Seq<EntryView> {
    merge_runs(
        kept(baseline, removed_set(removed).union(path_set(added))),
        fresh_added(added, removed_set(removed)),
    )
}

/// Whether `p` is one of the paths in `v`.
pub fn contains_path(v: &Vec<String>, p: &String) -> (r: bool)
    ensures
        r == string_views(v@).contains(p@),
{
    let mut i: usize = 0;
    while i < v.len()
        invariant
            i <= v.len(),
            forall|k: int| 0 <= k < i ==> v@[k]@ != p@,
        decreases v.len() - i,
    {
        if v[i] == *p {
            assert(string_views(v@)[i as int] == p@);
            return true;
        }
        i = i + 1;
    }
    proof {
        if string_views(v@).contains(p@) {
            let k = choose|k: int| 0 <= k < v@.len() && #[trigger] string_views(v@)[k] == p@;
            assert(v@[k]@ == p@);
        }
    }
    false
}

/// A copy of one entry.
pub fn clone_entry(e: &(String, i64)) -> (r: (String, i64))
    ensures
        r.0@ == e.0@,
        r.1 == e.1,
{
    (e.0.clone(), e.1)
}

/// The paths of `v`, as a set.
fn path_set_of(v: &Vec<String>) -> (r: StringHashSet)
    ensures
        r@ == removed_set(string_views(v@)),
{
    let mut set = StringHashSet::new();
    let mut i: usize = 0;
    while i < v.len()
        invariant
            i <= v.len(),
            forall|p: Seq<char>| #[trigger]
                set@.contains(p) <==> string_views(v@).subrange(0, i as int).contains(p),
        decreases v.len() - i,
    {
        let ghost w = string_views(v@);
        set.insert(v[i].clone());
        proof {
            assert forall|p: Seq<char>| #[trigger]
                set@.contains(p) <==> w.subrange(0, i + 1).contains(p) by {
                let pre = w.subrange(0, i as int);
                let next = w.subrange(0, i + 1);
                assert(next[i as int] == v@[i as int]@);
                if pre.contains(p) {
                    let k = choose|k: int| 0 <= k < pre.len() && pre[k] == p;
                    assert(next[k] == p);
                }
                if next.contains(p) && p != v@[i as int]@ {
                    let k = choose|k: int| 0 <= k < next.len() && next[k] == p;
                    assert(pre[k] == p);
                }
            }
        }
        i = i + 1;
    }
    assert(string_views(v@).subrange(0, v.len() as int) =~= string_views(v@));
    assert(set@ =~= removed_set(string_views(v@)));
    set
}

/// The first entry of each path of `entries` that is not in `gone`, in
/// their order, and the set of all paths of `entries`.
fn fresh_entries(entries: &FileAddData, gone: &StringHashSet) -> (r: (
    Vec<(String, i64)>,
    StringHashSet,
))
    ensures
        FileAddData(r.0)@ == fresh_added(entries@, gone@),
        r.1@ == path_set(entries@),
{
    let mut out: Vec<(String, i64)> = Vec::new();
    let mut seen = StringHashSet::new();
    let mut i: usize = 0;
    assert(FileAddData(out)@ =~= fresh_added(entries@.subrange(0, 0), gone@));
    while i < entries.0.len()
        invariant
            i <= entries.0.len(),
            FileAddData(out)@ == fresh_added(entries@.subrange(0, i as int), gone@),
            forall|p: Seq<char>| #[trigger]
                seen@.contains(p) <==> has_path(entries@.subrange(0, i as int), p),
        decreases entries.0.len() - i,
    {
        let ghost pre = entries@.subrange(0, i as int);
        let ghost next = entries@.subrange(0, i + 1);
        let ghost x = entries@[i as int];
        let ghost before_vec = out;
        assert(next.drop_last() =~= pre);
        assert(next.last() == x);
        let path = entries.0[i].0.as_str();
        if !gone.contains(path) && !seen.contains(path) {
            out.push(clone_entry(&entries.0[i]));
            assert(FileAddData(out)@ =~= FileAddData(before_vec)@.push(x));
        }
        seen.insert(entries.0[i].0.clone());
        proof {
            assert forall|p: Seq<char>| #[trigger] seen@.contains(p) <==> has_path(next, p) by {
                if has_path(pre, p) {
                    let k = choose|k: int| 0 <= k < pre.len() && pre[k].0 == p;
                    assert(next[k].0 == p);
                }
                if has_path(next, p) && p != x.0 {
                    let k = choose|k: int| 0 <= k < next.len() && next[k].0 == p;
                    assert(k != i);
                    assert(pre[k].0 == p);
                }
                assert(next[i as int].0 == x.0);
            }
        }
        i = i + 1;
    }
    assert(entries@.subrange(0, entries.0.len() as int) =~= entries@);
    assert(seen@ =~= path_set(entries@));
    (out, seen)
}

/// The entries of `entries` whose path is in neither `gone` nor `brought`.
fn keep_entries(entries: &FileAddData, gone: &StringHashSet, brought: &StringHashSet) -> (r: Vec<
    (String, i64),
>)
    ensures
        FileAddData(r)@ == kept(entries@, gone@.union(brought@)),
{
    let ghost ex = gone@.union(brought@);
    let ghost pred = |e: EntryView| !ex.contains(e.0);
    let mut out: Vec<(String, i64)> = Vec::new();
    let mut i: usize = 0;
    while i < entries.0.len()
        invariant
            i <= entries.0.len(),
            ex == gone@.union(brought@),
            pred == (|e: EntryView| !ex.contains(e.0)),
            FileAddData(out)@ == entries@.subrange(0, i as int).filter(pred),
        decreases entries.0.len() - i,
    {
        let ghost before_vec = out;
        let path = entries.0[i].0.as_str();
        let drop = gone.contains(path) || brought.contains(path);
        proof {
            let s = entries@;
            assert(s.subrange(0, i + 1) =~= s.subrange(0, i as int) + seq![s[i as int]]);
            Seq::filter_distributes_over_add(s.subrange(0, i as int), seq![s[i as int]], pred);
            reveal_with_fuel(Seq::filter, 2);
            assert(seq![s[i as int]].drop_last() =~= Seq::<EntryView>::empty());
        }
        if !drop {
            out.push(clone_entry(&entries.0[i]));
            assert(FileAddData(out)@ =~= FileAddData(before_vec)@.push(entries@[i as int]));
        }
        i = i + 1;
    }
    assert(entries@.subrange(0, entries.0.len() as int) =~= entries@);
    out
}

} // verus!

verus! {

/// Applies `change` to `baseline`: removed paths go from both runs, the
/// added run keeps the newest entry of each path, and a path added again
/// replaces its baseline entry; what is left is merged by time, newest
/// first. Each entry is looked up in hash sets, so the work is linear.
pub fn apply_delta(baseline: &FileAddData, change: &FileChangeData) -> (r: FileAddData)
    ensures
        r@ == applied(baseline@, change.removed@, change.added@),
{
    let gone = path_set_of(&change.removed.0);
    let (ka, brought) = fresh_entries(&change.added, &gone);
    let kb = keep_entries(baseline, &gone, &brought);
    let ghost bv = FileAddData(kb)@;
    let ghost av = FileAddData(ka)@;
    let mut out: Vec<(String, i64)> = Vec::new();
    let mut ib: usize = 0;
    let mut ia: usize = 0;
    assert(bv.subrange(0, kb.len() as int) =~= bv);
    assert(av.subrange(0, ka.len() as int) =~= av);
    assert(FileAddData(out)@ =~= Seq::<EntryView>::empty());
    while ib < kb.len() || ia < ka.len()
        invariant
            ib <= kb.len(),
            ia <= ka.len(),
            bv == FileAddData(kb)@,
            av == FileAddData(ka)@,
            FileAddData(out)@ + merge_runs(
                bv.subrange(ib as int, kb.len() as int),
                av.subrange(ia as int, ka.len() as int),
            ) == merge_runs(bv, av),
        decreases kb.len() + ka.len() - ib - ia,
    {
        let ghost before_vec = out;
        let ghost rb = bv.subrange(ib as int, kb.len() as int);
        let ghost ra = av.subrange(ia as int, ka.len() as int);
        if ia < ka.len() && (ib >= kb.len() || kb[ib].1 <= ka[ia].1) {
            out.push(clone_entry(&ka[ia]));
            proof {
                assert(ra.drop_first() =~= av.subrange(ia + 1, ka.len() as int));
                assert(FileAddData(out)@ =~= FileAddData(before_vec)@.push(av[ia as int]));
                assert(merge_runs(rb, ra) == seq![ra[0]] + merge_runs(rb, ra.drop_first()));
                assert(FileAddData(out)@ + merge_runs(rb, ra.drop_first()) =~= FileAddData(
                    before_vec,
                )@ + merge_runs(rb, ra));
            }
            ia = ia + 1;
        } else {
            out.push(clone_entry(&kb[ib]));
            proof {
                assert(rb.drop_first() =~= bv.subrange(ib + 1, kb.len() as int));
                assert(FileAddData(out)@ =~= FileAddData(before_vec)@.push(bv[ib as int]));
                assert(merge_runs(rb, ra) == seq![rb[0]] + merge_runs(rb.drop_first(), ra));
                assert(FileAddData(out)@ + merge_runs(rb.drop_first(), ra) =~= FileAddData(
                    before_vec,
                )@ + merge_runs(rb, ra));
            }
            ib = ib + 1;
        }
    }
    proof {
        let e = bv.subrange(ib as int, kb.len() as int);
        assert(e =~= Seq::<EntryView>::empty());
        assert(FileAddData(out)@ + Seq::<EntryView>::empty() =~= FileAddData(out)@);
    }
    FileAddData(out)
}

} // verus!

verus! {

proof fn lemma_merge_contents(b: Seq<EntryView>, a: Seq<EntryView>)
    ensures
        forall|e: EntryView| #[trigger]
            merge_runs(b, a).contains(e) <==> (b.contains(e) || a.contains(e)),
    decreases b.len() + a.len(),
{
    let m = merge_runs(b, a);
    if b.len() == 0 || a.len() == 0 {
    } else if b[0].1 > a[0].1 {
        let t = b.drop_first();
        lemma_merge_contents(t, a);
        let r = merge_runs(t, a);
        assert(m == seq![b[0]] + r);
        assert forall|e: EntryView| #[trigger]
            m.contains(e) <==> (b.contains(e) || a.contains(e)) by {
            if m.contains(e) {
                let k = choose|k: int| 0 <= k < m.len() && m[k] == e;
                if k > 0 {
                    assert(r[k - 1] == e);
                    assert(r.contains(e));
                    if t.contains(e) {
                        let j = choose|j: int| 0 <= j < t.len() && t[j] == e;
                        assert(b[j + 1] == e);
                    }
                }
            }
            if b.contains(e) {
                let k = choose|k: int| 0 <= k < b.len() && b[k] == e;
                if k == 0 {
                    assert(m[0] == e);
                } else {
                    assert(t[k - 1] == e);
                    assert(r.contains(e));
                    let j = choose|j: int| 0 <= j < r.len() && r[j] == e;
                    assert(m[j + 1] == e);
                }
            }
            if a.contains(e) {
                assert(r.contains(e));
                let j = choose|j: int| 0 <= j < r.len() && r[j] == e;
                assert(m[j + 1] == e);
            }
        }
    } else {
        let t = a.drop_first();
        lemma_merge_contents(b, t);
        let r = merge_runs(b, t);
        assert(m == seq![a[0]] + r);
        assert forall|e: EntryView| #[trigger]
            m.contains(e) <==> (b.contains(e) || a.contains(e)) by {
            if m.contains(e) {
                let k = choose|k: int| 0 <= k < m.len() && m[k] == e;
                if k > 0 {
                    assert(r[k - 1] == e);
                    assert(r.contains(e));
                    if t.contains(e) {
                        let j = choose|j: int| 0 <= j < t.len() && t[j] == e;
                        assert(a[j + 1] == e);
                    }
                }
            }
            if a.contains(e) {
                let k = choose|k: int| 0 <= k < a.len() && a[k] == e;
                if k == 0 {
                    assert(m[0] == e);
                } else {
                    assert(t[k - 1] == e);
                    assert(r.contains(e));
                    let j = choose|j: int| 0 <= j < r.len() && r[j] == e;
                    assert(m[j + 1] == e);
                }
            }
            if b.contains(e) {
                assert(r.contains(e));
                let j = choose|j: int| 0 <= j < r.len() && r[j] == e;
                assert(m[j + 1] == e);
            }
        }
    }
}

proof fn lemma_merge_order(b: Seq<EntryView>, a: Seq<EntryView>)
    requires
        sorted_desc(b),
        sorted_desc(a),
    ensures
        sorted_desc(merge_runs(b, a)),
    decreases b.len() + a.len(),
{
    let m = merge_runs(b, a);
    if b.len() == 0 || a.len() == 0 {
    } else {
        let h = if b[0].1 > a[0].1 { b[0] } else { a[0] };
        let tb = if b[0].1 > a[0].1 { b.drop_first() } else { b };
        let ta = if b[0].1 > a[0].1 { a } else { a.drop_first() };
        assert(sorted_desc(tb));
        assert(sorted_desc(ta));
        lemma_merge_order(tb, ta);
        lemma_merge_contents(tb, ta);
        let r = merge_runs(tb, ta);
        assert(m == seq![h] + r);
        assert forall|j: int| 0 <= j < r.len() implies r[j].1 <= h.1 by {
            assert(r.contains(r[j]));
            if tb.contains(r[j]) {
                let k = choose|k: int| 0 <= k < tb.len() && tb[k] == r[j];
                if b[0].1 > a[0].1 {
                    assert(b[k + 1] == r[j]);
                } else {
                    assert(b[k] == r[j]);
                }
            } else {
                let k = choose|k: int| 0 <= k < ta.len() && ta[k] == r[j];
                if b[0].1 > a[0].1 {
                    assert(a[k] == r[j]);
                } else {
                    assert(a[k + 1] == r[j]);
                }
            }
        }
        assert forall|i: int, j: int| 0 <= i < j < m.len() implies m[i].1 >= m[j].1 by {
            if i > 0 {
                assert(m[i] == r[i - 1] && m[j] == r[j - 1]);
            } else {
                assert(m[j] == r[j - 1]);
            }
        }
    }
}

proof fn lemma_merge_unique(b: Seq<EntryView>, a: Seq<EntryView>)
    requires
        unique_paths(b),
        unique_paths(a),
        forall|i: int, j: int| 0 <= i < b.len() && 0 <= j < a.len() ==> b[i].0 != a[j].0,
    ensures
        unique_paths(merge_runs(b, a)),
    decreases b.len() + a.len(),
{
    let m = merge_runs(b, a);
    if b.len() == 0 || a.len() == 0 {
    } else {
        let from_b = b[0].1 > a[0].1;
        let h = if from_b { b[0] } else { a[0] };
        let tb = if from_b { b.drop_first() } else { b };
        let ta = if from_b { a } else { a.drop_first() };
        lemma_merge_unique(tb, ta);
        lemma_merge_contents(tb, ta);
        let r = merge_runs(tb, ta);
        assert(m == seq![h] + r);
        assert forall|j: int| 0 <= j < r.len() implies r[j].0 != h.0 by {
            assert(r.contains(r[j]));
            if tb.contains(r[j]) {
                let k = choose|k: int| 0 <= k < tb.len() && tb[k] == r[j];
                if from_b {
                    assert(b[k + 1] == r[j]);
                } else {
                    assert(b[k] == r[j]);
                }
            } else {
                let k = choose|k: int| 0 <= k < ta.len() && ta[k] == r[j];
                if from_b {
                    assert(a[k] == r[j]);
                } else {
                    assert(a[k + 1] == r[j]);
                }
            }
        }
        assert forall|i: int, j: int|
            0 <= i < m.len() && 0 <= j < m.len() && i != j implies m[i].0 != m[j].0 by {
            if i > 0 && j > 0 {
                assert(m[i] == r[i - 1] && m[j] == r[j - 1]);
            } else if i == 0 {
                assert(m[j] == r[j - 1]);
            } else {
                assert(m[i] == r[i - 1]);
            }
        }
    }
}

} // verus!

verus! {

proof fn lemma_kept(s: Seq<EntryView>, removed: Set<Seq<char>>)
    ensures
        forall|e: EntryView| #[trigger]
            kept(s, removed).contains(e) <==> (s.contains(e) && !removed.contains(e.0)),
        sorted_desc(s) ==> sorted_desc(kept(s, removed)),
        unique_paths(s) ==> unique_paths(kept(s, removed)),
    decreases s.len(),
{
    reveal(Seq::filter);
    let k = kept(s, removed);
    if s.len() == 0 {
        assert(k =~= Seq::<EntryView>::empty());
    } else {
        let d = s.drop_last();
        let x = s.last();
        lemma_kept(d, removed);
        let kd = kept(d, removed);
        assert(k == if !removed.contains(x.0) { kd.push(x) } else { kd });
        assert(s =~= d.push(x));
        assert forall|e: EntryView| #[trigger]
            k.contains(e) <==> (s.contains(e) && !removed.contains(e.0)) by {
            if k.contains(e) {
                let i = choose|i: int| 0 <= i < k.len() && k[i] == e;
                if i < kd.len() {
                    assert(kd.contains(e));
                    let j = choose|j: int| 0 <= j < d.len() && d[j] == e;
                    assert(s[j] == e);
                } else {
                    assert(s[s.len() - 1] == e);
                }
            }
            if s.contains(e) && !removed.contains(e.0) {
                let i = choose|i: int| 0 <= i < s.len() && s[i] == e;
                if i < d.len() {
                    assert(d[i] == e);
                    assert(kd.contains(e));
                    let j = choose|j: int| 0 <= j < kd.len() && kd[j] == e;
                    assert(k[j] == e);
                } else {
                    assert(k[k.len() - 1] == e);
                }
            }
        }
        if !removed.contains(x.0) {
            assert forall|j: int| 0 <= j < kd.len() implies #[trigger] d.contains(kd[j]) by {
                assert(kd.contains(kd[j]));
            }
            if sorted_desc(s) {
                assert(sorted_desc(d));
                assert forall|i: int, j: int| 0 <= i < j < k.len() implies k[i].1 >= k[j].1 by {
                    if j == k.len() - 1 {
                        assert(d.contains(kd[i]));
                        let m = choose|m: int| 0 <= m < d.len() && d[m] == kd[i];
                        assert(s[m] == kd[i]);
                    }
                }
            }
            if unique_paths(s) {
                assert forall|i: int, j: int|
                    0 <= i < k.len() && 0 <= j < k.len() && i != j implies k[i].0 != k[j].0 by {
                    if j == k.len() - 1 {
                        assert(d.contains(kd[i]));
                        let m = choose|m: int| 0 <= m < d.len() && d[m] == kd[i];
                        assert(s[m] == kd[i]);
                    } else if i == k.len() - 1 {
                        assert(d.contains(kd[j]));
                        let m = choose|m: int| 0 <= m < d.len() && d[m] == kd[j];
                        assert(s[m] == kd[j]);
                    }
                }
            }
        } else {
            if sorted_desc(s) {
                assert(sorted_desc(d));
            }
        }
    }
}

proof fn lemma_fresh(s: Seq<EntryView>, excluded: Set<Seq<char>>)
    ensures
        forall|e: EntryView| #[trigger]
            fresh_added(s, excluded).contains(e) ==> s.contains(e) && !excluded.contains(e.0),
        forall|p: Seq<char>| #[trigger]
            has_path(s, p) && !excluded.contains(p) ==> has_path(fresh_added(s, excluded), p),
        unique_paths(fresh_added(s, excluded)),
        sorted_desc(s) ==> sorted_desc(fresh_added(s, excluded)),
    decreases s.len(),
{
    let f = fresh_added(s, excluded);
    if s.len() > 0 {
        let d = s.drop_last();
        let x = s.last();
        lemma_fresh(d, excluded);
        let fd = fresh_added(d, excluded);
        let pushed = !(excluded.contains(x.0) || has_path(d, x.0));
        assert(f == if pushed { fd.push(x) } else { fd });
        assert forall|e: EntryView| #[trigger] f.contains(e) implies s.contains(e) && !excluded.contains(e.0) by {
            let i = choose|i: int| 0 <= i < f.len() && f[i] == e;
            if i < fd.len() {
                assert(fd.contains(e));
                let j = choose|j: int| 0 <= j < d.len() && d[j] == e;
                assert(s[j] == e);
            } else {
                assert(s[s.len() - 1] == e);
            }
        }
        assert forall|p: Seq<char>| #[trigger] has_path(s, p) && !excluded.contains(p) implies has_path(f, p) by {
            let i = choose|i: int| 0 <= i < s.len() && s[i].0 == p;
            if i < d.len() {
                assert(d[i].0 == p);
                assert(has_path(d, p));
                assert(has_path(fd, p));
                let j = choose|j: int| 0 <= j < fd.len() && fd[j].0 == p;
                assert(f[j].0 == p);
            } else if pushed {
                assert(f[f.len() - 1].0 == p);
            } else {
                assert(p == x.0);
                assert(has_path(d, p));
                assert(has_path(fd, p));
                let k = choose|k: int| 0 <= k < fd.len() && fd[k].0 == p;
                assert(f[k].0 == p);
            }
        }
        if pushed {
            assert forall|j: int| 0 <= j < fd.len() implies #[trigger] d.contains(fd[j]) by {
                assert(fd.contains(fd[j]));
            }
            assert forall|i: int, j: int|
                0 <= i < f.len() && 0 <= j < f.len() && i != j implies f[i].0 != f[j].0 by {
                if j == f.len() - 1 {
                    assert(d.contains(fd[i]));
                    let m = choose|m: int| 0 <= m < d.len() && d[m] == fd[i];
                    assert(d[m].0 == fd[i].0);
                } else if i == f.len() - 1 {
                    assert(d.contains(fd[j]));
                    let m = choose|m: int| 0 <= m < d.len() && d[m] == fd[j];
                    assert(d[m].0 == fd[j].0);
                }
            }
            if sorted_desc(s) {
                assert(sorted_desc(d));
                assert forall|i: int, j: int| 0 <= i < j < f.len() implies f[i].1 >= f[j].1 by {
                    if j == f.len() - 1 {
                        assert(d.contains(fd[i]));
                        let m = choose|m: int| 0 <= m < d.len() && d[m] == fd[i];
                        assert(s[m] == fd[i]);
                    }
                }
            }
        } else {
            if sorted_desc(s) {
                assert(sorted_desc(d));
            }
        }
    }
}

/// Applying a delta leaves exactly the paths of the baseline and of the
/// added run that are not removed, whatever the runs hold.
pub proof fn lemma_apply_delta_paths(
    baseline: Seq<EntryView>,
    removed: Seq<Seq<char>>,
    added: Seq<EntryView>,
)
    ensures
        forall|p: Seq<char>|
            has_path(applied(baseline, removed, added), p) <==> ((has_path(baseline, p)
                || has_path(added, p)) && !removed.contains(p)),
{
    let rs = removed_set(removed);
    let ex = rs.union(path_set(added));
    let kb = kept(baseline, ex);
    let ka = fresh_added(added, rs);
    let r = applied(baseline, removed, added);
    lemma_kept(baseline, ex);
    lemma_fresh(added, rs);
    lemma_merge_contents(kb, ka);
    assert forall|p: Seq<char>|
        has_path(r, p) <==> ((has_path(baseline, p) || has_path(added, p))
            && !removed.contains(p)) by {
        if has_path(r, p) {
            let i = choose|i: int| 0 <= i < r.len() && r[i].0 == p;
            assert(r.contains(r[i]));
            if kb.contains(r[i]) {
                let x = choose|x: int| 0 <= x < baseline.len() && baseline[x] == r[i];
            } else {
                assert(ka.contains(r[i]));
                let y = choose|y: int| 0 <= y < added.len() && added[y] == r[i];
            }
        }
        if has_path(added, p) && !removed.contains(p) {
            assert(has_path(ka, p));
            let j = choose|j: int| 0 <= j < ka.len() && ka[j].0 == p;
            assert(ka.contains(ka[j]));
            assert(r.contains(ka[j]));
            let k = choose|k: int| 0 <= k < r.len() && r[k] == ka[j];
        } else if has_path(baseline, p) && !removed.contains(p) {
            let i = choose|i: int| 0 <= i < baseline.len() && baseline[i].0 == p;
            assert(!ex.contains(p));
            assert(baseline.contains(baseline[i]));
            assert(r.contains(baseline[i]));
            let j = choose|j: int| 0 <= j < r.len() && r[j] == baseline[i];
        }
    }
}

/// Applying a delta whose added run is sorted newest first to a baseline
/// sorted newest first gives a baseline sorted newest first.
pub proof fn lemma_apply_delta_sorted(
    baseline: Seq<EntryView>,
    removed: Seq<Seq<char>>,
    added: Seq<EntryView>,
)
    requires
        sorted_desc(baseline),
        sorted_desc(added),
    ensures
        sorted_desc(applied(baseline, removed, added)),
{
    let rs = removed_set(removed);
    let ex = rs.union(path_set(added));
    lemma_kept(baseline, ex);
    lemma_fresh(added, rs);
    lemma_merge_order(kept(baseline, ex), fresh_added(added, rs));
}

/// Applying any delta to a baseline that repeats no path gives a baseline
/// that repeats no path.
pub proof fn lemma_apply_delta_unique(
    baseline: Seq<EntryView>,
    removed: Seq<Seq<char>>,
    added: Seq<EntryView>,
)
    requires
        unique_paths(baseline),
    ensures
        unique_paths(applied(baseline, removed, added)),
{
    let rs = removed_set(removed);
    let ex = rs.union(path_set(added));
    let kb = kept(baseline, ex);
    let ka = fresh_added(added, rs);
    lemma_kept(baseline, ex);
    lemma_fresh(added, rs);
    assert forall|i: int, j: int| 0 <= i < kb.len() && 0 <= j < ka.len() implies kb[i].0
        != ka[j].0 by {
        assert(kb.contains(kb[i]));
        assert(ka.contains(ka[j]));
        let y = choose|y: int| 0 <= y < added.len() && added[y] == ka[j];
        assert(has_path(added, ka[j].0));
        assert(ex.contains(ka[j].0));
    }
    lemma_merge_unique(kb, ka);
}

} // verus!
