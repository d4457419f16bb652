//! The baseline tracker: it owns the baseline, applies each delta to it,
//! and decides which subscribers stay registered.
use vstd::prelude::*;
use crate::baseline::{apply_delta, applied, clone_entry, has_path, lemma_apply_delta_paths, lemma_apply_delta_sorted, lemma_apply_delta_unique, sorted_desc, unique_paths};
use crate::file_change_data::{EntryView, FileAddData, FileChangeData, FileRemoveData};

verus! {

/// The items of `s` whose flag in `ok` is set, in their order.
pub open spec fn kept_where<T>(s: Seq<T>, ok: Seq<bool>) -> Seq<T>
    decreases s.len(),
{
    if s.len() == 0 || ok.len() == 0 {
        Seq::empty()
    } else if ok.last() {
        kept_where(s.drop_last(), ok.drop_last()).push(s.last())
    } else {
        kept_where(s.drop_last(), ok.drop_last())
    }
}

/// Splits `subscribers` by the outcome of a send to each: those whose
/// send succeeded stay, in their order; the others are handed back to be
/// torn down, in their order.
pub fn partition_by_delivery<T>(subscribers: Vec<T>, delivered: &Vec<bool>) -> (r: (Vec<T>, Vec<T>))
    requires
        subscribers@.len() == delivered@.len(),
    ensures
        r.0@ == kept_where(subscribers@, delivered@),
        r.1@ == kept_where(subscribers@, delivered@.map_values(|b: bool| !b)),
{
    let ghost s = subscribers@;
    let ghost neg = delivered@.map_values(|b: bool| !b);
    let mut rest = subscribers;
    let mut kept_rev: Vec<T> = Vec::new();
    let mut failed_rev: Vec<T> = Vec::new();
    let mut n: usize = rest.len();
    assert(delivered@.subrange(0, n as int) =~= delivered@);
    assert(neg.subrange(0, n as int) =~= neg);
    assert(rest@.subrange(0, n as int) =~= rest@);
    assert(kept_rev@.reverse() =~= Seq::<T>::empty());
    assert(failed_rev@.reverse() =~= Seq::<T>::empty());
    assert(kept_where(s, delivered@) + kept_rev@.reverse() =~= kept_where(s, delivered@));
    assert(kept_where(s, neg) + failed_rev@.reverse() =~= kept_where(s, neg));
    while n > 0
        invariant
            n == rest@.len(),
            n <= s.len(),
            s.len() == delivered@.len(),
            neg == delivered@.map_values(|b: bool| !b),
            rest@ == s.subrange(0, n as int),
            kept_where(s, delivered@) == kept_where(rest@, delivered@.subrange(0, n as int))
                + kept_rev@.reverse(),
            kept_where(s, neg) == kept_where(rest@, neg.subrange(0, n as int)) + failed_rev@.reverse(),
        decreases n,
    {
        let ghost r0 = rest@;
        let ghost kr = kept_rev@;
        let ghost fr = failed_rev@;
        let item = rest.pop().unwrap();
        n = n - 1;
        let ghost d = delivered@.subrange(0, n + 1);
        let ghost g = neg.subrange(0, n + 1);
        assert(r0.drop_last() =~= rest@);
        assert(d.drop_last() =~= delivered@.subrange(0, n as int));
        assert(g.drop_last() =~= neg.subrange(0, n as int));
        assert(g.last() == !d.last());
        if delivered[n] {
            kept_rev.push(item);
            assert(kept_rev@.reverse() =~= seq![r0.last()] + kr.reverse());
            assert(kept_where(r0, d) == kept_where(rest@, d.drop_last()).push(r0.last()));
            assert(kept_where(rest@, d.drop_last()).push(r0.last()) + kr.reverse() =~= kept_where(
                rest@,
                d.drop_last(),
            ) + kept_rev@.reverse());
        } else {
            failed_rev.push(item);
            assert(failed_rev@.reverse() =~= seq![r0.last()] + fr.reverse());
            assert(kept_where(r0, g) == kept_where(rest@, g.drop_last()).push(r0.last()));
            assert(kept_where(rest@, g.drop_last()).push(r0.last()) + fr.reverse() =~= kept_where(
                rest@,
                g.drop_last(),
            ) + failed_rev@.reverse());
        }
    }
    assert(kept_where(rest@, delivered@.subrange(0, 0)) =~= Seq::<T>::empty());
    assert(kept_where(rest@, neg.subrange(0, 0)) =~= Seq::<T>::empty());
    let mut kept: Vec<T> = Vec::new();
    let mut failed: Vec<T> = Vec::new();
    let ghost k0 = kept_rev@.reverse();
    let ghost f0 = failed_rev@.reverse();
    assert(kept_where(s, delivered@) =~= k0);
    assert(kept_where(s, neg) =~= f0);
    while kept_rev.len() > 0
        invariant
            kept@ + kept_rev@.reverse() == k0,
        decreases kept_rev.len(),
    {
        let ghost kr = kept_rev@;
        let x = kept_rev.pop().unwrap();
        proof {
            assert(kr.reverse() =~= seq![x] + kept_rev@.reverse());
        }
        kept.push(x);
        assert(kept@ + kept_rev@.reverse() =~= k0);
    }
    assert(kept@ =~= k0);
    while failed_rev.len() > 0
        invariant
            failed@ + failed_rev@.reverse() == f0,
        decreases failed_rev.len(),
    {
        let ghost fr = failed_rev@;
        let x = failed_rev.pop().unwrap();
        proof {
            assert(fr.reverse() =~= seq![x] + failed_rev@.reverse());
        }
        failed.push(x);
        assert(failed@ + failed_rev@.reverse() =~= f0);
    }
    assert(failed@ =~= f0);
    (kept, failed)
}

/// The baseline of known files, newest first, as the tracker holds it.
pub struct FileTracker {
    baseline: FileAddData,
}

impl FileTracker {
    pub closed spec fn baseline(&self) -> Seq<EntryView> {
        self.baseline@
    }

    /// The baseline is sorted newest first and repeats no path.
    pub open spec fn wf(&self) -> bool {
        sorted_desc(self.baseline()) && unique_paths(self.baseline())
    }

    /// A tracker whose baseline is empty.
    pub fn new() -> (r: Self)
        ensures
            r.wf(),
            r.baseline() == Seq::<EntryView>::empty(),
    {
        FileTracker { baseline: FileAddData::new() }
    }

    /// The message a new subscriber gets first: nothing removed, and the
    /// whole baseline added, in baseline order.
    pub fn full_sync(&self) -> (r: FileChangeData)
        ensures
            r.removed@ == Seq::<Seq<char>>::empty(),
            r.added@ == self.baseline(),
    {
        let mut added: Vec<(String, i64)> = Vec::new();
        let mut i: usize = 0;
        while i < self.baseline.0.len()
            invariant
                i <= self.baseline.0@.len(),
                FileAddData(added)@ == self.baseline@.subrange(0, i as int),
            decreases self.baseline.0.len() - i,
        {
            let ghost before = added;
            added.push(clone_entry(&self.baseline.0[i]));
            assert(FileAddData(added)@ =~= FileAddData(before)@.push(self.baseline@[i as int]));
            assert(FileAddData(added)@ =~= self.baseline@.subrange(0, i + 1));
            i = i + 1;
        }
        assert(self.baseline@.subrange(0, self.baseline.0@.len() as int) =~= self.baseline@);
        let r = FileChangeData { removed: FileRemoveData(Vec::new()), added: FileAddData(added) };
        assert(r.removed@ =~= Seq::<Seq<char>>::empty());
        r
    }

    /// Applies `change` to the baseline. The new baseline holds exactly the
    /// paths of the old one and of the added run that are not removed; it
    /// repeats no path when the old one repeats none, whatever the delta;
    /// and it is sorted newest first when the old one and the added run are.
    pub fn handle_change(&mut self, change: &FileChangeData)
        ensures
            final(self).baseline() == applied(old(self).baseline(), change.removed@, change.added@),
            forall|p: Seq<char>|
                has_path(final(self).baseline(), p) <==> ((has_path(old(self).baseline(), p)
                    || has_path(change.added@, p)) && !change.removed@.contains(p)),
            unique_paths(old(self).baseline()) ==> unique_paths(final(self).baseline()),
            sorted_desc(old(self).baseline()) && sorted_desc(change.added@) ==> sorted_desc(
                final(self).baseline(),
            ),
            old(self).wf() && sorted_desc(change.added@) ==> final(self).wf(),
    {
        proof {
            lemma_apply_delta_paths(self.baseline(), change.removed@, change.added@);
            if sorted_desc(self.baseline()) && sorted_desc(change.added@) {
                lemma_apply_delta_sorted(self.baseline(), change.removed@, change.added@);
            }
            if unique_paths(self.baseline()) {
                lemma_apply_delta_unique(self.baseline(), change.removed@, change.added@);
            }
        }
        self.baseline = apply_delta(&self.baseline, change);
    }
}

} // verus!
