//! The delivery worker's plan: a delta is sent in chunks of bounded size,
//! the removed paths travelling with the first.
use vstd::prelude::*;
use crate::baseline::clone_entry;
use crate::file_change_data::{EntryView, FileAddData, FileChangeData, FileRemoveData};

verus! {

/// A message queued for one live connection.
#[derive(Debug)]
pub enum WebSocketActorEvent {
    Change(FileChangeData),
}

/// The added entries that chunk `i` carries when chunks hold `c` entries.
pub open spec fn chunk_of(added: Seq<EntryView>, c: nat, i: int) -> Seq<EntryView> {
    let start = i * c;
    let end = if (i + 1) * c < added.len() {
        (i + 1) * c
    } else {
        added.len() as int
    };
    added.subrange(start, end)
}

/// A copy of `v[from..to]`.
fn copy_range(v: &Vec<(String, i64)>, from: usize, to: usize) -> (r: Vec<(String, i64)>)
    requires
        from <= to <= v@.len(),
    ensures
        FileAddData(r)@ == FileAddData(*v)@.subrange(from as int, to as int),
{
    let mut out: Vec<(String, i64)> = Vec::new();
    let mut i: usize = from;
    while i < to
        invariant
            from <= i <= to <= v@.len(),
            FileAddData(out)@ == FileAddData(*v)@.subrange(from as int, i as int),
        decreases to - i,
    {
        let ghost before = out;
        out.push(clone_entry(&v[i]));
        assert(FileAddData(out)@ =~= FileAddData(before)@.push(FileAddData(*v)@[i as int]));
        assert(FileAddData(out)@ =~= FileAddData(*v)@.subrange(from as int, i + 1));
        i = i + 1;
    }
    out
}

/// A copy of a list of paths.
fn copy_paths(v: &Vec<String>) -> (r: Vec<String>)
    ensures
        FileRemoveData(r)@ == FileRemoveData(*v)@,
{
    let mut out: Vec<String> = Vec::new();
    let mut i: usize = 0;
    while i < v.len()
        invariant
            i <= v@.len(),
            FileRemoveData(out)@ == FileRemoveData(*v)@.subrange(0, i as int),
        decreases v.len() - i,
    {
        let ghost before = out;
        out.push(v[i].clone());
        assert(FileRemoveData(out)@ =~= FileRemoveData(before)@.push(v@[i as int]@));
        assert(FileRemoveData(out)@ =~= FileRemoveData(*v)@.subrange(0, i + 1));
        i = i + 1;
    }
    assert(FileRemoveData(*v)@.subrange(0, v@.len() as int) =~= FileRemoveData(*v)@);
    out
}

/// Splits `change` into the messages sent to one connection: chunk `i`
/// carries the added entries from `i * chunk_size` on, at most `chunk_size`
/// of them, and only the first carries the removed paths. There are just
/// enough chunks to hold every added entry, and one when nothing is added.
pub fn chunk_change(change: &FileChangeData, chunk_size: usize) -> (r: Vec<FileChangeData>)
    requires
        chunk_size > 0,
    ensures
        r@.len() >= 1,
        change.added@.len() == 0 ==> r@.len() == 1,
        change.added@.len() > 0 ==> (r@.len() - 1) * chunk_size < change.added@.len() <= r@.len()
            * chunk_size,
        r@[0].removed@ == change.removed@,
        forall|i: int| 0 < i < r@.len() ==> (#[trigger] r@[i]).removed@.len() == 0,
        forall|i: int|
            0 <= i < r@.len() ==> (#[trigger] r@[i]).added@ == chunk_of(
                change.added@,
                chunk_size as nat,
                i,
            ),
{
    let k = change.added.0.len();
    let c = chunk_size;
    let mut out: Vec<FileChangeData> = Vec::new();
    let mut start: usize = 0;
    assert(0 * c == 0);
    while start < k || out.len() == 0
        invariant
            k == change.added@.len(),
            c == chunk_size,
            c > 0,
            start <= k,
            out@.len() == 0 ==> start == 0,
            k == 0 ==> out@.len() <= 1,
            k > 0 && out@.len() > 0 ==> (out@.len() - 1) * c < k,
            start == if out@.len() * c < k {
                out@.len() * c
            } else {
                k as int
            },
            out@.len() > 0 ==> out@[0].removed@ == change.removed@,
            forall|i: int| 0 < i < out@.len() ==> (#[trigger] out@[i]).removed@.len() == 0,
            forall|i: int|
                0 <= i < out@.len() ==> (#[trigger] out@[i]).added@ == chunk_of(
                    change.added@,
                    c as nat,
                    i,
                ),
        decreases k - start + if out@.len() == 0 { 1int } else { 0int },
    {
        let n = out.len();
        let end = if k - start > c { start + c } else { k };
        proof {
            assert((n + 1) * c == n * c + c) by (nonlinear_arith);
            assert(n * c >= 0) by (nonlinear_arith)
                requires
                    c > 0,
            ;
        }
        let added = copy_range(&change.added.0, start, end);
        let removed = if n == 0 { copy_paths(&change.removed.0) } else { Vec::new() };
        let ghost ev: Seq<Seq<char>> = FileRemoveData(removed)@;
        out.push(FileChangeData { removed: FileRemoveData(removed), added: FileAddData(added) });
        proof {
            if n > 0 {
                assert(ev =~= Seq::<Seq<char>>::empty());
            }
            assert(out@[n as int].added@ == chunk_of(change.added@, c as nat, n as int));
        }
        start = end;
    }
    proof {
        let n = out@.len();
        if k > 0 {
            assert((n - 1) * c + c == n * c) by (nonlinear_arith);
        }
    }
    out
}

/// How often a connection refreshes its token: nine tenths of the token's
/// time to live, so that it is refreshed before it expires.
pub fn token_refresh_interval_millis(ttl_millis: u64) -> (r: u64)
    ensures
        r == (ttl_millis * 9) / 10,
{
    let q = ttl_millis / 10;
    let m = ttl_millis % 10;
    proof {
        assert(ttl_millis * 9 == (q * 9 + (m * 9) / 10) * 10 + (m * 9) % 10) by (nonlinear_arith)
            requires
                ttl_millis == q * 10 + m,
                0 <= m < 10,
        ;
        assert((ttl_millis * 9) / 10 == q * 9 + (m * 9) / 10) by (nonlinear_arith)
            requires
                ttl_millis * 9 == (q * 9 + (m * 9) / 10) * 10 + (m * 9) % 10,
                0 <= (m * 9) % 10 < 10,
        ;
        assert(q * 9 <= u64::MAX) by (nonlinear_arith)
            requires
                q == ttl_millis / 10,
        ;
    }
    q * 9 + (m * 9) / 10
}

} // verus!
