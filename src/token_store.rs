//! The token store: which identity each token belongs to, and when each
//! identity's tokens expire. Deadlines are milliseconds on the caller's
//! monotonic clock.
use vstd::prelude::*;
use crate::authentication::{is_uuid_v4_text, Token, Username};
use crate::baseline::contains_path;
use crate::file_change_data::{string_views, EntryView};

verus! {

/// The keys of an association list.
pub open spec fn keys<V>(s: Seq<(Seq<char>, V)>) -> Seq<Seq<char>> {
    s.map_values(|e: (Seq<char>, V)| e.0)
}

/// Some entry of `s` has key `k`.
pub open spec fn has_key<V>(s: Seq<(Seq<char>, V)>, k: Seq<char>) -> bool {
    exists|i: int| 0 <= i < s.len() && #[trigger] s[i].0 == k
}

/// The position of some entry of `s` with key `k`.
pub open spec fn key_index<V>(s: Seq<(Seq<char>, V)>, k: Seq<char>) -> int {
    choose|i: int| 0 <= i < s.len() && #[trigger] s[i].0 == k
}

/// The map that an association list without repeated keys stands for.
pub open spec fn assoc<V>(s: Seq<(Seq<char>, V)>) -> Map<Seq<char>, V> {
    Map::new(
        |k: Seq<char>| has_key(s, k),
        |k: Seq<char>| s[key_index(s, k)].1,
    )
}

proof fn lemma_assoc_index<V>(s: Seq<(Seq<char>, V)>, i: int)
    requires
        keys(s).no_duplicates(),
        0 <= i < s.len(),
    ensures
        assoc(s).contains_key(s[i].0),
        assoc(s)[s[i].0] == s[i].1,
{
    let k = s[i].0;
    assert(has_key(s, k));
    let j = key_index(s, k);
    assert(assoc(s)[k] == s[j].1);
    assert(keys(s)[i] == s[i].0);
    assert(keys(s)[j] == s[j].0);
    assert(i == j);
}

proof fn lemma_assoc_push<V>(s: Seq<(Seq<char>, V)>, k: Seq<char>, v: V)
    requires
        keys(s).no_duplicates(),
        !has_key(s, k),
    ensures
        keys(s.push((k, v))).no_duplicates(),
        assoc(s.push((k, v))) == assoc(s).insert(k, v),
{
    let t = s.push((k, v));
    assert forall|i: int, j: int| 0 <= i < t.len() && 0 <= j < t.len() && i != j implies keys(
        t,
    )[i] != keys(t)[j] by {
        if i < s.len() && j < s.len() {
            assert(keys(s)[i] != keys(s)[j]);
        } else if i < s.len() {
            assert(s[i].0 != k);
        } else {
            assert(s[j].0 != k);
        }
    }
    assert forall|x: Seq<char>| #[trigger] has_key(t, x) <==> has_key(s, x) || x == k by {
        if has_key(s, x) {
            let i = choose|i: int| 0 <= i < s.len() && #[trigger] s[i].0 == x;
            assert(t[i].0 == x);
        }
        if x == k {
            assert(t[s.len() as int].0 == x);
        }
        if has_key(t, x) && x != k {
            let i = choose|i: int| 0 <= i < t.len() && #[trigger] t[i].0 == x;
            assert(s[i].0 == x);
        }
    }
    assert forall|x: Seq<char>| #[trigger] assoc(t).contains_key(x) implies assoc(t)[x] == assoc(
        s,
    ).insert(k, v)[x] by {
        let i = choose|i: int| 0 <= i < t.len() && #[trigger] t[i].0 == x;
        lemma_assoc_index(t, i);
        if i < s.len() {
            lemma_assoc_index(s, i);
        }
    }
    assert(assoc(t) =~= assoc(s).insert(k, v));
}

proof fn lemma_assoc_update<V>(s: Seq<(Seq<char>, V)>, i: int, v: V)
    requires
        keys(s).no_duplicates(),
        0 <= i < s.len(),
    ensures
        keys(s.update(i, (s[i].0, v))) == keys(s),
        assoc(s.update(i, (s[i].0, v))) == assoc(s).insert(s[i].0, v),
{
    let k = s[i].0;
    let t = s.update(i, (k, v));
    assert(keys(t) =~= keys(s));
    assert forall|x: Seq<char>| #[trigger] has_key(t, x) <==> has_key(s, x) by {
        if has_key(s, x) {
            let j = choose|j: int| 0 <= j < s.len() && #[trigger] s[j].0 == x;
            assert(t[j].0 == x);
        }
        if has_key(t, x) {
            let j = choose|j: int| 0 <= j < t.len() && #[trigger] t[j].0 == x;
            assert(s[j].0 == x);
        }
    }
    lemma_assoc_index(s, i);
    assert forall|x: Seq<char>| #[trigger] assoc(t).contains_key(x) implies assoc(t)[x] == assoc(
        s,
    ).insert(k, v)[x] by {
        let j = choose|j: int| 0 <= j < t.len() && #[trigger] t[j].0 == x;
        lemma_assoc_index(t, j);
        lemma_assoc_index(s, j);
        if j != i {
            assert(keys(s)[j] != keys(s)[i]);
        }
    }
    assert(assoc(t) =~= assoc(s).insert(k, v));
}

proof fn lemma_assoc_remove<V>(s: Seq<(Seq<char>, V)>, i: int)
    requires
        keys(s).no_duplicates(),
        0 <= i < s.len(),
    ensures
        keys(s.remove(i)).no_duplicates(),
        assoc(s.remove(i)) == assoc(s).remove(s[i].0),
{
    let k = s[i].0;
    let t = s.remove(i);
    assert forall|a: int, b: int| 0 <= a < t.len() && 0 <= b < t.len() && a != b implies keys(
        t,
    )[a] != keys(t)[b] by {
        let a2 = if a < i { a } else { a + 1 };
        let b2 = if b < i { b } else { b + 1 };
        assert(keys(s)[a2] != keys(s)[b2]);
    }
    assert forall|x: Seq<char>| #[trigger] has_key(t, x) <==> has_key(s, x) && x != k by {
        if has_key(s, x) && x != k {
            let j = choose|j: int| 0 <= j < s.len() && #[trigger] s[j].0 == x;
            if j < i {
                assert(t[j].0 == x);
            } else {
                assert(j != i);
                assert(t[j - 1].0 == x);
            }
        }
        if has_key(t, x) {
            let j = choose|j: int| 0 <= j < t.len() && #[trigger] t[j].0 == x;
            let j2 = if j < i { j } else { j + 1 };
            assert(s[j2].0 == x);
            assert(keys(s)[j2] != keys(s)[i]);
        }
    }
    assert forall|x: Seq<char>| #[trigger] assoc(t).contains_key(x) implies assoc(t)[x] == assoc(
        s,
    )[x] by {
        let j = choose|j: int| 0 <= j < t.len() && #[trigger] t[j].0 == x;
        lemma_assoc_index(t, j);
        let j2 = if j < i { j } else { j + 1 };
        assert(s[j2] == t[j]);
        lemma_assoc_index(s, j2);
    }
    assert(assoc(t) =~= assoc(s).remove(k));
}

proof fn lemma_assoc_dom_len<V>(s: Seq<(Seq<char>, V)>)
    requires
        keys(s).no_duplicates(),
    ensures
        assoc(s).dom().len() == s.len(),
        assoc(s).dom().finite(),
{
    keys(s).unique_seq_to_set();
    assert forall|x: Seq<char>| #[trigger] assoc(s).dom().contains(x) <==> keys(s).to_set().contains(x) by {
        if has_key(s, x) {
            let j = choose|j: int| 0 <= j < s.len() && #[trigger] s[j].0 == x;
            assert(keys(s)[j] == x);
        }
        if keys(s).contains(x) {
            let j = choose|j: int| 0 <= j < keys(s).len() && keys(s)[j] == x;
            assert(s[j].0 == x);
        }
    }
    assert(assoc(s).dom() =~= keys(s).to_set());
}

/// The position of the entry with key `k`, if there is one.
fn find_key<V>(v: &Vec<(String, V)>, k: &String) -> (r: Option<usize>)
    ensures
        match r {
            Some(i) => i < v@.len() && v@[i as int].0@ == k@,
            None => forall|i: int| 0 <= i < v@.len() ==> v@[i].0@ != k@,
        },
{
    let mut i: usize = 0;
    while i < v.len()
        invariant
            i <= v.len(),
            forall|j: int| 0 <= j < i ==> v@[j].0@ != k@,
        decreases v.len() - i,
    {
        if v[i].0 == *k {
            return Some(i);
        }
        i = i + 1;
    }
    None
}

} // verus!

verus! {

/// Token and owner, as values.
pub open spec fn owner_entries(v: Seq<(String, String)>) -> Seq<(Seq<char>, Seq<char>)> {
    v.map_values(|e: (String, String)| (e.0@, e.1@))
}

/// Token and deadline, as values.
pub open spec fn deadline_entries(v: Seq<(String, i64)>) -> Seq<EntryView> {
    v.map_values(|e: (String, i64)| (e.0@, e.1))
}

/// Identity and the deadlines of its tokens, as values.
pub open spec fn user_entries(v: Seq<(String, Vec<(String, i64)>)>) -> Seq<
    (Seq<char>, Map<Seq<char>, i64>),
> {
    v.map_values(|e: (String, Vec<(String, i64)>)| (e.0@, assoc(deadline_entries(e.1@))))
}

/// The deadline `ttl` after `now`, held at the largest time there is.
pub open spec fn deadline_for(now: i64, ttl: i64) -> i64 {
    if now + ttl > i64::MAX {
        i64::MAX
    } else {
        (now + ttl) as i64
    }
}

/// Some identity has a deadline filed for token `t`.
pub open spec fn filed(deadlines: Map<Seq<char>, Map<Seq<char>, i64>>, t: Seq<char>) -> bool {
    exists|u: Seq<char>| deadlines.contains_key(u) && #[trigger] deadlines[u].contains_key(t)
}

/// Token `t` is in the store: an identity owns it, or a deadline is still
/// filed for it (a revoked token until the next cleanup).
pub open spec fn in_store(
    owners: Map<Seq<char>, Seq<char>>,
    deadlines: Map<Seq<char>, Map<Seq<char>, i64>>,
    t: Seq<char>,
) -> bool {
    owners.contains_key(t) || filed(deadlines, t)
}

/// `m` with the deadline of token `t` of identity `u` set to `d`.
pub open spec fn with_deadline(
    m: Map<Seq<char>, Map<Seq<char>, i64>>,
    u: Seq<char>,
    t: Seq<char>,
    d: i64,
) -> Map<Seq<char>, Map<Seq<char>, i64>> {
    m.insert(
        u,
        if m.contains_key(u) {
            m[u]
        } else {
            Map::empty()
        }.insert(t, d),
    )
}

/// The tokens that `owners` gives to identity `u`.
pub open spec fn owned_by(owners: Map<Seq<char>, Seq<char>>, u: Seq<char>) -> Set<Seq<char>> {
    Set::new(|t: Seq<char>| owners.contains_key(t) && owners[t] == u)
}

/// The tokens of `m`, deadlines of identity `u`, that are live at `now`:
/// their deadline is not before `now` and `owners` still gives them to `u`.
pub open spec fn live(
    m: Map<Seq<char>, i64>,
    owners: Map<Seq<char>, Seq<char>>,
    u: Seq<char>,
    now: i64,
) -> Map<Seq<char>, i64> {
    Map::new(
        |t: Seq<char>| m.contains_key(t) && m[t] >= now && owned_by(owners, u).contains(t),
        |t: Seq<char>| m[t],
    )
}

/// `after` is what a cleanup at `now` keeps of the deadlines `before` of
/// identity `u`: expired tokens and tokens no longer owned by `u` (revoked
/// ones) go, and of the live ones at most `cap` stay, none of them older
/// than a live token that went.
pub open spec fn cleaned_user(
    before: Map<Seq<char>, i64>,
    after: Map<Seq<char>, i64>,
    owners: Map<Seq<char>, Seq<char>>,
    u: Seq<char>,
    now: i64,
    cap: nat,
) -> bool {
    let l = live(before, owners, u, now);
    &&& after.dom().finite()
    &&& after.submap_of(l)
    &&& after.dom().len() == if l.dom().len() < cap {
        l.dom().len()
    } else {
        cap
    }
    &&& forall|t: Seq<char>, s: Seq<char>|
        #![trigger after.contains_key(t), l.contains_key(s)]
        after.contains_key(t) && l.contains_key(s) && !after.contains_key(s) ==> l[t] >= l[s]
}

/// What a cleanup at `now` keeps of every identity's tokens: identities
/// left without a token are gone.
pub open spec fn cleaned(
    before: Map<Seq<char>, Map<Seq<char>, i64>>,
    after: Map<Seq<char>, Map<Seq<char>, i64>>,
    owners: Map<Seq<char>, Seq<char>>,
    now: i64,
    cap: nat,
) -> bool {
    &&& forall|u: Seq<char>| #[trigger]
        after.contains_key(u) ==> before.contains_key(u) && after[u].dom().len() > 0
    &&& forall|u: Seq<char>| #[trigger]
        before.contains_key(u) ==> cleaned_user(
            before[u],
            if after.contains_key(u) {
                after[u]
            } else {
                Map::empty()
            },
            owners,
            u,
            now,
            cap,
        )
}

/// Every deadline in `deadlines` belongs to a token that `owners` gives to
/// the identity it is filed under.
pub open spec fn only_owned(
    owners: Map<Seq<char>, Seq<char>>,
    deadlines: Map<Seq<char>, Map<Seq<char>, i64>>,
) -> bool {
    forall|u: Seq<char>, t: Seq<char>|
        #![trigger deadlines[u].contains_key(t)]
        deadlines.contains_key(u) && deadlines[u].contains_key(t) ==> owners.contains_key(t)
            && owners[t] == u
}

/// The owned tokens that a cleanup from `before` to `after` took away.
pub open spec fn evicted(
    before: Map<Seq<char>, Map<Seq<char>, i64>>,
    after: Map<Seq<char>, Map<Seq<char>, i64>>,
    owners: Map<Seq<char>, Seq<char>>,
) -> Set<Seq<char>> {
    Set::new(
        |t: Seq<char>|
            exists|u: Seq<char>| #[trigger]
                before.contains_key(u) && before[u].contains_key(t) && owned_by(owners, u).contains(t)
                    && !(after.contains_key(u) && after[u].contains_key(t)),
    )
}

proof fn lemma_drop_step(
    dv: Seq<Seq<char>>,
    d0: Seq<Seq<char>>,
    m: Map<Seq<char>, i64>,
    o: Set<Seq<char>>,
    before: Map<Seq<char>, i64>,
    k: Seq<char>,
)
    requires
        before.contains_key(k),
        before.submap_of(m),
        o.contains(k),
        forall|t: Seq<char>| #[trigger]
            dv.contains(t) <==> (d0.contains(t) || (m.contains_key(t) && o.contains(t)
                && !before.contains_key(t))),
    ensures
        forall|t: Seq<char>| #[trigger]
            dv.push(k).contains(t) <==> (d0.contains(t) || (m.contains_key(t) && o.contains(t)
                && !before.remove(k).contains_key(t))),
{
    assert forall|t: Seq<char>| #[trigger]
        dv.push(k).contains(t) <==> (d0.contains(t) || (m.contains_key(t) && o.contains(t)
            && !before.remove(k).contains_key(t))) by {
        if dv.push(k).contains(t) && t != k {
            let j = choose|j: int| 0 <= j < dv.push(k).len() && dv.push(k)[j] == t;
            assert(dv[j] == t);
        }
        if dv.contains(t) {
            let j = choose|j: int| 0 <= j < dv.len() && dv[j] == t;
            assert(dv.push(k)[j] == t);
        }
        assert(dv.push(k)[dv.len() as int] == k);
    }
}

proof fn lemma_forget_step(
    dv: Seq<Seq<char>>,
    d0: Seq<Seq<char>>,
    m: Map<Seq<char>, i64>,
    o: Set<Seq<char>>,
    before: Map<Seq<char>, i64>,
    k: Seq<char>,
)
    requires
        !o.contains(k),
        forall|t: Seq<char>| #[trigger]
            dv.contains(t) <==> (d0.contains(t) || (m.contains_key(t) && o.contains(t)
                && !before.contains_key(t))),
    ensures
        forall|t: Seq<char>| #[trigger]
            dv.contains(t) <==> (d0.contains(t) || (m.contains_key(t) && o.contains(t)
                && !before.remove(k).contains_key(t))),
{
}

/// Whether `owners` gives token `t` to identity `u`.
fn is_owner(tokens: &Vec<(String, String)>, t: &String, u: &String) -> (r: bool)
    requires
        keys(owner_entries(tokens@)).no_duplicates(),
    ensures
        r == owned_by(assoc(owner_entries(tokens@)), u@).contains(t@),
{
    let ghost oe = owner_entries(tokens@);
    match find_key(tokens, t) {
        Some(i) => {
            proof {
                lemma_assoc_index(oe, i as int);
            }
            tokens[i].1 == *u
        },
        None => {
            proof {
                if has_key(oe, t@) {
                    let j = choose|j: int| 0 <= j < oe.len() && #[trigger] oe[j].0 == t@;
                    assert(tokens@[j].0@ == t@);
                }
            }
            false
        },
    }
}

/// The position of an entry with the earliest deadline.
fn oldest_index(v: &Vec<(String, i64)>) -> (r: usize)
    requires
        v@.len() > 0,
    ensures
        r < v@.len(),
        forall|k: int| 0 <= k < v@.len() ==> v@[r as int].1 <= #[trigger] v@[k].1,
{
    let mut best: usize = 0;
    let mut i: usize = 1;
    while i < v.len()
        invariant
            1 <= i <= v@.len(),
            best < i,
            forall|k: int| 0 <= k < i ==> v@[best as int].1 <= #[trigger] v@[k].1,
        decreases v.len() - i,
    {
        if v[i].1 < v[best].1 {
            best = i;
        }
        i = i + 1;
    }
    best
}

/// Drops from `entries`, the deadlines of identity `u`, the tokens that are
/// expired at `now` or no longer owned by `u`, then the oldest live ones
/// until at most `cap` are left. The owned tokens dropped are appended to
/// `dropped`.
fn clean_entries(
    entries: &mut Vec<(String, i64)>,
    tokens: &Vec<(String, String)>,
    u: &String,
    now: i64,
    cap: usize,
    dropped: &mut Vec<String>,
)
    requires
        keys(deadline_entries(old(entries)@)).no_duplicates(),
        keys(owner_entries(tokens@)).no_duplicates(),
    ensures
        keys(deadline_entries(final(entries)@)).no_duplicates(),
        cleaned_user(
            assoc(deadline_entries(old(entries)@)),
            assoc(deadline_entries(final(entries)@)),
            assoc(owner_entries(tokens@)),
            u@,
            now,
            cap as nat,
        ),
        forall|t: Seq<char>| #[trigger]
            string_views(final(dropped)@).contains(t) <==> (string_views(old(dropped)@).contains(t)
                || (assoc(deadline_entries(old(entries)@)).contains_key(t) && owned_by(
                assoc(owner_entries(tokens@)),
                u@,
            ).contains(t) && !assoc(deadline_entries(final(entries)@)).contains_key(t))),
{
    let ghost m = assoc(deadline_entries(entries@));
    let ghost d0 = string_views(dropped@);
    let ghost ow = assoc(owner_entries(tokens@));
    let ghost o = owned_by(ow, u@);
    let mut i: usize = 0;
    while i < entries.len()
        invariant
            i <= entries.len(),
            o == owned_by(ow, u@),
            ow == assoc(owner_entries(tokens@)),
            keys(owner_entries(tokens@)).no_duplicates(),
            keys(deadline_entries(entries@)).no_duplicates(),
            assoc(deadline_entries(entries@)).submap_of(m),
            forall|k: int| 0 <= k < i ==> #[trigger] entries@[k].1 >= now && o.contains(entries@[k].0@),
            forall|t: Seq<char>| #[trigger]
                m.contains_key(t) && !assoc(deadline_entries(entries@)).contains_key(t) ==> !(m[t]
                    >= now && o.contains(t)),
            forall|t: Seq<char>| #[trigger]
                string_views(dropped@).contains(t) <==> (d0.contains(t) || (m.contains_key(t)
                    && o.contains(t) && !assoc(deadline_entries(entries@)).contains_key(t))),
        decreases entries.len() - i,
    {
        let owned = is_owner(tokens, &entries[i].0, u);
        if entries[i].1 < now || !owned {
            let ghost es = deadline_entries(entries@);
            let ghost dv = string_views(dropped@);
            proof {
                lemma_assoc_index(es, i as int);
                lemma_assoc_remove(es, i as int);
            }
            let (t, _) = entries.remove(i);
            assert(deadline_entries(entries@) =~= es.remove(i as int));
            if owned {
                dropped.push(t);
                assert(string_views(dropped@) =~= dv.push(es[i as int].0));
                proof {
                    lemma_drop_step(dv, d0, m, o, assoc(es), es[i as int].0);
                }
            } else {
                proof {
                    lemma_forget_step(dv, d0, m, o, assoc(es), es[i as int].0);
                }
            }
        } else {
            i = i + 1;
        }
    }
    let ghost l = live(m, ow, u@, now);
    proof {
        let es = deadline_entries(entries@);
        assert forall|t: Seq<char>| assoc(es).contains_key(t) implies #[trigger] l.contains_key(t) && assoc(es)[t] == l[t] by {
            let j = choose|j: int| 0 <= j < es.len() && #[trigger] es[j].0 == t;
            lemma_assoc_index(es, j);
            assert(entries@[j].1 >= now && o.contains(entries@[j].0@));
        }
        assert(assoc(es) =~= l);
        lemma_assoc_dom_len(es);
    }
    while entries.len() > cap
        invariant
            keys(deadline_entries(entries@)).no_duplicates(),
            o == owned_by(ow, u@),
            l == live(m, ow, u@, now),
            l.dom().finite(),
            assoc(deadline_entries(entries@)).submap_of(l),
            entries@.len() == assoc(deadline_entries(entries@)).dom().len(),
            entries@.len() == l.dom().len() || entries@.len() >= cap,
            forall|t: Seq<char>, s: Seq<char>|
                #![trigger assoc(deadline_entries(entries@)).contains_key(t), l.contains_key(s)]
                assoc(deadline_entries(entries@)).contains_key(t) && l.contains_key(s)
                    && !assoc(deadline_entries(entries@)).contains_key(s) ==> l[t] >= l[s],
            forall|t: Seq<char>| #[trigger]
                string_views(dropped@).contains(t) <==> (d0.contains(t) || (m.contains_key(t)
                    && o.contains(t) && !assoc(deadline_entries(entries@)).contains_key(t))),
        decreases entries.len(),
    {
        let o_idx = oldest_index(entries);
        let ghost ev = entries@;
        let ghost es = deadline_entries(entries@);
        let ghost dv = string_views(dropped@);
        proof {
            lemma_assoc_index(es, o_idx as int);
            lemma_assoc_remove(es, o_idx as int);
        }
        let (t, _) = entries.remove(o_idx);
        assert(deadline_entries(entries@) =~= es.remove(o_idx as int));
        dropped.push(t);
        assert(string_views(dropped@) =~= dv.push(es[o_idx as int].0));
        proof {
            let ne = deadline_entries(entries@);
            assert(assoc(es).submap_of(m)) by {
                assert forall|x: Seq<char>| #[trigger] assoc(es).contains_key(x) implies m.contains_key(x)
                    && assoc(es)[x] == m[x] by {
                    assert(l.contains_key(x));
                }
            }
            assert(l.contains_key(es[o_idx as int].0));
            lemma_drop_step(dv, d0, m, o, assoc(es), es[o_idx as int].0);
            assert forall|x: Seq<char>| #[trigger] assoc(ne).contains_key(x) implies l.contains_key(x)
                && assoc(ne)[x] == l[x] by {
                assert(assoc(es).contains_key(x));
            }
            lemma_assoc_dom_len(ne);
            lemma_assoc_dom_len(es);
            assert forall|x: Seq<char>, y: Seq<char>|
                #![trigger assoc(ne).contains_key(x), l.contains_key(y)]
                assoc(ne).contains_key(x) && l.contains_key(y) && !assoc(ne).contains_key(y)
                    implies l[x] >= l[y] by {
                assert(assoc(es).contains_key(x));
                if y == es[o_idx as int].0 {
                    let j = choose|j: int| 0 <= j < es.len() && #[trigger] es[j].0 == x;
                    lemma_assoc_index(es, j);
                    assert(ev[o_idx as int].1 <= ev[j].1);
                } else {
                    assert(!assoc(es).contains_key(y));
                }
            }
        }
    }
    proof {
        let ne = deadline_entries(entries@);
        vstd::set_lib::lemma_len_subset(assoc(ne).dom(), l.dom());
        lemma_assoc_dom_len(ne);
    }
}

/// The cache of live sessions: the owner of each token, and per identity
/// the deadline of each of its tokens.
pub struct TokenStore {
    tokens: Vec<(String, String)>,
    token_deadlines: Vec<(String, Vec<(String, i64)>)>,
    auth_token_ttl: i64,
    auth_token_max_per_user: usize,
}

impl TokenStore {
    /// The identity each valid token belongs to.
    pub closed spec fn owners(&self) -> Map<Seq<char>, Seq<char>> {
        assoc(owner_entries(self.tokens@))
    }

    /// Per identity, the deadline of each of its tokens.
    pub closed spec fn deadlines(&self) -> Map<Seq<char>, Map<Seq<char>, i64>> {
        assoc(user_entries(self.token_deadlines@))
    }

    pub closed spec fn ttl(&self) -> i64 {
        self.auth_token_ttl
    }

    pub closed spec fn max_per_user(&self) -> nat {
        self.auth_token_max_per_user as nat
    }

    spec fn shape(&self) -> bool {
        &&& keys(owner_entries(self.tokens@)).no_duplicates()
        &&& keys(user_entries(self.token_deadlines@)).no_duplicates()
        &&& forall|i: int|
            0 <= i < self.token_deadlines@.len() ==> keys(
                deadline_entries(#[trigger] self.token_deadlines@[i].1@),
            ).no_duplicates()
        &&& self.auth_token_ttl >= 0
    }

    /// Every token has a deadline under the identity it belongs to.
    pub closed spec fn wf(&self) -> bool {
        &&& self.shape()
        &&& forall|t: Seq<char>| #[trigger]
            self.owners().contains_key(t) ==> self.deadlines().contains_key(self.owners()[t])
                && self.deadlines()[self.owners()[t]].contains_key(t)
        &&& forall|u: Seq<char>, t: Seq<char>|
            #![trigger self.deadlines()[u].contains_key(t)]
            self.deadlines().contains_key(u) && self.deadlines()[u].contains_key(t)
                && self.owners().contains_key(t) ==> self.owners()[t] == u
    }

    /// An empty store whose tokens live `auth_token_ttl` milliseconds after
    /// their last use, at most `auth_token_max_per_user` per identity.
    pub fn new(auth_token_ttl: i64, auth_token_max_per_user: usize) -> (r: Self)
        requires
            auth_token_ttl >= 0,
        ensures
            r.wf(),
            r.owners() == Map::<Seq<char>, Seq<char>>::empty(),
            r.deadlines() == Map::<Seq<char>, Map<Seq<char>, i64>>::empty(),
            r.ttl() == auth_token_ttl,
            r.max_per_user() == auth_token_max_per_user,
    {
        let r = TokenStore {
            tokens: Vec::new(),
            token_deadlines: Vec::new(),
            auth_token_ttl,
            auth_token_max_per_user,
        };
        assert(r.owners() =~= Map::<Seq<char>, Seq<char>>::empty());
        assert(r.deadlines() =~= Map::<Seq<char>, Map<Seq<char>, i64>>::empty());
        r
    }

    fn make_deadline(&self, now: i64) -> (r: i64)
        requires
            self.auth_token_ttl >= 0,
        ensures
            r == deadline_for(now, self.ttl()),
    {
        if now > i64::MAX - self.auth_token_ttl {
            i64::MAX
        } else {
            now + self.auth_token_ttl
        }
    }

    /// Sets the deadline of token `t` of identity `u`.
    fn set_deadline(&mut self, u: &String, t: &String, d: i64)
        requires
            old(self).shape(),
        ensures
            final(self).shape(),
            final(self).tokens == old(self).tokens,
            final(self).auth_token_ttl == old(self).auth_token_ttl,
            final(self).auth_token_max_per_user == old(self).auth_token_max_per_user,
            final(self).deadlines() == with_deadline(old(self).deadlines(), u@, t@, d),
    {
        let ghost m = self.deadlines();
        match find_key(&self.token_deadlines, u) {
            Some(i) => {
                let ghost outer = self.token_deadlines@;
                let (name, mut inner) = self.token_deadlines.remove(i);
                let ghost iv = deadline_entries(inner@);
                assert(keys(deadline_entries(outer[i as int].1@)).no_duplicates());
                proof {
                    lemma_assoc_index(user_entries(outer), i as int);
                }
                match find_key(&inner, t) {
                    Some(j) => {
                        inner.set(j, (t.clone(), d));
                        proof {
                            assert(deadline_entries(inner@) =~= iv.update(j as int, (iv[j as int].0, d)));
                            lemma_assoc_update(iv, j as int, d);
                        }
                    },
                    None => {
                        inner.push((t.clone(), d));
                        proof {
                            assert(deadline_entries(inner@) =~= iv.push((t@, d)));
                            assert(!has_key(iv, t@));
                            lemma_assoc_push(iv, t@, d);
                        }
                    },
                }
                self.token_deadlines.insert(i, (name, inner));
                proof {
                    let ue = user_entries(outer);
                    let nv = assoc(deadline_entries(inner@));
                    assert(self.token_deadlines@ =~= outer.update(i as int, (name, inner)));
                    assert(user_entries(self.token_deadlines@) =~= ue.update(i as int, (ue[i as int].0, nv)));
                    lemma_assoc_update(ue, i as int, nv);
                    assert(nv =~= m[u@].insert(t@, d));
                }
            },
            None => {
                let ghost outer = self.token_deadlines@;
                let mut inner: Vec<(String, i64)> = Vec::new();
                inner.push((t.clone(), d));
                let ghost iv = deadline_entries(inner@);
                assert(iv =~= seq![(t@, d)]);
                assert(keys(iv) =~= seq![t@]);
                self.token_deadlines.push((u.clone(), inner));
                proof {
                    let ue = user_entries(outer);
                    let nv = assoc(iv);
                    assert(user_entries(self.token_deadlines@) =~= ue.push((u@, nv)));
                    assert(!has_key(ue, u@));
                    lemma_assoc_push(ue, u@, nv);
                    lemma_assoc_push(Seq::<EntryView>::empty(), t@, d);
                    assert(Seq::<EntryView>::empty().push((t@, d)) =~= iv);
                    assert(assoc(Seq::<EntryView>::empty()) =~= Map::<Seq<char>, i64>::empty());
                }
            },
        }
    }

    proof fn lemma_deadline_set_keeps(&self, old_store: &Self, u: Seq<char>, t: Seq<char>, d: i64)
        requires
            old_store.wf(),
            self.shape(),
            self.deadlines() == with_deadline(old_store.deadlines(), u, t, d),
            self.owners().contains_key(t) && self.owners()[t] == u,
            forall|x: Seq<char>| #[trigger]
                self.owners().contains_key(x) && x != t ==> old_store.owners().contains_key(x)
                    && self.owners()[x] == old_store.owners()[x],
            forall|u2: Seq<char>|
                old_store.deadlines().contains_key(u2) && #[trigger] old_store.deadlines()[u2].contains_key(
                    t,
                ) ==> u2 == u,
        ensures
            self.wf(),
    {
        assert forall|u2: Seq<char>, t2: Seq<char>|
            self.deadlines().contains_key(u2) && #[trigger] self.deadlines()[u2].contains_key(t2)
                && self.owners().contains_key(t2) implies self.owners()[t2] == u2 by {
            if !(u2 == u && t2 == t) {
                assert(old_store.deadlines().contains_key(u2) && old_store.deadlines()[u2].contains_key(t2));
                if t2 != t {
                    assert(old_store.owners().contains_key(t2));
                }
            }
        }
        assert forall|x: Seq<char>| #[trigger] self.owners().contains_key(x) implies self.deadlines().contains_key(
            self.owners()[x],
        ) && self.deadlines()[self.owners()[x]].contains_key(x) by {
            if x == t {
            } else {
                let ou = old_store.owners()[x];
                assert(old_store.owners().contains_key(x));
                assert(old_store.deadlines()[ou].contains_key(x));
            }
        }
    }

    /// Accepts `token` when it belongs to an identity, and then moves its
    /// deadline to `ttl` after `now`. An unknown token changes nothing.
    pub fn check_and_refresh_token(&mut self, token: &Token, now: i64) -> (r: bool)
        requires
            old(self).wf(),
        ensures
            final(self).wf(),
            r == old(self).owners().contains_key(token.0@),
            final(self).owners() == old(self).owners(),
            final(self).ttl() == old(self).ttl(),
            final(self).max_per_user() == old(self).max_per_user(),
            r ==> final(self).deadlines() == with_deadline(
                old(self).deadlines(),
                old(self).owners()[token.0@],
                token.0@,
                deadline_for(now, old(self).ttl()),
            ),
            !r ==> final(self).deadlines() == old(self).deadlines(),
    {
        match find_key(&self.tokens, &token.0) {
            Some(i) => {
                proof {
                    lemma_assoc_index(owner_entries(self.tokens@), i as int);
                }
                let ghost before = *self;
                let u = self.tokens[i].1.clone();
                let d = self.make_deadline(now);
                self.set_deadline(&u, &token.0, d);
                proof {
                    self.lemma_deadline_set_keeps(&before, u@, token.0@, d);
                }
                true
            },
            None => {
                proof {
                    if has_key(owner_entries(self.tokens@), token.0@) {
                        let j = choose|j: int| 0 <= j < owner_entries(self.tokens@).len() && #[trigger] owner_entries(self.tokens@)[j].0 == token.0@;
                        assert(self.tokens@[j].0@ == token.0@);
                    }
                }
                false
            },
        }
    }

    /// Makes `token`, new to the store, a token of `username`, with a
    /// deadline `ttl` after `now`.
    fn insert_token(&mut self, username: &Username, token: &Token, now: i64)
        requires
            old(self).wf(),
            !in_store(old(self).owners(), old(self).deadlines(), token.0@),
        ensures
            final(self).wf(),
            final(self).owners() == old(self).owners().insert(token.0@, username.0@),
            final(self).deadlines() == with_deadline(
                old(self).deadlines(),
                username.0@,
                token.0@,
                deadline_for(now, old(self).ttl()),
            ),
            final(self).ttl() == old(self).ttl(),
            final(self).max_per_user() == old(self).max_per_user(),
    {
        let ghost before = *self;
        let ghost oe = owner_entries(self.tokens@);
        match find_key(&self.tokens, &token.0) {
            Some(i) => {
                self.tokens.set(i, (token.0.clone(), username.0.clone()));
                proof {
                    assert(owner_entries(self.tokens@) =~= oe.update(i as int, (oe[i as int].0, username.0@)));
                    lemma_assoc_update(oe, i as int, username.0@);
                }
            },
            None => {
                self.tokens.push((token.0.clone(), username.0.clone()));
                proof {
                    assert(owner_entries(self.tokens@) =~= oe.push((token.0@, username.0@)));
                    if has_key(oe, token.0@) {
                        let j = choose|j: int| 0 <= j < oe.len() && #[trigger] oe[j].0 == token.0@;
                        assert(self.tokens@[j].0@ == token.0@);
                    }
                    lemma_assoc_push(oe, token.0@, username.0@);
                }
            },
        }
        let d = self.make_deadline(now);
        self.set_deadline(&username.0, &token.0, d);
        proof {
            self.lemma_deadline_set_keeps(&before, username.0@, token.0@, d);
        }
    }

    /// Whether a deadline is filed for `t` under some identity.
    fn is_filed(&self, t: &String) -> (r: bool)
        requires
            self.shape(),
        ensures
            r == filed(self.deadlines(), t@),
    {
        let ghost ue = user_entries(self.token_deadlines@);
        let mut k: usize = 0;
        while k < self.token_deadlines.len()
            invariant
                k <= self.token_deadlines@.len(),
                self.shape(),
                ue == user_entries(self.token_deadlines@),
                forall|j: int| 0 <= j < k ==> !(#[trigger] ue[j]).1.contains_key(t@),
            decreases self.token_deadlines.len() - k,
        {
            assert(keys(deadline_entries(self.token_deadlines@[k as int].1@)).no_duplicates());
            match find_key(&self.token_deadlines[k].1, t) {
                Some(i) => {
                    proof {
                        lemma_assoc_index(deadline_entries(self.token_deadlines@[k as int].1@), i as int);
                        lemma_assoc_index(ue, k as int);
                        assert(self.deadlines()[ue[k as int].0].contains_key(t@));
                    }
                    return true;
                },
                None => {
                    proof {
                        let de = deadline_entries(self.token_deadlines@[k as int].1@);
                        if has_key(de, t@) {
                            let j = choose|j: int| 0 <= j < de.len() && #[trigger] de[j].0 == t@;
                            assert(self.token_deadlines@[k as int].1@[j].0@ == t@);
                        }
                    }
                },
            }
            k = k + 1;
        }
        proof {
            if filed(self.deadlines(), t@) {
                let u = choose|u: Seq<char>|
                    self.deadlines().contains_key(u) && #[trigger] self.deadlines()[u].contains_key(t@);
                let j = choose|j: int| 0 <= j < ue.len() && #[trigger] ue[j].0 == u;
                lemma_assoc_index(ue, j);
                assert(ue[j].1.contains_key(t@));
            }
        }
        false
    }

    /// Issues `token` to `username`, valid until `ttl` after `now`, when it
    /// is new to the store; a token still in the store (owned, or revoked
    /// but not yet swept) is refused and nothing changes.
    pub fn issue_token(&mut self, username: &Username, token: &Token, now: i64) -> (r: bool)
        requires
            old(self).wf(),
        ensures
            final(self).wf(),
            r == !in_store(old(self).owners(), old(self).deadlines(), token.0@),
            final(self).ttl() == old(self).ttl(),
            final(self).max_per_user() == old(self).max_per_user(),
            r ==> final(self).owners() == old(self).owners().insert(token.0@, username.0@),
            r ==> final(self).deadlines() == with_deadline(
                old(self).deadlines(),
                username.0@,
                token.0@,
                deadline_for(now, old(self).ttl()),
            ),
            !r ==> final(self).owners() == old(self).owners(),
            !r ==> final(self).deadlines() == old(self).deadlines(),
    {
        let owned = match find_key(&self.tokens, &token.0) {
            Some(i) => {
                proof {
                    lemma_assoc_index(owner_entries(self.tokens@), i as int);
                }
                true
            },
            None => {
                proof {
                    let oe = owner_entries(self.tokens@);
                    if has_key(oe, token.0@) {
                        let j = choose|j: int| 0 <= j < oe.len() && #[trigger] oe[j].0 == token.0@;
                        assert(self.tokens@[j].0@ == token.0@);
                    }
                }
                false
            },
        };
        if owned || self.is_filed(&token.0) {
            return false;
        }
        self.insert_token(username, token, now);
        true
    }

    /// Issues a freshly generated token, new to the store, to `username`,
    /// valid until `ttl` after `now`. It succeeds whenever no token in the
    /// store has the shape of a generated one; otherwise a draw may hit a
    /// token in use, and after a few such draws nothing is issued.
    pub fn get_token(&mut self, username: &Username, now: i64) -> (r: Option<Token>)
        requires
            old(self).wf(),
        ensures
            final(self).wf(),
            final(self).ttl() == old(self).ttl(),
            final(self).max_per_user() == old(self).max_per_user(),
            (forall|t: Seq<char>|
                in_store(old(self).owners(), old(self).deadlines(), t) ==> !is_uuid_v4_text(t))
                ==> r is Some,
            r matches Some(t) ==> !in_store(old(self).owners(), old(self).deadlines(), t.0@),
            r matches Some(t) ==> final(self).owners() == old(self).owners().insert(
                t.0@,
                username.0@,
            ),
            r matches Some(t) ==> final(self).deadlines() == with_deadline(
                old(self).deadlines(),
                username.0@,
                t.0@,
                deadline_for(now, old(self).ttl()),
            ),
            r is None ==> final(self).owners() == old(self).owners(),
            r is None ==> final(self).deadlines() == old(self).deadlines(),
    {
        let ghost clear = forall|t: Seq<char>|
            in_store(self.owners(), self.deadlines(), t) ==> !is_uuid_v4_text(t);
        let mut attempt: u32 = 0;
        while attempt < 4
            invariant
                self.wf(),
                self.owners() == old(self).owners(),
                self.deadlines() == old(self).deadlines(),
                self.ttl() == old(self).ttl(),
                self.max_per_user() == old(self).max_per_user(),
                clear == (forall|t: Seq<char>|
                    in_store(old(self).owners(), old(self).deadlines(), t) ==> !is_uuid_v4_text(t)),
                clear ==> attempt == 0,
            decreases 4 - attempt,
        {
            let token = Token::generate();
            if self.issue_token(username, &token, now) {
                return Some(token);
            }
            attempt = attempt + 1;
        }
        None
    }

    /// Withdraws `token`. Its deadline stays until the next cleanup.
    pub fn revoke_token(&mut self, token: &Token)
        requires
            old(self).wf(),
        ensures
            final(self).wf(),
            final(self).owners() == old(self).owners().remove(token.0@),
            final(self).deadlines() == old(self).deadlines(),
            final(self).ttl() == old(self).ttl(),
            final(self).max_per_user() == old(self).max_per_user(),
    {
        let ghost before = *self;
        let ghost oe = owner_entries(self.tokens@);
        match find_key(&self.tokens, &token.0) {
            Some(i) => {
                self.tokens.remove(i);
                proof {
                    assert(owner_entries(self.tokens@) =~= oe.remove(i as int));
                    lemma_assoc_remove(oe, i as int);
                }
            },
            None => {
                proof {
                    if has_key(oe, token.0@) {
                        let j = choose|j: int| 0 <= j < oe.len() && #[trigger] oe[j].0 == token.0@;
                        assert(self.tokens@[j].0@ == token.0@);
                    }
                    assert(assoc(oe) =~= assoc(oe).remove(token.0@));
                }
            },
        }
        proof {
            assert forall|x: Seq<char>| #[trigger] self.owners().contains_key(x) implies self.deadlines().contains_key(
                self.owners()[x],
            ) && self.deadlines()[self.owners()[x]].contains_key(x) by {
                assert(before.owners().contains_key(x));
                assert(self.owners()[x] == before.owners()[x]);
            }
            assert forall|u: Seq<char>, t: Seq<char>|
                self.deadlines().contains_key(u) && #[trigger] self.deadlines()[u].contains_key(t)
                    && self.owners().contains_key(t) implies self.owners()[t] == u by {
                assert(before.owners().contains_key(t));
                assert(before.deadlines()[u].contains_key(t));
            }
        }
    }

    /// Drops from the owners every token listed in `dropped`.
    fn remove_tokens(&mut self, dropped: &Vec<String>)
        requires
            keys(owner_entries(old(self).tokens@)).no_duplicates(),
        ensures
            keys(owner_entries(final(self).tokens@)).no_duplicates(),
            final(self).owners() == old(self).owners().remove_keys(string_views(dropped@).to_set()),
            final(self).token_deadlines == old(self).token_deadlines,
            final(self).auth_token_ttl == old(self).auth_token_ttl,
            final(self).auth_token_max_per_user == old(self).auth_token_max_per_user,
    {
        let ghost o = self.owners();
        let ghost dv = string_views(dropped@);
        let mut i: usize = 0;
        while i < self.tokens.len()
            invariant
                i <= self.tokens.len(),
                dv == string_views(dropped@),
                keys(owner_entries(self.tokens@)).no_duplicates(),
                self.owners().submap_of(o),
                forall|k: int| 0 <= k < i ==> !dv.contains(#[trigger] self.tokens@[k].0@),
                forall|t: Seq<char>| #[trigger]
                    o.contains_key(t) && !self.owners().contains_key(t) ==> dv.contains(t),
                self.token_deadlines == old(self).token_deadlines,
                self.auth_token_ttl == old(self).auth_token_ttl,
                self.auth_token_max_per_user == old(self).auth_token_max_per_user,
            decreases self.tokens.len() - i,
        {
            if contains_path(dropped, &self.tokens[i].0) {
                let ghost oe = owner_entries(self.tokens@);
                proof {
                    lemma_assoc_index(oe, i as int);
                    lemma_assoc_remove(oe, i as int);
                }
                self.tokens.remove(i);
                assert(owner_entries(self.tokens@) =~= oe.remove(i as int));
            } else {
                i = i + 1;
            }
        }
        proof {
            let oe = owner_entries(self.tokens@);
            assert forall|t: Seq<char>| #[trigger] self.owners().contains_key(t) implies !dv.to_set().contains(t) by {
                let j = choose|j: int| 0 <= j < oe.len() && #[trigger] oe[j].0 == t;
                assert(self.tokens@[j].0@ == t);
            }
            assert(self.owners() =~= o.remove_keys(dv.to_set()));
        }
    }

    /// The periodic sweep at `now`: per identity, expired and revoked tokens
    /// go, then the least recently refreshed ones until at most
    /// `max_per_user` are left; the owned tokens that go lose their owner,
    /// and identities without tokens go. Afterwards every deadline belongs
    /// to a token its identity owns.
    pub fn cleanup(&mut self, now: i64)
        requires
            old(self).wf(),
        ensures
            final(self).wf(),
            cleaned(
                old(self).deadlines(),
                final(self).deadlines(),
                old(self).owners(),
                now,
                old(self).max_per_user(),
            ),
            final(self).owners() == old(self).owners().remove_keys(
                evicted(old(self).deadlines(), final(self).deadlines(), old(self).owners()),
            ),
            only_owned(final(self).owners(), final(self).deadlines()),
            final(self).ttl() == old(self).ttl(),
            final(self).max_per_user() == old(self).max_per_user(),
    {
        let ghost before = *self;
        let ghost om = self.deadlines();
        let ghost ov = self.token_deadlines@;
        let ghost ou = user_entries(ov);
        let ghost ow = self.owners();
        let cap = self.auth_token_max_per_user;
        let mut outer: Vec<(String, Vec<(String, i64)>)> = Vec::new();
        std::mem::swap(&mut outer, &mut self.token_deadlines);
        let mut done: Vec<(String, Vec<(String, i64)>)> = Vec::new();
        let mut dropped: Vec<String> = Vec::new();
        assert(assoc(user_entries(done@)) =~= Map::<Seq<char>, Map<Seq<char>, i64>>::empty());
        while outer.len() > 0
            invariant
                outer@.len() <= ov.len(),
                outer@ == ov.subrange(0, outer@.len() as int),
                ou == user_entries(ov),
                om == assoc(ou),
                keys(ou).no_duplicates(),
                forall|k: int| 0 <= k < ov.len() ==> keys(deadline_entries(#[trigger] ov[k].1@)).no_duplicates(),
                cap == before.auth_token_max_per_user,
                self.tokens == before.tokens,
                ow == assoc(owner_entries(self.tokens@)),
                keys(owner_entries(self.tokens@)).no_duplicates(),
                keys(user_entries(done@)).no_duplicates(),
                forall|k: int|
                    0 <= k < done@.len() ==> keys(deadline_entries(#[trigger] done@[k].1@)).no_duplicates(),
                forall|u: Seq<char>| #[trigger]
                    assoc(user_entries(done@)).contains_key(u) ==> exists|k: int|
                        outer@.len() <= k < ov.len() && #[trigger] ou[k].0 == u,
                forall|u: Seq<char>| #[trigger]
                    assoc(user_entries(done@)).contains_key(u) ==> assoc(user_entries(done@))[u].dom().len() > 0,
                forall|k: int|
                    outer@.len() <= k < ov.len() ==> cleaned_user(
                        om[#[trigger] ou[k].0],
                        if assoc(user_entries(done@)).contains_key(ou[k].0) {
                            assoc(user_entries(done@))[ou[k].0]
                        } else {
                            Map::empty()
                        },
                        ow,
                        ou[k].0,
                        now,
                        cap as nat,
                    ),
                forall|t: Seq<char>| #[trigger]
                    string_views(dropped@).contains(t) <==> exists|k: int|
                        outer@.len() <= k < ov.len() && om[#[trigger] ou[k].0].contains_key(t)
                            && owned_by(ow, ou[k].0).contains(t) && !(assoc(
                            user_entries(done@),
                        ).contains_key(ou[k].0) && assoc(user_entries(done@))[ou[k].0].contains_key(
                            t,
                        )),
            decreases outer.len(),
        {
            let ghost n = outer@.len() - 1;
            let ghost nm = assoc(user_entries(done@));
            let ghost dv = string_views(dropped@);
            let (u, mut entries) = outer.pop().unwrap();
            assert(outer@ =~= ov.subrange(0, n));
            let ghost ue = deadline_entries(entries@);
            proof {
                assert(ov[n] == (u, entries));
                lemma_assoc_index(ou, n);
                assert(om[u@] == assoc(ue));
            }
            clean_entries(&mut entries, &self.tokens, &u, now, cap, &mut dropped);
            let ghost ne = deadline_entries(entries@);
            let ghost dn = user_entries(done@);
            proof {
                if has_key(dn, u@) {
                    let j = choose|j: int| 0 <= j < dn.len() && #[trigger] dn[j].0 == u@;
                    lemma_assoc_index(dn, j);
                    let k = choose|k: int| n + 1 <= k < ov.len() && #[trigger] ou[k].0 == u@;
                    assert(keys(ou)[k] == keys(ou)[n]);
                }
                assert(ou[n].0 == u@);
                lemma_assoc_dom_len(ne);
            }
            if entries.len() > 0 {
                done.push((u, entries));
                proof {
                    assert(user_entries(done@) =~= dn.push((u@, assoc(ne))));
                    lemma_assoc_push(dn, u@, assoc(ne));
                }
            } else {
                assert(assoc(ne) =~= Map::<Seq<char>, i64>::empty());
            }
            proof {
                let nm2 = assoc(user_entries(done@));
                assert(forall|x: Seq<char>| x != u@ ==> (#[trigger] nm2.contains_key(x) == nm.contains_key(x)));
                assert forall|x: Seq<char>| x != u@ && nm2.contains_key(x) implies #[trigger] nm2[x] == nm[x] by {}
                assert forall|u2: Seq<char>| #[trigger] nm2.contains_key(u2) implies exists|k: int|
                    outer@.len() <= k < ov.len() && #[trigger] ou[k].0 == u2 by {
                    if u2 == u@ {
                        assert(ou[n].0 == u2);
                    } else {
                        assert(nm.contains_key(u2));
                        let k = choose|k: int| n + 1 <= k < ov.len() && #[trigger] ou[k].0 == u2;
                    }
                }
                assert forall|k: int| outer@.len() <= k < ov.len() implies cleaned_user(
                    om[#[trigger] ou[k].0],
                    if nm2.contains_key(ou[k].0) {
                        nm2[ou[k].0]
                    } else {
                        Map::empty()
                    },
                    ow,
                    ou[k].0,
                    now,
                    cap as nat,
                ) by {
                    if k > n {
                        assert(keys(ou)[k] != keys(ou)[n]);
                    }
                }
                assert forall|t: Seq<char>| #[trigger] string_views(dropped@).contains(t) <==> exists|
                    k: int,
                | outer@.len() <= k < ov.len() && om[#[trigger] ou[k].0].contains_key(t) && owned_by(
                    ow,
                    ou[k].0,
                ).contains(t) && !(nm2.contains_key(ou[k].0) && nm2[ou[k].0].contains_key(t)) by {
                    if string_views(dropped@).contains(t) {
                        if dv.contains(t) {
                            let k = choose|k: int|
                                n + 1 <= k < ov.len() && om[#[trigger] ou[k].0].contains_key(t)
                                    && owned_by(ow, ou[k].0).contains(t) && !(nm.contains_key(
                                    ou[k].0,
                                ) && nm[ou[k].0].contains_key(t));
                            assert(keys(ou)[k] != keys(ou)[n]);
                        } else {
                            assert(om[ou[n].0].contains_key(t));
                        }
                    }
                    if exists|k: int|
                        outer@.len() <= k < ov.len() && om[#[trigger] ou[k].0].contains_key(t)
                            && owned_by(ow, ou[k].0).contains(t) && !(nm2.contains_key(ou[k].0)
                            && nm2[ou[k].0].contains_key(t)) {
                        let k = choose|k: int|
                            outer@.len() <= k < ov.len() && om[#[trigger] ou[k].0].contains_key(t)
                                && owned_by(ow, ou[k].0).contains(t) && !(nm2.contains_key(ou[k].0)
                                && nm2[ou[k].0].contains_key(t));
                        if k > n {
                            assert(keys(ou)[k] != keys(ou)[n]);
                            assert(dv.contains(t));
                        }
                    }
                }
            }
        }
        self.token_deadlines = done;
        let ghost nm = self.deadlines();
        proof {
            assert forall|u: Seq<char>| #[trigger] om.contains_key(u) implies exists|k: int|
                0 <= k < ov.len() && #[trigger] ou[k].0 == u by {}
        }
        self.remove_tokens(&dropped);
        proof {
            let dset = string_views(dropped@).to_set();
            assert forall|t: Seq<char>| #[trigger] evicted(om, nm, ow).contains(t) <==> dset.contains(t) by {
                if evicted(om, nm, ow).contains(t) {
                    let u = choose|u: Seq<char>| #[trigger]
                        om.contains_key(u) && om[u].contains_key(t) && owned_by(ow, u).contains(t)
                            && !(nm.contains_key(u) && nm[u].contains_key(t));
                    let k = choose|k: int| 0 <= k < ov.len() && #[trigger] ou[k].0 == u;
                    assert(string_views(dropped@).contains(t));
                }
                if dset.contains(t) {
                    assert(string_views(dropped@).contains(t));
                    let k = choose|k: int|
                        0 <= k < ov.len() && om[#[trigger] ou[k].0].contains_key(t) && owned_by(
                            ow,
                            ou[k].0,
                        ).contains(t) && !(nm.contains_key(ou[k].0) && nm[ou[k].0].contains_key(t));
                    lemma_assoc_index(ou, k);
                    assert(om.contains_key(ou[k].0));
                }
            }
            assert(evicted(om, nm, ow) =~= dset);
            assert forall|u: Seq<char>| #[trigger] nm.contains_key(u) implies om.contains_key(u) by {
                let k = choose|k: int| 0 <= k < ov.len() && #[trigger] ou[k].0 == u;
                lemma_assoc_index(ou, k);
            }
            assert forall|t: Seq<char>| #[trigger] self.owners().contains_key(t) implies self.deadlines().contains_key(
                self.owners()[t],
            ) && self.deadlines()[self.owners()[t]].contains_key(t) by {
                let u = before.owners()[t];
                assert(before.owners().contains_key(t));
                assert(om[u].contains_key(t));
                assert(!dset.contains(t));
                let k = choose|k: int| 0 <= k < ov.len() && #[trigger] ou[k].0 == u;
                assert(owned_by(ow, u).contains(t));
                if !(nm.contains_key(u) && nm[u].contains_key(t)) {
                    assert(string_views(dropped@).contains(t));
                }
            }
            assert forall|u: Seq<char>, t: Seq<char>|
                nm.contains_key(u) && #[trigger] nm[u].contains_key(t) implies self.owners().contains_key(t)
                    && self.owners()[t] == u by {
                let k = choose|k: int| 0 <= k < ov.len() && #[trigger] ou[k].0 == u;
                lemma_assoc_index(ou, k);
                assert(om.contains_key(u));
                assert(live(om[u], ow, u, now).contains_key(t));
                assert(owned_by(ow, u).contains(t));
                if dset.contains(t) {
                    let u2 = choose|u2: Seq<char>| #[trigger]
                        om.contains_key(u2) && om[u2].contains_key(t) && owned_by(ow, u2).contains(t)
                            && !(nm.contains_key(u2) && nm[u2].contains_key(t));
                }
            }
        }
    }
}

} // verus!

verus! {

/// The live tokens of `l` whose deadline is later than that of `t`.
pub open spec fn refreshed_later(l: Map<Seq<char>, i64>, t: Seq<char>) -> Set<Seq<char>> {
    l.dom().filter(|s: Seq<char>| l[s] > l[t])
}

impl TokenStore {
    /// Each identity holds finitely many deadlines.
    pub proof fn lemma_deadlines_finite(&self)
        requires
            self.wf(),
        ensures
            forall|u: Seq<char>| #[trigger]
                self.deadlines().contains_key(u) ==> self.deadlines()[u].dom().finite(),
    {
        let ue = user_entries(self.token_deadlines@);
        assert forall|u: Seq<char>| #[trigger] self.deadlines().contains_key(u) implies self.deadlines()[u].dom().finite() by {
            let k = choose|k: int| 0 <= k < ue.len() && #[trigger] ue[k].0 == u;
            lemma_assoc_index(ue, k);
            assert(keys(deadline_entries(self.token_deadlines@[k].1@)).no_duplicates());
            lemma_assoc_dom_len(deadline_entries(self.token_deadlines@[k].1@));
        }
    }
}

/// After a cleanup no identity keeps more than `cap` tokens. When the live
/// tokens of an identity (not expired, still its own) have distinct
/// deadlines, a token survives exactly when it is live and fewer than `cap`
/// live tokens were refreshed after it: the survivors are the `cap` most
/// recently refreshed.
pub proof fn lemma_cleanup_keeps_most_recent(
    before: Map<Seq<char>, Map<Seq<char>, i64>>,
    after: Map<Seq<char>, Map<Seq<char>, i64>>,
    owners: Map<Seq<char>, Seq<char>>,
    now: i64,
    cap: nat,
    u: Seq<char>,
)
    requires
        cleaned(before, after, owners, now, cap),
        before.contains_key(u),
        before[u].dom().finite(),
    ensures
        after.contains_key(u) ==> after[u].dom().len() <= cap,
        (forall|s1: Seq<char>, s2: Seq<char>|
            live(before[u], owners, u, now).contains_key(s1) && live(
                before[u],
                owners,
                u,
                now,
            ).contains_key(s2) && s1 != s2 ==> live(before[u], owners, u, now)[s1] != live(
                before[u],
                owners,
                u,
                now,
            )[s2]) ==> forall|t: Seq<char>|
            #![trigger live(before[u], owners, u, now).contains_key(t)]
            (after.contains_key(u) && after[u].contains_key(t)) <==> (live(
                before[u],
                owners,
                u,
                now,
            ).contains_key(t) && refreshed_later(live(before[u], owners, u, now), t).len() < cap),
{
    let l = live(before[u], owners, u, now);
    let k = if after.contains_key(u) {
        after[u]
    } else {
        Map::empty()
    };
    assert(cleaned_user(before[u], k, owners, u, now, cap));
    assert(l.dom().subset_of(before[u].dom()));
    vstd::set_lib::lemma_len_subset(l.dom(), before[u].dom());
    vstd::set_lib::lemma_len_subset(k.dom(), l.dom());
    if forall|s1: Seq<char>, s2: Seq<char>|
        l.contains_key(s1) && l.contains_key(s2) && s1 != s2 ==> l[s1] != l[s2] {
        assert forall|t: Seq<char>| #![trigger l.contains_key(t)]
            (after.contains_key(u) && after[u].contains_key(t)) <==> (l.contains_key(t)
                && refreshed_later(l, t).len() < cap) by {
            let later = refreshed_later(l, t);
            vstd::set_lib::lemma_len_subset(later, l.dom());
            if k.contains_key(t) {
                assert(l.contains_key(t));
                if later.len() >= cap {
                    assert forall|s: Seq<char>| #[trigger] later.contains(s) implies k.contains_key(s) by {
                        if !k.contains_key(s) {
                            assert(l[t] >= l[s]);
                        }
                    }
                    assert(!later.contains(t));
                    assert(later.insert(t).subset_of(k.dom()));
                    vstd::set_lib::lemma_len_subset(later.insert(t), k.dom());
                }
            }
            if l.contains_key(t) && later.len() < cap && !k.contains_key(t) {
                assert(l.dom().len() > k.dom().len()) by {
                    assert(k.dom().insert(t).subset_of(l.dom()));
                    vstd::set_lib::lemma_len_subset(k.dom().insert(t), l.dom());
                }
                assert forall|s: Seq<char>| #[trigger] k.contains_key(s) implies later.contains(s) by {
                    assert(l.contains_key(s));
                    assert(l[s] >= l[t]);
                    assert(s != t);
                }
                assert(k.dom().subset_of(later));
                vstd::set_lib::lemma_len_subset(k.dom(), later);
            }
        }
    }
}

/// A token whose deadline under an identity passed before a cleanup has no
/// owner after it, so a check of it fails, and its deadline is gone; before
/// the cleanup a check of an owned token succeeded.
pub proof fn lemma_expired_token_rejected(
    before: TokenStore,
    after: TokenStore,
    now: i64,
    u: Seq<char>,
    t: Seq<char>,
)
    requires
        before.wf(),
        cleaned(before.deadlines(), after.deadlines(), before.owners(), now, before.max_per_user()),
        after.owners() == before.owners().remove_keys(
            evicted(before.deadlines(), after.deadlines(), before.owners()),
        ),
        before.deadlines().contains_key(u),
        before.deadlines()[u].contains_key(t),
        before.deadlines()[u][t] < now,
    ensures
        !after.owners().contains_key(t),
        !(after.deadlines().contains_key(u) && after.deadlines()[u].contains_key(t)),
{
    let b = before.deadlines();
    let a = after.deadlines();
    let ow = before.owners();
    let k = if a.contains_key(u) {
        a[u]
    } else {
        Map::empty()
    };
    assert(cleaned_user(b[u], k, ow, u, now, before.max_per_user()));
    assert(!live(b[u], ow, u, now).contains_key(t));
    assert(!(a.contains_key(u) && a[u].contains_key(t)));
    if ow.contains_key(t) {
        assert(ow[t] == u);
        assert(owned_by(ow, u).contains(t));
        assert(evicted(b, a, ow).contains(t));
    }
}

/// A revoked token's deadline is gone after the next cleanup, so it holds
/// no place under its identity's cap.
pub proof fn lemma_revoked_token_purged(revoked: TokenStore, after: TokenStore, now: i64, t: Seq<char>)
    requires
        revoked.wf(),
        !revoked.owners().contains_key(t),
        after.owners() == revoked.owners().remove_keys(
            evicted(revoked.deadlines(), after.deadlines(), revoked.owners()),
        ),
        only_owned(after.owners(), after.deadlines()),
    ensures
        forall|u: Seq<char>| #[trigger]
            after.deadlines().contains_key(u) ==> !after.deadlines()[u].contains_key(t),
{
    assert forall|u: Seq<char>| #[trigger] after.deadlines().contains_key(u) implies !after.deadlines()[u].contains_key(t) by {
        if after.deadlines()[u].contains_key(t) {
            assert(after.owners().contains_key(t));
        }
    }
}

} // verus!
