//! Span, function and branch coverage recorded while a program runs, keyed by source.

use vstd::prelude::*;
use std::ops::Range;

verus! {

/// An entry that coverage tables hold: comparable and copyable by its value.
pub trait CoverageEntry: Sized {
    type V;

    spec fn entry_view(&self) -> Self::V;

    fn same(&self, other: &Self) -> (r: bool)
        ensures
            r == (self.entry_view() == other.entry_view()),
    ;

    fn duplicate(&self) -> (r: Self)
        ensures
            r.entry_view() == self.entry_view(),
    ;
}

impl CoverageEntry for (usize, usize) {
    type V = (usize, usize);

    open spec fn entry_view(&self) -> (usize, usize) {
        *self
    }

    fn same(&self, other: &Self) -> (r: bool) {
        self.0 == other.0 && self.1 == other.1
    }

    fn duplicate(&self) -> (r: Self) {
        (self.0, self.1)
    }
}

impl CoverageEntry for (usize, usize, usize, usize) {
    type V = (usize, usize, usize, usize);

    open spec fn entry_view(&self) -> (usize, usize, usize, usize) {
        *self
    }

    fn same(&self, other: &Self) -> (r: bool) {
        self.0 == other.0 && self.1 == other.1 && self.2 == other.2 && self.3 == other.3
    }

    fn duplicate(&self) -> (r: Self) {
        (self.0, self.1, self.2, self.3)
    }
}

/// The value of an optional name.
pub open spec fn name_view(n: Option<String>) -> Option<Seq<char>> {
    match n {
        Some(s) => Some(s@),
        None => None,
    }
}

impl CoverageEntry for (usize, usize, Option<String>) {
    type V = (usize, usize, Option<Seq<char>>);

    open spec fn entry_view(&self) -> (usize, usize, Option<Seq<char>>) {
        (self.0, self.1, name_view(self.2))
    }

    fn same(&self, other: &Self) -> (r: bool) {
        self.0 == other.0 && self.1 == other.1 && match (&self.2, &other.2) {
            (Some(a), Some(b)) => *a == *b,
            (None, None) => true,
            _ => false,
        }
    }

    fn duplicate(&self) -> (r: Self) {
        let name = match &self.2 {
            Some(a) => Some(a.clone()),
            None => None,
        };
        (self.0, self.1, name)
    }
}

/// The map that rows of (key, entries) stand for: each key to the set of its entries.
pub open spec fn rows_map<V>(rows: Seq<(Seq<char>, Seq<V>)>) -> Map<Seq<char>, Set<V>>
    decreases rows.len(),
{
    if rows.len() == 0 {
        Map::empty()
    } else {
        rows_map(rows.drop_last()).insert(rows.last().0, rows.last().1.to_set())
    }
}

/// No key occurs in two rows.
pub open spec fn distinct_keys<V>(rows: Seq<(Seq<char>, Seq<V>)>) -> bool {
    forall|i: int, j: int| 0 <= i < j < rows.len() ==> rows[i].0 != rows[j].0
}

/// A key maps to the entries of its row; a key without a row is absent.
pub proof fn lemma_rows_map_lookup<V>(rows: Seq<(Seq<char>, Seq<V>)>, k: Seq<char>)
    requires
        distinct_keys(rows),
    ensures
        rows_map(rows).contains_key(k) <==> exists|i: int| 0 <= i < rows.len() && rows[i].0 == k,
        forall|i: int| 0 <= i < rows.len() && rows[i].0 == k ==> rows_map(rows)[k] == rows[i].1.to_set(),
    decreases rows.len(),
{
    if rows.len() > 0 {
        let pre = rows.drop_last();
        assert(distinct_keys(pre));
        lemma_rows_map_lookup(pre, k);
        if rows.last().0 != k {
            if exists|i: int| 0 <= i < rows.len() && rows[i].0 == k {
                let i = choose|i: int| 0 <= i < rows.len() && rows[i].0 == k;
                assert(pre[i].0 == k);
            }
        }
    }
}

/// Replacing the entries of row `i` replaces that key's set.
pub proof fn lemma_rows_map_update<V>(rows: Seq<(Seq<char>, Seq<V>)>, i: int, v: Seq<V>)
    requires
        distinct_keys(rows),
        0 <= i < rows.len(),
    ensures
        distinct_keys(rows.update(i, (rows[i].0, v))),
        rows_map(rows.update(i, (rows[i].0, v))) == rows_map(rows).insert(rows[i].0, v.to_set()),
    decreases rows.len(),
{
    let upd = rows.update(i, (rows[i].0, v));
    assert forall|a: int, b: int| 0 <= a < b < upd.len() implies upd[a].0 != upd[b].0 by {
        assert(upd[a].0 == rows[a].0);
        assert(upd[b].0 == rows[b].0);
    }
    if i == rows.len() - 1 {
        assert(upd.drop_last() =~= rows.drop_last());
        assert(rows_map(upd) =~= rows_map(rows).insert(rows[i].0, v.to_set()));
    } else {
        let pre = rows.drop_last();
        assert(distinct_keys(pre));
        lemma_rows_map_update(pre, i, v);
        assert(upd.drop_last() =~= pre.update(i, (rows[i].0, v)));
        assert(upd.last() == rows.last());
        assert(rows.last().0 != rows[i].0);
        assert(rows_map(upd) =~= rows_map(rows).insert(rows[i].0, v.to_set()));
    }
}

/// Removing row `i` removes its key.
pub proof fn lemma_rows_map_remove<V>(rows: Seq<(Seq<char>, Seq<V>)>, i: int)
    requires
        distinct_keys(rows),
        0 <= i < rows.len(),
    ensures
        distinct_keys(rows.remove(i)),
        rows_map(rows.remove(i)) == rows_map(rows).remove(rows[i].0),
    decreases rows.len(),
{
    let rem = rows.remove(i);
    assert forall|a: int, b: int| 0 <= a < b < rem.len() implies rem[a].0 != rem[b].0 by {
        let a0 = if a < i {
            a
        } else {
            a + 1
        };
        let b0 = if b < i {
            b
        } else {
            b + 1
        };
        assert(rem[a] == rows[a0]);
        assert(rem[b] == rows[b0]);
    }
    let pre = rows.drop_last();
    assert(distinct_keys(pre));
    if i == rows.len() - 1 {
        assert(rem =~= pre);
        lemma_rows_map_lookup(pre, rows[i].0);
        assert(!rows_map(pre).contains_key(rows[i].0));
        assert(rows_map(rem) =~= rows_map(rows).remove(rows[i].0));
    } else {
        lemma_rows_map_remove(pre, i);
        assert(rem.drop_last() =~= pre.remove(i));
        assert(rem.last() == rows.last());
        assert(rows.last().0 != rows[i].0);
        assert(rows_map(rem) =~= rows_map(rows).remove(rows[i].0));
    }
}

/// The (key, entry) pairs of a map from keys to sets of entries.
pub open spec fn pairs<V>(m: Map<Seq<char>, Set<V>>) -> Set<(Seq<char>, V)> {
    Set::new(|p: (Seq<char>, V)| m.contains_key(p.0) && m[p.0].contains(p.1))
}

/// The entries of `b` added to those of `a`, key by key.
pub open spec fn union_maps<V>(a: Map<Seq<char>, Set<V>>, b: Map<Seq<char>, Set<V>>) -> Map<
    Seq<char>,
    Set<V>,
> {
    Map::new(
        |k: Seq<char>| a.contains_key(k) || b.contains_key(k),
        |k: Seq<char>| entries_of(a, k) + entries_of(b, k),
    )
}

/// The entries under a key, or none.
pub open spec fn entries_of<V>(m: Map<Seq<char>, Set<V>>, k: Seq<char>) -> Set<V> {
    if m.contains_key(k) {
        m[k]
    } else {
        Set::empty()
    }
}

/// Total length of the entry lists of the first `n` rows.
pub open spec fn rows_len<V>(rows: Seq<(Seq<char>, Seq<V>)>) -> nat
    decreases rows.len(),
{
    if rows.len() == 0 {
        0
    } else {
        rows_len(rows.drop_last()) + rows.last().1.len()
    }
}

/// Rows with distinct keys and repeat-free entries hold as many pairs as entries.
pub proof fn lemma_rows_pairs_len<V>(rows: Seq<(Seq<char>, Seq<V>)>)
    requires
        distinct_keys(rows),
        forall|i: int| 0 <= i < rows.len() ==> no_dups(#[trigger] rows[i].1),
    ensures
        pairs(rows_map(rows)).finite(),
        pairs(rows_map(rows)).len() == rows_len(rows),
    decreases rows.len(),
{
    if rows.len() == 0 {
        assert(pairs(rows_map(rows)) =~= Set::<(Seq<char>, V)>::empty());
    } else {
        let pre = rows.drop_last();
        let k = rows.last().0;
        let s = rows.last().1;
        assert(distinct_keys(pre));
        assert forall|i: int| 0 <= i < pre.len() implies no_dups(#[trigger] pre[i].1) by {
            assert(pre[i] == rows[i]);
        }
        lemma_rows_pairs_len(pre);
        lemma_rows_map_lookup(pre, k);
        assert forall|i: int| 0 <= i < pre.len() implies pre[i].0 != k by {
            assert(pre[i] == rows[i]);
        }
        let f = |e: V| (k, e);
        let fiber = s.to_set().map(f);
        assert(pairs(rows_map(rows)) =~= pairs(rows_map(pre)) + fiber) by {
            assert forall|p: (Seq<char>, V)| pairs(rows_map(rows)).contains(p) implies (pairs(
                rows_map(pre),
            ) + fiber).contains(p) by {
                if p.0 == k {
                    assert(f(p.1) == p);
                }
            }
        }
        assert(pairs(rows_map(pre)).disjoint(fiber));
        assert(s.no_duplicates()) by {
            assert(no_dups(rows[rows.len() - 1].1));
        }
        s.unique_seq_to_set();
        vstd::seq_lib::seq_to_set_is_finite(s);
        vstd::set_lib::lemma_map_size(s.to_set(), fiber, f);
        vstd::set_lib::lemma_set_disjoint_lens(pairs(rows_map(pre)), fiber);
    }
}

/// Appending an element that does not occur keeps a sequence free of repeats.
pub proof fn lemma_push_fresh<V>(s: Seq<V>, x: V)
    requires
        no_dups(s),
        !s.to_set().contains(x),
    ensures
        no_dups(s.push(x)),
{
    let t = s.push(x);
    assert forall|a: int, b: int| 0 <= a < b < t.len() implies t[a] != t[b] by {
        if b == s.len() {
            assert(t[a] == s[a]);
            assert(s.to_set().contains(s[a]));
        }
    }
}

/// Adding nothing changes nothing.
pub proof fn lemma_union_empty<V>(a: Map<Seq<char>, Set<V>>)
    ensures
        union_maps(a, Map::empty()) == a,
{
    let u = union_maps(a, Map::<Seq<char>, Set<V>>::empty());
    assert forall|k: Seq<char>| #[trigger] u.contains_key(k) implies u[k] == a[k] by {
        assert(entries_of(a, k) + entries_of(Map::<Seq<char>, Set<V>>::empty(), k) =~= a[k]);
    }
    assert(u =~= a);
}

/// Adding one entry under a key to the right-hand map adds it to the union.
pub proof fn lemma_union_insert<V>(a: Map<Seq<char>, Set<V>>, d: Map<Seq<char>, Set<V>>, key: Seq<char>, x: V)
    ensures
        union_maps(a, d.insert(key, entries_of(d, key).insert(x))) == union_maps(a, d).insert(
            key,
            entries_of(union_maps(a, d), key).insert(x),
        ),
{
    let u = union_maps(a, d);
    let d2 = d.insert(key, entries_of(d, key).insert(x));
    let lhs = union_maps(a, d2);
    let rhs = u.insert(key, entries_of(u, key).insert(x));
    assert forall|k: Seq<char>| #[trigger] lhs.contains_key(k) implies lhs[k] == rhs[k] by {
        if k == key {
            assert(lhs[k] =~= rhs[k]);
        } else {
            assert(entries_of(d2, k) == entries_of(d, k));
        }
    }
    assert(lhs.dom() =~= rhs.dom());
    assert(lhs =~= rhs);
}

/// A table from source names to sets of entries.
pub struct SourceTable<E> {
    rows: Vec<(String, Vec<E>)>,
}

/// The value of one row.
pub open spec fn row_view<E: CoverageEntry>(r: (String, Vec<E>)) -> (Seq<char>, Seq<E::V>) {
    (r.0@, r.1@.map_values(|e: E| e.entry_view()))
}

/// A sequence without repeated elements.
pub open spec fn no_dups<V>(s: Seq<V>) -> bool {
    forall|i: int, j: int| 0 <= i < j < s.len() ==> s[i] != s[j]
}

impl<E: CoverageEntry> SourceTable<E> {
    pub closed spec fn rows_view(&self) -> Seq<(Seq<char>, Seq<E::V>)> {
        self.rows@.map_values(|r: (String, Vec<E>)| row_view(r))
    }

    /// Keys are distinct and no row repeats an entry.
    pub closed spec fn wf(&self) -> bool {
        &&& distinct_keys(self.rows_view())
        &&& forall|i: int|
            0 <= i < self.rows@.len() ==> no_dups(#[trigger] self.rows_view()[i].1)
                && self.rows_view()[i].1.len() > 0
    }

    /// Each source name to the set of its entries.
    pub closed spec fn view(&self) -> Map<Seq<char>, Set<E::V>> {
        rows_map(self.rows_view())
    }

    /// The number of (source, entry) pairs held.
    pub closed spec fn count(&self) -> nat {
        self.count_upto(self.rows@.len() as int)
    }

    closed spec fn count_upto(&self, n: int) -> nat
        decreases n,
    {
        if n <= 0 {
            0
        } else {
            self.count_upto(n - 1) + self.rows@[n - 1].1@.len()
        }
    }

    pub fn new() -> (t: Self)
        ensures
            t.wf(),
            t.view() == Map::<Seq<char>, Set<E::V>>::empty(),
            t.count() == 0,
    {
        let t = SourceTable { rows: Vec::new() };
        proof {
            assert(t.rows_view() =~= Seq::<(Seq<char>, Seq<E::V>)>::empty());
        }
        t
    }

    /// The row of a key, if any.
    fn find(&self, key: &str) -> (r: Option<usize>)
        ensures
            match r {
                Some(i) => i < self.rows@.len() && self.rows_view()[i as int].0 == key@,
                None => forall|i: int| 0 <= i < self.rows@.len() ==> self.rows_view()[i].0 != key@,
            },
    {
        let k = String::from_str(key);
        let mut i: usize = 0;
        while i < self.rows.len()
            invariant
                i <= self.rows@.len(),
                k@ == key@,
                forall|m: int| 0 <= m < i ==> self.rows_view()[m].0 != key@,
            decreases self.rows.len() - i,
        {
            if self.rows[i].0 == k {
                return Some(i);
            }
            i += 1;
        }
        None
    }

    /// Adds an entry under a key.
    pub fn insert(&mut self, key: &str, e: E)
        requires
            old(self).wf(),
        ensures
            final(self).wf(),
            final(self).view() == old(self).view().insert(
                key@,
                entries_of(old(self).view(), key@).insert(e.entry_view()),
            ),
            final(self).count() == old(self).count() + if old(self).view().contains_key(key@)
                && old(self).view()[key@].contains(e.entry_view()) {
                0nat
            } else {
                1nat
            },
    {
        proof {
            lemma_rows_map_lookup(self.rows_view(), key@);
        }
        match self.find(key) {
            Some(i) => {
                let ghost old_entries = self.rows_view()[i as int].1;
                let mut present = false;
                let mut m: usize = 0;
                while m < self.rows[i].1.len()
                    invariant
                        i < self.rows@.len(),
                        m <= self.rows@[i as int].1@.len(),
                        old_entries == self.rows_view()[i as int].1,
                        present == (exists|q: int| 0 <= q < m && old_entries[q] == e.entry_view()),
                    decreases self.rows@[i as int].1@.len() - m,
                {
                    if self.rows[i].1[m].same(&e) {
                        present = true;
                    }
                    proof {
                        if self.rows@[i as int].1@[m as int].entry_view() == e.entry_view() {
                            assert(old_entries[m as int] == e.entry_view());
                        }
                    }
                    m += 1;
                }
                proof {
                    assert(old_entries.to_set() == old(self).view()[key@]);
                    if present {
                        let q = choose|q: int|
                            0 <= q < old_entries.len() && old_entries[q] == e.entry_view();
                        assert(old_entries.to_set().contains(e.entry_view()));
                        assert(old(self).view()[key@].insert(e.entry_view()) =~= old(self).view()[key@]);
                        assert(old(self).view().insert(key@, old(self).view()[key@]) =~= old(self).view());
                    } else {
                        assert(!old_entries.contains(e.entry_view()));
                    }
                }
                if !present {
                    let ghost rv = self.rows_view();
                    let ghost rows0 = self.rows@;
                    let mut row = self.rows.remove(i);
                    let ghost row0 = row;
                    row.1.push(e);
                    let ghost row1 = row;
                    self.rows.insert(i, row);
                    proof {
                        let nv = old_entries.push(e.entry_view());
                        assert(self.rows@ =~= rows0.update(i as int, row1));
                        assert(row0 == rows0[i as int]);
                        assert(row1.1@ == row0.1@.push(e));
                        assert(row1.1@.map_values(|x: E| x.entry_view()) =~= nv);
                        assert(row_view(row1) == (key@, nv));
                        assert(self.rows_view() =~= rv.update(i as int, (key@, nv)));
                        old_entries.lemma_push_to_set_commute(e.entry_view());
                        lemma_rows_map_update(rv, i as int, nv);
                        assert forall|r: int| 0 <= r < self.rows@.len() implies no_dups(
                            #[trigger] self.rows_view()[r].1,
                        ) by {
                            if r == i {
                                assert forall|a: int, b: int| 0 <= a < b < nv.len() implies nv[a]
                                    != nv[b] by {
                                    if b == nv.len() - 1 {
                                        assert(nv[a] == old_entries[a]);
                                    }
                                }
                            }
                        }
                        self.lemma_count_update(old(self), i as int);
                    }
                }
            },
            None => {
                let ghost rv = self.rows_view();
                let mut v: Vec<E> = Vec::new();
                v.push(e);
                let ghost row = (key@, seq![e.entry_view()]);
                self.rows.push((String::from_str(key), v));
                proof {
                    assert(v@.map_values(|x: E| x.entry_view()) =~= seq![e.entry_view()]);
                    assert(self.rows_view() =~= rv.push(row));
                    assert(self.rows_view().drop_last() =~= rv);
                    assert(seq![e.entry_view()] =~= Seq::<E::V>::empty().push(e.entry_view()));
                    Seq::<E::V>::empty().lemma_push_to_set_commute(e.entry_view());
                    assert(Seq::<E::V>::empty().to_set() =~= Set::<E::V>::empty());
                    assert(seq![e.entry_view()].to_set() =~= Set::<E::V>::empty().insert(
                        e.entry_view(),
                    ));
                    assert(self.count_upto(self.rows@.len() - 1) == old(self).count_upto(
                        old(self).rows@.len() as int,
                    )) by {
                        self.lemma_count_prefix(old(self), old(self).rows@.len() as int);
                    }
                }
            },
        }
    }

    /// Adds every entry of another table.
    pub fn absorb(&mut self, other: &Self)
        requires
            old(self).wf(),
            other.wf(),
        ensures
            final(self).wf(),
            final(self).view() == union_maps(old(self).view(), other.view()),
    {
        let ghost orows = other.rows_view();
        let mut r: usize = 0;
        proof {
            assert(rows_map(orows.take(0)) =~= Map::<Seq<char>, Set<E::V>>::empty());
            lemma_union_empty(old(self).view());
        }
        while r < other.rows.len()
            invariant
                r <= other.rows@.len(),
                self.wf(),
                orows == other.rows_view(),
                other.wf(),
                self.view() == union_maps(old(self).view(), rows_map(orows.take(r as int))),
            decreases other.rows.len() - r,
        {
            let key = other.rows[r].0.as_str();
            let ghost done = rows_map(orows.take(r as int));
            let ghost ents = orows[r as int].1;
            proof {
                assert forall|i: int| 0 <= i < orows.take(r as int).len() implies orows.take(
                    r as int,
                )[i].0 != key@ by {
                    assert(orows.take(r as int)[i] == orows[i]);
                }
                assert(distinct_keys(orows.take(r as int)));
                lemma_rows_map_lookup(orows.take(r as int), key@);
                assert(!done.contains_key(key@));
            }
            let mut m: usize = 0;
            while m < other.rows[r].1.len()
                invariant
                    r < other.rows@.len(),
                    m <= other.rows@[r as int].1@.len(),
                    self.wf(),
                    orows == other.rows_view(),
                    ents == orows[r as int].1,
                    key@ == orows[r as int].0,
                    !done.contains_key(key@),
                    self.view() == union_maps(
                        old(self).view(),
                        if m == 0 {
                            done
                        } else {
                            done.insert(key@, ents.take(m as int).to_set())
                        },
                    ),
                decreases other.rows@[r as int].1@.len() - m,
            {
                let e = other.rows[r].1[m].duplicate();
                let ghost cur = if m == 0 {
                    done
                } else {
                    done.insert(key@, ents.take(m as int).to_set())
                };
                proof {
                    assert(ents.take(0).to_set() =~= Set::<E::V>::empty());
                    assert(entries_of(cur, key@) == ents.take(m as int).to_set());
                    lemma_union_insert(old(self).view(), cur, key@, e.entry_view());
                }
                self.insert(key, e);
                proof {
                    assert(ents[m as int] == e.entry_view());
                    assert(ents.take(m + 1) =~= ents.take(m as int).push(e.entry_view()));
                    ents.take(m as int).lemma_push_to_set_commute(e.entry_view());
                    assert(cur.insert(key@, entries_of(cur, key@).insert(e.entry_view()))
                        =~= done.insert(key@, ents.take(m + 1).to_set()));
                }
                m += 1;
            }
            proof {
                assert(ents.len() > 0);
                assert(ents.take(ents.len() as int) =~= ents);
                assert(orows.take(r + 1).drop_last() =~= orows.take(r as int));
                assert(orows.take(r + 1).last() == orows[r as int]);
            }
            r += 1;
        }
        proof {
            assert(orows.take(orows.len() as int) =~= orows);
        }
    }

    /// The count is the number of (source, entry) pairs of the view.
    pub proof fn lemma_count_pairs(&self)
        requires
            self.wf(),
        ensures
            pairs(self.view()).finite(),
            self.count() == pairs(self.view()).len(),
    {
        lemma_rows_pairs_len(self.rows_view());
        self.lemma_count_rows_len(self.rows@.len() as int);
        assert(self.rows_view().take(self.rows@.len() as int) =~= self.rows_view());
    }

    proof fn lemma_count_rows_len(&self, n: int)
        requires
            0 <= n <= self.rows@.len(),
        ensures
            self.count_upto(n) == rows_len(self.rows_view().take(n)),
        decreases n,
    {
        if n > 0 {
            self.lemma_count_rows_len(n - 1);
            assert(self.rows_view().take(n).drop_last() =~= self.rows_view().take(n - 1));
        }
    }

    /// Counts over rows that two tables share agree.
    proof fn lemma_count_prefix(&self, other: &Self, n: int)
        requires
            0 <= n <= self.rows@.len(),
            n <= other.rows@.len(),
            forall|r: int| 0 <= r < n ==> self.rows@[r].1@.len() == other.rows@[r].1@.len(),
        ensures
            self.count_upto(n) == other.count_upto(n),
        decreases n,
    {
        if n > 0 {
            self.lemma_count_prefix(other, n - 1);
        }
    }

    /// Growing row `i` by one entry grows the count by one.
    proof fn lemma_count_update(&self, prev: &Self, i: int)
        requires
            self.rows@.len() == prev.rows@.len(),
            0 <= i < self.rows@.len(),
            self.rows@[i].1@.len() == prev.rows@[i].1@.len() + 1,
            forall|r: int| 0 <= r < self.rows@.len() && r != i ==> self.rows@[r].1@.len()
                == prev.rows@[r].1@.len(),
        ensures
            self.count() == prev.count() + 1,
    {
        self.lemma_count_update_upto(prev, i, self.rows@.len() as int);
    }

    proof fn lemma_count_update_upto(&self, prev: &Self, i: int, n: int)
        requires
            self.rows@.len() == prev.rows@.len(),
            0 <= i < self.rows@.len(),
            0 <= n <= self.rows@.len(),
            self.rows@[i].1@.len() == prev.rows@[i].1@.len() + 1,
            forall|r: int| 0 <= r < self.rows@.len() && r != i ==> self.rows@[r].1@.len()
                == prev.rows@[r].1@.len(),
        ensures
            self.count_upto(n) == prev.count_upto(n) + if n > i {
                1nat
            } else {
                0nat
            },
        decreases n,
    {
        if n > 0 {
            self.lemma_count_update_upto(prev, i, n - 1);
        }
    }

    /// The entries under a key, if it has any.
    pub fn get(&self, key: &str) -> (r: Option<&Vec<E>>)
        requires
            self.wf(),
        ensures
            match r {
                Some(v) => self.view().contains_key(key@) && v@.map_values(|e: E| e.entry_view()).to_set()
                    == self.view()[key@] && no_dups(v@.map_values(|e: E| e.entry_view())),
                None => !self.view().contains_key(key@),
            },
    {
        proof {
            lemma_rows_map_lookup(self.rows_view(), key@);
        }
        match self.find(key) {
            Some(i) => {
                proof {
                    assert(self.rows_view()[i as int].1 == self.rows@[i as int].1@.map_values(
                        |e: E| e.entry_view(),
                    ));
                }
                Some(&self.rows[i].1)
            },
            None => None,
        }
    }

    /// Removes a key and its entries.
    pub fn remove(&mut self, key: &str)
        requires
            old(self).wf(),
        ensures
            final(self).wf(),
            final(self).view() == old(self).view().remove(key@),
    {
        proof {
            lemma_rows_map_lookup(self.rows_view(), key@);
        }
        match self.find(key) {
            Some(i) => {
                let ghost rv = self.rows_view();
                self.rows.remove(i);
                proof {
                    assert(self.rows_view() =~= rv.remove(i as int));
                    lemma_rows_map_remove(rv, i as int);
                    assert forall|r: int| 0 <= r < self.rows@.len() implies no_dups(
                        #[trigger] self.rows_view()[r].1,
                    ) by {
                        let r0 = if r < i {
                            r
                        } else {
                            r + 1
                        };
                        assert(self.rows_view()[r] == rv[r0]);
                    }
                }
            },
            None => {
                proof {
                    assert(self.view() =~= old(self).view().remove(key@));
                }
            },
        }
    }

    /// The keys, each once.
    pub fn keys(&self) -> (r: Vec<&str>)
        requires
            self.wf(),
        ensures
            r@.map_values(|k: &str| k@).to_set() == self.view().dom(),
            no_dups(r@.map_values(|k: &str| k@)),
    {
        let mut r: Vec<&str> = Vec::new();
        let mut i: usize = 0;
        while i < self.rows.len()
            invariant
                i <= self.rows@.len(),
                self.wf(),
                r@.map_values(|k: &str| k@) == self.rows_view().take(i as int).map_values(
                    |row: (Seq<char>, Seq<E::V>)| row.0,
                ),
            decreases self.rows.len() - i,
        {
            let ghost r0 = r@;
            r.push(self.rows[i].0.as_str());
            proof {
                assert(r@.map_values(|k: &str| k@) =~= r0.map_values(|k: &str| k@).push(
                    self.rows_view()[i as int].0,
                ));
                assert(self.rows_view().take(i + 1) =~= self.rows_view().take(i as int).push(
                    self.rows_view()[i as int],
                ));
                assert(r@.map_values(|k: &str| k@) =~= self.rows_view().take(i + 1).map_values(
                    |row: (Seq<char>, Seq<E::V>)| row.0,
                ));
            }
            i += 1;
        }
        proof {
            let rv = self.rows_view();
            assert(rv.take(rv.len() as int) =~= rv);
            let ks = rv.map_values(|row: (Seq<char>, Seq<E::V>)| row.0);
            assert forall|k: Seq<char>| ks.to_set().contains(k) == self.view().dom().contains(k) by {
                lemma_rows_map_lookup(rv, k);
                if self.view().dom().contains(k) {
                    let i = choose|i: int| 0 <= i < rv.len() && rv[i].0 == k;
                    assert(ks[i] == k);
                }
            }
            assert(ks.to_set() =~= self.view().dom());
        }
        r
    }

    /// The number of (source, entry) pairs held.
    pub fn total(&self) -> (n: usize)
        requires
            self.count() <= usize::MAX,
        ensures
            n == self.count(),
    {
        let mut n: usize = 0;
        let mut i: usize = 0;
        while i < self.rows.len()
            invariant
                i <= self.rows@.len(),
                n == self.count_upto(i as int),
                self.count() <= usize::MAX,
            decreases self.rows.len() - i,
        {
            proof {
                self.lemma_count_mono(i as int + 1, self.rows@.len() as int);
            }
            n = n + self.rows[i].1.len();
            i += 1;
        }
        n
    }

    /// The number of (source, entry) pairs held, if it fits a `usize`.
    pub fn total_checked(&self) -> (r: Option<usize>)
        ensures
            self.count() <= usize::MAX ==> r == Some(self.count() as usize),
            self.count() > usize::MAX ==> r is None,
    {
        let mut n: usize = 0;
        let mut i: usize = 0;
        while i < self.rows.len()
            invariant
                i <= self.rows@.len(),
                n == self.count_upto(i as int),
            decreases self.rows.len() - i,
        {
            proof {
                self.lemma_count_mono(i as int + 1, self.rows@.len() as int);
            }
            match n.checked_add(self.rows[i].1.len()) {
                Some(m) => {
                    n = m;
                },
                None => {
                    return None;
                },
            }
            i += 1;
        }
        Some(n)
    }

    proof fn lemma_count_mono(&self, a: int, b: int)
        requires
            0 <= a <= b,
        ensures
            self.count_upto(a) <= self.count_upto(b),
        decreases b - a,
    {
        if a < b {
            self.lemma_count_mono(a, b - 1);
        }
    }
}

/// Span, function and branch hits, each kept per source name.
pub struct CoverageCollector {
    hit_spans: SourceTable<(usize, usize)>,
    hit_functions: SourceTable<(usize, usize, Option<String>)>,
    hit_branches: SourceTable<(usize, usize, usize, usize)>,
}

impl CoverageCollector {
    /// Each source name to the (start, end) spans hit in it.
    pub closed spec fn spans_view(&self) -> Map<Seq<char>, Set<(usize, usize)>> {
        self.hit_spans.view()
    }

    /// Each source name to the (start, end, name) functions entered in it.
    pub closed spec fn functions_view(&self) -> Map<
        Seq<char>,
        Set<(usize, usize, Option<Seq<char>>)>,
    > {
        self.hit_functions.view()
    }

    /// Each source name to the (start, end, instruction, outcome) branches taken in it.
    pub closed spec fn branches_view(&self) -> Map<
        Seq<char>,
        Set<(usize, usize, usize, usize)>,
    > {
        self.hit_branches.view()
    }

    pub closed spec fn wf(&self) -> bool {
        &&& self.hit_spans.wf()
        &&& self.hit_functions.wf()
        &&& self.hit_branches.wf()
    }

    /// An empty collector.
    pub fn new() -> (c: Self)
        ensures
            c.wf(),
            c.spans_view() == Map::<Seq<char>, Set<(usize, usize)>>::empty(),
            c.functions_view() == Map::<Seq<char>, Set<(usize, usize, Option<Seq<char>>)>>::empty(),
            c.branches_view() == Map::<Seq<char>, Set<(usize, usize, usize, usize)>>::empty(),
    {
        CoverageCollector {
            hit_spans: SourceTable::new(),
            hit_functions: SourceTable::new(),
            hit_branches: SourceTable::new(),
        }
    }

    /// Records that a span of a source was executed.
    pub fn record(&mut self, source_id: &str, span: &Range<usize>)
        requires
            old(self).wf(),
        ensures
            final(self).wf(),
            final(self).spans_view() == old(self).spans_view().insert(
                source_id@,
                entries_of(old(self).spans_view(), source_id@).insert((span.start, span.end)),
            ),
            final(self).functions_view() == old(self).functions_view(),
            final(self).branches_view() == old(self).branches_view(),
    {
        self.hit_spans.insert(source_id, (span.start, span.end));
    }

    /// Records that a function, with its span and optional name, was entered.
    pub fn record_function(&mut self, source_id: &str, span: &Range<usize>, name: Option<String>)
        requires
            old(self).wf(),
        ensures
            final(self).wf(),
            final(self).functions_view() == old(self).functions_view().insert(
                source_id@,
                entries_of(old(self).functions_view(), source_id@).insert(
                    (span.start, span.end, name_view(name)),
                ),
            ),
            final(self).spans_view() == old(self).spans_view(),
            final(self).branches_view() == old(self).branches_view(),
    {
        self.hit_functions.insert(source_id, (span.start, span.end, name));
    }

    /// Records that a branch at an instruction took an outcome.
    pub fn record_branch(&mut self, source_id: &str, span: &Range<usize>, ip: usize, outcome: usize)
        requires
            old(self).wf(),
        ensures
            final(self).wf(),
            final(self).branches_view() == old(self).branches_view().insert(
                source_id@,
                entries_of(old(self).branches_view(), source_id@).insert(
                    (span.start, span.end, ip, outcome),
                ),
            ),
            final(self).spans_view() == old(self).spans_view(),
            final(self).functions_view() == old(self).functions_view(),
    {
        self.hit_branches.insert(source_id, (span.start, span.end, ip, outcome));
    }

    /// Adds every hit of another collector to this one.
    pub fn merge(&mut self, other: CoverageCollector)
        requires
            old(self).wf(),
            other.wf(),
        ensures
            final(self).wf(),
            final(self).spans_view() == union_maps(old(self).spans_view(), other.spans_view()),
            final(self).functions_view() == union_maps(
                old(self).functions_view(),
                other.functions_view(),
            ),
            final(self).branches_view() == union_maps(
                old(self).branches_view(),
                other.branches_view(),
            ),
    {
        self.hit_spans.absorb(&other.hit_spans);
        self.hit_functions.absorb(&other.hit_functions);
        self.hit_branches.absorb(&other.hit_branches);
    }

    /// Every source name with any coverage data, each once.
    pub fn source_ids(&self) -> (r: Vec<&str>)
        requires
            self.wf(),
        ensures
            r@.map_values(|k: &str| k@).to_set() == self.spans_view().dom()
                + self.functions_view().dom() + self.branches_view().dom(),
            no_dups(r@.map_values(|k: &str| k@)),
    {
        let mut ids = self.hit_spans.keys();
        let fkeys = self.hit_functions.keys();
        let bkeys = self.hit_branches.keys();
        let ghost base = ids@.map_values(|k: &str| k@);
        let ghost fk = fkeys@.map_values(|k: &str| k@);
        let ghost bk = bkeys@.map_values(|k: &str| k@);
        let mut i: usize = 0;
        while i < fkeys.len()
            invariant
                i <= fkeys@.len(),
                self.wf(),
                fk == fkeys@.map_values(|k: &str| k@),
                no_dups(fk),
                fk.to_set() == self.functions_view().dom(),
                no_dups(ids@.map_values(|k: &str| k@)),
                ids@.map_values(|k: &str| k@).to_set() == self.spans_view().dom() + fk.take(
                    i as int,
                ).to_set(),
            decreases fkeys.len() - i,
        {
            let k = fkeys[i];
            let ghost before = ids@.map_values(|k: &str| k@);
            proof {
                lemma_rows_map_lookup(self.hit_spans.rows_view(), k@);
                assert(fk[i as int] == k@);
                assert(fk.take(i + 1) =~= fk.take(i as int).push(k@));
                fk.take(i as int).lemma_push_to_set_commute(k@);
            }
            if self.hit_spans.find(k).is_none() {
                ids.push(k);
                proof {
                    assert(ids@.map_values(|k: &str| k@) =~= before.push(k@));
                    before.lemma_push_to_set_commute(k@);
                    assert(!before.to_set().contains(k@)) by {
                        if before.to_set().contains(k@) {
                            let q = choose|q: int| 0 <= q < i && fk[q] == k@;
                            assert(fk.take(i as int)[q] == fk[q]);
                        }
                    }
                    lemma_push_fresh(before, k@);
                    assert(ids@.map_values(|k: &str| k@).to_set() =~= self.spans_view().dom()
                        + fk.take(i + 1).to_set());
                }
            } else {
                proof {
                    assert(ids@.map_values(|k: &str| k@).to_set() =~= self.spans_view().dom()
                        + fk.take(i + 1).to_set());
                }
            }
            i += 1;
        }
        proof {
            assert(fk.take(fk.len() as int) =~= fk);
        }
        let ghost mid = self.spans_view().dom() + self.functions_view().dom();
        let mut j: usize = 0;
        while j < bkeys.len()
            invariant
                j <= bkeys@.len(),
                self.wf(),
                bk == bkeys@.map_values(|k: &str| k@),
                no_dups(bk),
                bk.to_set() == self.branches_view().dom(),
                mid == self.spans_view().dom() + self.functions_view().dom(),
                no_dups(ids@.map_values(|k: &str| k@)),
                ids@.map_values(|k: &str| k@).to_set() == mid + bk.take(j as int).to_set(),
            decreases bkeys.len() - j,
        {
            let k = bkeys[j];
            let ghost before = ids@.map_values(|k: &str| k@);
            proof {
                lemma_rows_map_lookup(self.hit_spans.rows_view(), k@);
                lemma_rows_map_lookup(self.hit_functions.rows_view(), k@);
                assert(bk[j as int] == k@);
                assert(bk.take(j + 1) =~= bk.take(j as int).push(k@));
                bk.take(j as int).lemma_push_to_set_commute(k@);
            }
            if self.hit_spans.find(k).is_none() && self.hit_functions.find(k).is_none() {
                ids.push(k);
                proof {
                    assert(ids@.map_values(|k: &str| k@) =~= before.push(k@));
                    before.lemma_push_to_set_commute(k@);
                    assert(!before.to_set().contains(k@)) by {
                        if before.to_set().contains(k@) {
                            let q = choose|q: int| 0 <= q < j && bk[q] == k@;
                            assert(bk.take(j as int)[q] == bk[q]);
                        }
                    }
                    lemma_push_fresh(before, k@);
                    assert(ids@.map_values(|k: &str| k@).to_set() =~= mid + bk.take(
                        j + 1,
                    ).to_set());
                }
            } else {
                proof {
                    assert(ids@.map_values(|k: &str| k@).to_set() =~= mid + bk.take(
                        j + 1,
                    ).to_set());
                }
            }
            j += 1;
        }
        proof {
            assert(bk.take(bk.len() as int) =~= bk);
        }
        ids
    }

    /// The spans hit in a source, each once, if it has any.
    pub fn spans_for_source(&self, source_id: &str) -> (r: Option<&Vec<(usize, usize)>>)
        requires
            self.wf(),
        ensures
            match r {
                Some(v) => self.spans_view().contains_key(source_id@) && v@.to_set()
                    == self.spans_view()[source_id@] && no_dups(v@),
                None => !self.spans_view().contains_key(source_id@),
            },
    {
        let r = self.hit_spans.get(source_id);
        proof {
            if let Some(v) = r {
                assert(v@.map_values(|e: (usize, usize)| e.entry_view()) =~= v@);
            }
        }
        r
    }

    /// The functions entered in a source, each once, if it has any.
    pub fn functions_for_source(&self, source_id: &str) -> (r: Option<
        &Vec<(usize, usize, Option<String>)>,
    >)
        requires
            self.wf(),
        ensures
            match r {
                Some(v) => self.functions_view().contains_key(source_id@) && v@.map_values(
                    |e: (usize, usize, Option<String>)| e.entry_view(),
                ).to_set() == self.functions_view()[source_id@] && no_dups(
                    v@.map_values(|e: (usize, usize, Option<String>)| e.entry_view()),
                ),
                None => !self.functions_view().contains_key(source_id@),
            },
    {
        self.hit_functions.get(source_id)
    }

    /// The branches taken in a source, each once, if it has any.
    pub fn branches_for_source(&self, source_id: &str) -> (r: Option<
        &Vec<(usize, usize, usize, usize)>,
    >)
        requires
            self.wf(),
        ensures
            match r {
                Some(v) => self.branches_view().contains_key(source_id@) && v@.to_set()
                    == self.branches_view()[source_id@] && no_dups(v@),
                None => !self.branches_view().contains_key(source_id@),
            },
    {
        let r = self.hit_branches.get(source_id);
        proof {
            if let Some(v) = r {
                assert(v@.map_values(|e: (usize, usize, usize, usize)| e.entry_view()) =~= v@);
            }
        }
        r
    }

    /// Forgets every hit of a source.
    pub fn remove_source(&mut self, source_id: &str)
        requires
            old(self).wf(),
        ensures
            final(self).wf(),
            final(self).spans_view() == old(self).spans_view().remove(source_id@),
            final(self).functions_view() == old(self).functions_view().remove(source_id@),
            final(self).branches_view() == old(self).branches_view().remove(source_id@),
    {
        self.hit_spans.remove(source_id);
        self.hit_functions.remove(source_id);
        self.hit_branches.remove(source_id);
    }

    /// The number of distinct (source, span) hits when it fits a `usize`;
    /// a caller can test that here before asking `total_spans_hit`.
    pub fn total_spans_hit_checked(&self) -> (r: Option<usize>)
        requires
            self.wf(),
        ensures
            pairs(self.spans_view()).finite(),
            pairs(self.spans_view()).len() <= usize::MAX ==> r == Some(
                pairs(self.spans_view()).len() as usize,
            ),
            pairs(self.spans_view()).len() > usize::MAX ==> r is None,
    {
        proof {
            self.hit_spans.lemma_count_pairs();
        }
        self.hit_spans.total_checked()
    }

    /// The number of distinct (source, span) hits.
    pub fn total_spans_hit(&self) -> (n: usize)
        requires
            self.wf(),
            pairs(self.spans_view()).len() <= usize::MAX,
        ensures
            pairs(self.spans_view()).finite(),
            n == pairs(self.spans_view()).len(),
    {
        proof {
            self.hit_spans.lemma_count_pairs();
        }
        self.hit_spans.total()
    }
}

impl Default for CoverageCollector {
    fn default() -> (c: Self)
        ensures
            c.wf(),
            c.spans_view() == Map::<Seq<char>, Set<(usize, usize)>>::empty(),
            c.functions_view() == Map::<Seq<char>, Set<(usize, usize, Option<Seq<char>>)>>::empty(),
            c.branches_view() == Map::<Seq<char>, Set<(usize, usize, usize, usize)>>::empty(),
    {
        Self::new()
    }
}


/// The table after recording entry `e` under key `k`.
pub open spec fn recorded<V>(m: Map<Seq<char>, Set<V>>, k: Seq<char>, e: V) -> Map<Seq<char>, Set<V>> {
    m.insert(k, entries_of(m, k).insert(e))
}

/// Recording the same hit twice is recording it once.
pub proof fn law_record_idempotent<V>(m: Map<Seq<char>, Set<V>>, k: Seq<char>, e: V)
    ensures
        recorded(recorded(m, k, e), k, e) == recorded(m, k, e),
{
    let once = recorded(m, k, e);
    assert(entries_of(once, k).insert(e) =~= entries_of(once, k));
    assert(recorded(once, k, e) =~= once);
}

/// A merge holds exactly the (source, entry) pairs of both sides.
pub proof fn law_merge_pairs<V>(a: Map<Seq<char>, Set<V>>, b: Map<Seq<char>, Set<V>>)
    ensures
        pairs(union_maps(a, b)) == pairs(a) + pairs(b),
{
    assert(pairs(union_maps(a, b)) =~= pairs(a) + pairs(b));
}

/// The order of a merge does not matter.
pub proof fn law_merge_commutes<V>(a: Map<Seq<char>, Set<V>>, b: Map<Seq<char>, Set<V>>)
    ensures
        union_maps(a, b) == union_maps(b, a),
{
    let x = union_maps(a, b);
    let y = union_maps(b, a);
    assert forall|k: Seq<char>| #[trigger] x.contains_key(k) implies x[k] == y[k] by {
        assert(x[k] =~= y[k]);
    }
    assert(x =~= y);
}

/// Merging in an empty collector changes nothing, and merging a collector
/// into an empty one gives that collector.
pub proof fn law_merge_empty<V>(a: Map<Seq<char>, Set<V>>)
    ensures
        union_maps(a, Map::empty()) == a,
        union_maps(Map::empty(), a) == a,
{
    lemma_union_empty(a);
    law_merge_commutes(a, Map::<Seq<char>, Set<V>>::empty());
}

/// After removing a source, nothing is recorded for it and every other
/// source keeps its entries.
pub proof fn law_remove_source<V>(m: Map<Seq<char>, Set<V>>, k: Seq<char>, other: Seq<char>)
    requires
        other != k,
    ensures
        !m.remove(k).contains_key(k),
        entries_of(m.remove(k), other) == entries_of(m, other),
{
}

} // verus!
