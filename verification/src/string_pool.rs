//! String interning with mark-and-sweep collection.
//!
//! A pool hands out one handle per distinct live content. Handles are slot
//! numbers that are never reused, so a handle to a collected string never
//! compares equal to a later one.

use vstd::prelude::*;
use crate::text::utf8_len;
use crate::text::lemma_utf8_len_encode;

verus! {

/// Threshold below which collection is never scheduled: one mebibyte.
pub const MIN_COLLECTION_THRESHOLD: usize = 1048576;

/// A handle to an interned string.
#[derive(Debug, Clone, Copy, PartialEq, Eq, Hash, Structural)]
pub struct InternedString {
    index: usize,
}

impl InternedString {
    /// The slot that the handle names.
    pub closed spec fn slot(self) -> nat {
        self.index as nat
    }

    /// Whether two handles name the same interned string.
    pub fn ptr_eq(self, other: InternedString) -> (r: bool)
        ensures
            r == (self.slot() == other.slot()),
    {
        self.index == other.index
    }

    /// The text of the interned string, read from the pool that holds it.
    pub fn as_str<'p>(self, pool: &'p StringPool) -> (s: &'p str)
        requires
            pool.is_live(self),
        ensures
            s@ == pool.content_of(self),
    {
        pool.get_content(self)
    }
}

/// The stored text of an interned string and its size in bytes.
struct InternedStringData {
    content: String,
    size: usize,
}

impl InternedStringData {
    fn new(content: &str) -> (d: Self)
        ensures
            d.content@ == content@,
            d.size == utf8_len(content@),
    {
        let size = content.as_bytes().len();
        proof {
            lemma_utf8_len_encode(content@);
        }
        InternedStringData { content: String::from_str(content), size }
    }

    fn new_owned(content: String) -> (d: Self)
        ensures
            d.content@ == content@,
            d.size == utf8_len(content@),
    {
        let size = content.as_str().as_bytes().len();
        proof {
            lemma_utf8_len_encode(content@);
        }
        InternedStringData { content, size }
    }
}

/// The bytes that a slot holds: the UTF-8 length of its content, or none
/// once collected.
pub open spec fn slot_bytes(d: Option<Seq<char>>) -> nat {
    match d {
        Some(s) => utf8_len(s),
        None => 0,
    }
}

/// Total bytes of the live contents.
pub open spec fn total_bytes(c: Seq<Option<Seq<char>>>) -> nat
    decreases c.len(),
{
    if c.len() == 0 {
        0
    } else {
        total_bytes(c.drop_last()) + slot_bytes(c.last())
    }
}

/// Number of live slots.
pub open spec fn live_count(c: Seq<Option<Seq<char>>>) -> nat
    decreases c.len(),
{
    if c.len() == 0 {
        0
    } else {
        live_count(c.drop_last()) + if c.last() is Some {
            1nat
        } else {
            0nat
        }
    }
}

/// No content is live in two slots.
pub open spec fn distinct_contents(c: Seq<Option<Seq<char>>>) -> bool {
    forall|i: int, j: int|
        0 <= i < c.len() && 0 <= j < c.len() && i != j && c[i] is Some ==> #[trigger] c[i] != #[trigger] c[j]
}

/// The slot that holds a content, if one does.
pub open spec fn slot_of(c: Seq<Option<Seq<char>>>, s: Seq<char>) -> Option<int> {
    if exists|i: int| 0 <= i < c.len() && c[i] == Some(s) {
        Some(choose|i: int| 0 <= i < c.len() && c[i] == Some(s))
    } else {
        None
    }
}

/// Whether some root names slot `i`.
pub open spec fn rooted(roots: Seq<InternedString>, i: int) -> bool {
    exists|k: int| 0 <= k < roots.len() && roots[k].slot() == i
}

/// The slots that stay live after a collection from `roots`.
pub open spec fn collected(c: Seq<Option<Seq<char>>>, roots: Seq<InternedString>) -> Seq<
    Option<Seq<char>>,
> {
    Seq::new(
        c.len(),
        |i: int|
            if rooted(roots, i) {
                c[i]
            } else {
                None
            },
    )
}

/// The threshold that a collection sets: twice the bytes left, and at least
/// one mebibyte.
pub open spec fn next_threshold(bytes: nat) -> nat {
    if 2 * bytes > MIN_COLLECTION_THRESHOLD {
        2 * bytes
    } else {
        MIN_COLLECTION_THRESHOLD as nat
    }
}

/// Removing a slot's content takes its bytes off the total.
pub proof fn lemma_total_bytes_clear(c: Seq<Option<Seq<char>>>, i: int)
    requires
        0 <= i < c.len(),
    ensures
        total_bytes(c.update(i, None)) + slot_bytes(c[i]) == total_bytes(c),
        live_count(c.update(i, None)) + (if c[i] is Some {
            1nat
        } else {
            0nat
        }) == live_count(c),
    decreases c.len(),
{
    let u = c.update(i, None);
    if i < c.len() - 1 {
        lemma_total_bytes_clear(c.drop_last(), i);
        assert(u.drop_last() =~= c.drop_last().update(i, None));
    } else {
        assert(u.drop_last() =~= c.drop_last());
    }
}

/// The live count is at most the number of slots.
pub proof fn lemma_live_count_bound(c: Seq<Option<Seq<char>>>)
    ensures
        live_count(c) <= c.len(),
    decreases c.len(),
{
    if c.len() > 0 {
        lemma_live_count_bound(c.drop_last());
    }
}

/// A pool of interned strings with a collection threshold.
pub struct StringPool {
    slots: Vec<Option<InternedStringData>>,
    bytes_allocated: usize,
    next_garbage_collection: usize,
    live: usize,
}

/// The content of a slot's data.
spec fn data_view(d: Option<InternedStringData>) -> Option<Seq<char>> {
    match d {
        Some(x) => Some(x.content@),
        None => None,
    }
}

/// What interning `content` with a chance of collecting does: when the
/// pool's bytes reached the threshold and roots were given, it first
/// collects from those roots and sets the next threshold; then it interns
/// `content` into what remains, giving the slot that holds it.
pub open spec fn interned_with_gc(
    contents: Seq<Option<Seq<char>>>,
    threshold: nat,
    roots: Seq<InternedString>,
    content: Seq<char>,
    final_contents: Seq<Option<Seq<char>>>,
    final_threshold: nat,
    h: InternedString,
) -> bool {
    let gc = total_bytes(contents) >= threshold && roots.len() > 0;
    let mid = if gc {
        collected(contents, roots)
    } else {
        contents
    };
    &&& gc ==> final_threshold == next_threshold(total_bytes(mid))
    &&& !gc ==> final_threshold == threshold
    &&& match slot_of(mid, content) {
        Some(i) => h.slot() == i && final_contents == mid,
        None => h.slot() == mid.len() && final_contents == mid.push(Some(content)),
    }
}

impl StringPool {
    /// Each slot's content, or `None` once collected.
    pub closed spec fn contents(&self) -> Seq<Option<Seq<char>>> {
        self.slots@.map_values(|d: Option<InternedStringData>| data_view(d))
    }

    /// The byte count at which the next collection is due.
    pub closed spec fn threshold(&self) -> nat {
        self.next_garbage_collection as nat
    }

    /// Whether a handle names a live string of this pool.
    pub open spec fn is_live(&self, h: InternedString) -> bool {
        h.slot() < self.contents().len() && self.contents()[h.slot() as int] is Some
    }

    /// The content of a live handle.
    pub open spec fn content_of(&self, h: InternedString) -> Seq<char> {
        self.contents()[h.slot() as int]->Some_0
    }

    /// Bytes of the live strings.
    pub open spec fn bytes(&self) -> nat {
        total_bytes(self.contents())
    }

    /// Each live content sits in one slot; the counters match the slots.
    pub closed spec fn wf(&self) -> bool {
        &&& distinct_contents(self.contents())
        &&& self.bytes_allocated == total_bytes(self.contents())
        &&& self.live == live_count(self.contents())
        &&& self.next_garbage_collection >= MIN_COLLECTION_THRESHOLD
        &&& forall|i: int|
            0 <= i < self.slots@.len() && #[trigger] self.slots@[i] is Some ==> self.slots@[i]->Some_0.size
                == utf8_len(self.slots@[i]->Some_0.content@)
    }

    /// An empty pool whose first collection is due at one mebibyte.
    pub fn new() -> (p: Self)
        ensures
            p.wf(),
            p.contents() == Seq::<Option<Seq<char>>>::empty(),
            p.threshold() == MIN_COLLECTION_THRESHOLD,
    {
        let p = StringPool {
            slots: Vec::new(),
            bytes_allocated: 0,
            next_garbage_collection: MIN_COLLECTION_THRESHOLD,
            live: 0,
        };
        proof {
            assert(p.contents() =~= Seq::<Option<Seq<char>>>::empty());
        }
        p
    }

    /// The slot that holds `content`, if any.
    fn find(&self, content: &String) -> (r: Option<usize>)
        requires
            self.wf(),
        ensures
            r == (match slot_of(self.contents(), content@) {
                Some(i) => Some(i as usize),
                None => None::<usize>,
            }),
            r matches Some(i) ==> i < self.contents().len() && self.contents()[i as int] == Some(
                content@,
            ),
    {
        let mut i: usize = 0;
        while i < self.slots.len()
            invariant
                i <= self.slots@.len(),
                self.wf(),
                forall|j: int| 0 <= j < i ==> self.contents()[j] != Some(content@),
            decreases self.slots.len() - i,
        {
            match &self.slots[i] {
                Some(d) => {
                    if d.content == *content {
                        proof {
                            assert(self.contents()[i as int] == Some(content@));
                            let k = choose|k: int|
                                0 <= k < self.contents().len() && self.contents()[k] == Some(
                                    content@,
                                );
                            assert(k == i);
                        }
                        return Some(i);
                    }
                },
                None => {},
            }
            i += 1;
        }
        None
    }

    /// Stores new data in a fresh slot.
    fn push_data(&mut self, d: InternedStringData) -> (h: InternedString)
        requires
            old(self).wf(),
            slot_of(old(self).contents(), d.content@) is None,
            d.size == utf8_len(d.content@),
            old(self).bytes() + d.size <= usize::MAX,
        ensures
            final(self).wf(),
            h.slot() == old(self).contents().len(),
            final(self).contents() == old(self).contents().push(Some(d.content@)),
            final(self).threshold() == old(self).threshold(),
    {
        let ghost c0 = self.contents();
        let index = self.slots.len();
        let size = d.size;
        proof {
            lemma_live_count_bound(c0);
        }
        self.slots.push(Some(d));
        let new_len = self.slots.len();
        assert(c0.len() + 1 == new_len);
        self.bytes_allocated = self.bytes_allocated + size;
        self.live = self.live + 1;
        proof {
            let c = self.contents();
            assert(c =~= c0.push(Some(d.content@)));
            assert(c.drop_last() =~= c0);
            assert forall|i: int, j: int|
                0 <= i < c.len() && 0 <= j < c.len() && i != j && c[i] is Some implies #[trigger] c[i]
                    != #[trigger] c[j] by {
                if i == c.len() - 1 {
                    assert(c0[j] != Some(d.content@));
                } else if j == c.len() - 1 {
                    assert(c0[i] != Some(d.content@));
                }
            }
            assert forall|i: int|
                0 <= i < self.slots@.len() && #[trigger] self.slots@[i] is Some implies self.slots@[i]->Some_0.size
                    == utf8_len(self.slots@[i]->Some_0.content@) by {
                if i < self.slots@.len() - 1 {
                    assert(self.slots@[i] == old(self).slots@[i]);
                }
            }
        }
        InternedString { index }
    }

    /// The handle of `content`, interning it when no live slot holds it.
    pub fn intern(&mut self, content: &str) -> (h: InternedString)
        requires
            old(self).wf(),
            slot_of(old(self).contents(), content@) is None ==> old(self).bytes() + utf8_len(
                content@,
            ) <= usize::MAX,
        ensures
            final(self).wf(),
            final(self).threshold() == old(self).threshold(),
            match slot_of(old(self).contents(), content@) {
                Some(i) => h.slot() == i && final(self).contents() == old(self).contents(),
                None => h.slot() == old(self).contents().len() && final(self).contents() == old(
                    self,
                ).contents().push(Some(content@)),
            },
    {
        let key = String::from_str(content);
        match self.find(&key) {
            Some(i) => InternedString { index: i },
            None => {
                let d = InternedStringData::new(content);
                self.push_data(d)
            },
        }
    }

    /// The handle of `content`, interning it (and taking ownership) when no
    /// live slot holds it.
    fn intern_owned(&mut self, content: String) -> (h: InternedString)
        requires
            old(self).wf(),
            slot_of(old(self).contents(), content@) is None ==> old(self).bytes() + utf8_len(
                content@,
            ) <= usize::MAX,
        ensures
            final(self).wf(),
            final(self).threshold() == old(self).threshold(),
            match slot_of(old(self).contents(), content@) {
                Some(i) => h.slot() == i && final(self).contents() == old(self).contents(),
                None => h.slot() == old(self).contents().len() && final(self).contents() == old(
                    self,
                ).contents().push(Some(content@)),
            },
    {
        match self.find(&content) {
            Some(i) => InternedString { index: i },
            None => {
                let d = InternedStringData::new_owned(content);
                self.push_data(d)
            },
        }
    }

    /// Whether the live bytes have reached the collection threshold.
    pub fn should_collect(&self) -> (r: bool)
        requires
            self.wf(),
        ensures
            r == (self.bytes() >= self.threshold()),
    {
        self.bytes_allocated >= self.next_garbage_collection
    }

    /// Frees the slot of a live string.
    pub fn deallocate_string(&mut self, string: InternedString)
        requires
            old(self).wf(),
            old(self).is_live(string),
        ensures
            final(self).wf(),
            final(self).contents() == old(self).contents().update(string.slot() as int, None),
            final(self).threshold() == old(self).threshold(),
    {
        let i = string.index;
        let ghost c0 = self.contents();
        let size = match &self.slots[i] {
            Some(d) => d.size,
            None => 0,
        };
        proof {
            lemma_total_bytes_clear(c0, i as int);
        }
        self.slots.set(i, None);
        self.bytes_allocated = self.bytes_allocated - size;
        self.live = self.live - 1;
        proof {
            let c = self.contents();
            assert(c =~= c0.update(i as int, None));
            assert forall|a: int, b: int|
                0 <= a < c.len() && 0 <= b < c.len() && a != b && c[a] is Some implies #[trigger] c[a]
                    != #[trigger] c[b] by {
                assert(c0[a] == c[a]);
                if b != i {
                    assert(c0[b] == c[b]);
                }
            }
            assert forall|k: int|
                0 <= k < self.slots@.len() && #[trigger] self.slots@[k] is Some implies self.slots@[k]->Some_0.size
                    == utf8_len(self.slots@[k]->Some_0.content@) by {
                assert(self.slots@[k] == old(self).slots@[k]);
            }
        }
    }

    /// Mark and sweep: keeps the strings that the roots name, frees the
    /// rest, and sets the next threshold to twice the bytes left (at least
    /// one mebibyte).
    pub fn collect_garbage(&mut self, roots: Vec<InternedString>)
        requires
            old(self).wf(),
            forall|k: int| 0 <= k < roots@.len() ==> old(self).is_live(#[trigger] roots@[k]),
            2 * total_bytes(collected(old(self).contents(), roots@)) <= usize::MAX,
        ensures
            final(self).wf(),
            final(self).contents() == collected(old(self).contents(), roots@),
            final(self).threshold() == next_threshold(final(self).bytes()),
    {
        let n = self.slots.len();
        let mut marks: Vec<bool> = Vec::new();
        let mut z: usize = 0;
        while z < n
            invariant
                z <= n,
                n == self.slots@.len(),
                marks@.len() == z,
                forall|j: int| 0 <= j < z ==> !marks@[j],
            decreases n - z,
        {
            marks.push(false);
            z += 1;
        }
        // Mark phase: every root goes onto the gray list, then turns black.
        let mut gray: Vec<InternedString> = Vec::new();
        let mut k: usize = 0;
        while k < roots.len()
            invariant
                k <= roots@.len(),
                marks@.len() == n,
                n == self.slots@.len(),
                self.slots@ == old(self).slots@,
                forall|j: int| 0 <= j < n ==> !marks@[j],
                forall|q: int| 0 <= q < roots@.len() ==> old(self).is_live(#[trigger] roots@[q]),
                gray@ == roots@.take(k as int),
            decreases roots.len() - k,
        {
            let r = roots[k];
            proof {
                assert(old(self).is_live(roots@[k as int]));
                assert(old(self).contents().len() == n);
            }
            if !marks[r.index] {
                gray.push(r);
            }
            proof {
                assert(roots@.take(k + 1) =~= roots@.take(k as int).push(r));
            }
            k += 1;
        }
        proof {
            assert(roots@.take(roots@.len() as int) =~= roots@);
        }
        while gray.len() > 0
            invariant
                marks@.len() == n,
                n == self.slots@.len(),
                self.slots@ == old(self).slots@,
                forall|q: int| 0 <= q < gray@.len() ==> rooted(roots@, #[trigger] gray@[q].slot() as int),
                forall|q: int| 0 <= q < gray@.len() ==> (#[trigger] gray@[q]).slot() < n,
                forall|j: int| 0 <= j < n && #[trigger] marks@[j] ==> rooted(roots@, j),
                forall|j: int|
                    0 <= j < n && rooted(roots@, j) ==> #[trigger] marks@[j] || exists|q: int|
                        0 <= q < gray@.len() && gray@[q].slot() == j,
            decreases gray.len(),
        {
            let ghost g0 = gray@;
            let s = gray.pop().unwrap();
            proof {
                assert(g0 =~= gray@.push(s));
                assert(s == g0[g0.len() - 1]);
            }
            marks.set(s.index, true);
            proof {
                assert forall|j: int|
                    0 <= j < n && rooted(roots@, j) implies #[trigger] marks@[j] || exists|q: int|
                        0 <= q < gray@.len() && gray@[q].slot() == j by {
                    if !marks@[j] {
                        assert(old(self).slots@ == self.slots@);
                        let q = choose|q: int| 0 <= q < g0.len() && g0[q].slot() == j;
                        if q == g0.len() - 1 {
                            assert(s.slot() == j);
                        } else {
                            assert(gray@[q] == g0[q]);
                        }
                    }
                }
            }
        }
        // Sweep phase: free every unmarked live slot.
        let ghost c0 = self.contents();
        let mut i: usize = 0;
        while i < n
            invariant
                i <= n,
                n == self.slots@.len(),
                marks@.len() == n,
                c0 == old(self).contents(),
                c0.len() == n,
                self.wf(),
                self.threshold() == old(self).threshold(),
                forall|j: int| 0 <= j < n ==> (#[trigger] marks@[j] <==> rooted(roots@, j)),
                self.contents() == Seq::new(
                    n as nat,
                    |j: int|
                        if j < i {
                            collected(c0, roots@)[j]
                        } else {
                            c0[j]
                        },
                ),
            decreases n - i,
        {
            let is_some = match &self.slots[i] {
                Some(_) => true,
                None => false,
            };
            let ghost before = self.contents();
            proof {
                assert(before[i as int] == data_view(self.slots@[i as int]));
                assert(is_some == (before[i as int] is Some));
                assert(before[i as int] == c0[i as int]);
            }
            if is_some && !marks[i] {
                proof {
                    assert(self.contents()[i as int] is Some);
                }
                self.deallocate_string(InternedString { index: i });
            }
            proof {
                let target = Seq::new(
                    n as nat,
                    |j: int|
                        if j < i + 1 {
                            collected(c0, roots@)[j]
                        } else {
                            c0[j]
                        },
                );
                assert(self.contents().len() == n);
                assert forall|j: int| 0 <= j < n implies self.contents()[j] == target[j] by {
                    let cj = collected(c0, roots@)[j];
                    assert(cj == if rooted(roots@, j) {
                        c0[j]
                    } else {
                        None
                    });
                    if j == i as int {
                        assert(marks@[j] <==> rooted(roots@, j));
                        assert(target[j] == cj);
                        if is_some && !marks@[j] {
                            assert(self.contents()[j] == None::<Seq<char>>);
                        } else if is_some {
                            assert(self.contents()[j] == before[j]);
                        } else {
                            assert(self.contents()[j] == before[j]);
                            assert(c0[j] is None);
                        }
                    } else if j < i {
                        assert(self.contents()[j] == before[j]);
                        assert(before[j] == cj);
                    } else {
                        assert(self.contents()[j] == before[j]);
                        assert(before[j] == c0[j]);
                    }
                }
                assert(self.contents() =~= target);
            }
            i += 1;
        }
        proof {
            assert(self.contents() =~= collected(c0, roots@));
            lemma_total_bytes_bound_collected(c0, roots@);
        }
        let doubled = self.bytes_allocated * 2;
        self.next_garbage_collection = if doubled > MIN_COLLECTION_THRESHOLD {
            doubled
        } else {
            MIN_COLLECTION_THRESHOLD
        };
    }

    /// Interns `content`, first collecting from `additional_roots` when a
    /// collection is due and roots were given.
    pub fn intern_with_gc(&mut self, content: &str, additional_roots: Vec<InternedString>) -> (h:
        InternedString)
        requires
            old(self).wf(),
            forall|k: int|
                0 <= k < additional_roots@.len() ==> old(self).is_live(#[trigger] additional_roots@[k]),
            interning_fits(old(self).contents(), old(self).threshold(), additional_roots@, content@),
        ensures
            final(self).wf(),
            interned_with_gc(
                old(self).contents(),
                old(self).threshold(),
                additional_roots@,
                content@,
                final(self).contents(),
                final(self).threshold(),
                h,
            ),
    {
        if self.should_collect() && additional_roots.len() > 0 {
            let ghost c0 = self.contents();
            self.collect_garbage(additional_roots);
            proof {
                lemma_total_bytes_bound_collected(c0, additional_roots@);
            }
        }
        self.intern(content)
    }

    /// Interns `content` by value, first collecting from `additional_roots`
    /// when a collection is due and roots were given.
    pub fn intern_owned_with_gc(&mut self, content: String, additional_roots: Vec<InternedString>) -> (h:
        InternedString)
        requires
            old(self).wf(),
            forall|k: int|
                0 <= k < additional_roots@.len() ==> old(self).is_live(#[trigger] additional_roots@[k]),
            interning_fits(old(self).contents(), old(self).threshold(), additional_roots@, content@),
        ensures
            final(self).wf(),
            interned_with_gc(
                old(self).contents(),
                old(self).threshold(),
                additional_roots@,
                content@,
                final(self).contents(),
                final(self).threshold(),
                h,
            ),
    {
        if self.should_collect() && additional_roots.len() > 0 {
            let ghost c0 = self.contents();
            self.collect_garbage(additional_roots);
            proof {
                lemma_total_bytes_bound_collected(c0, additional_roots@);
            }
        }
        self.intern_owned(content)
    }

    /// The text of a live string.
    pub fn get_content(&self, string: InternedString) -> (s: &str)
        requires
            self.is_live(string),
        ensures
            s@ == self.content_of(string),
    {
        match &self.slots[string.index] {
            Some(d) => d.content.as_str(),
            None => "",
        }
    }

    /// The counters a pool keeps: bytes held, the threshold of the next
    /// collection and the number of live strings.
    pub closed spec fn stats_view(&self) -> (nat, nat, nat) {
        (self.bytes_allocated as nat, self.next_garbage_collection as nat, self.live as nat)
    }

    /// (live bytes, collection threshold, number of live strings).
    pub fn stats(&self) -> (r: (usize, usize, usize))
        requires
            self.wf(),
        ensures
            r.0 == self.bytes(),
            r.1 == self.threshold(),
            r.2 == live_count(self.contents()),
    {
        (self.bytes_allocated, self.next_garbage_collection, self.live)
    }
}

/// A collection never adds bytes.
pub proof fn lemma_total_bytes_bound_collected(c: Seq<Option<Seq<char>>>, roots: Seq<InternedString>)
    ensures
        total_bytes(collected(c, roots)) <= total_bytes(c),
    decreases c.len(),
{
    if c.len() > 0 {
        let p = c.drop_last();
        lemma_total_bytes_bound_collected(p, roots);
        assert(collected(c, roots).drop_last() =~= collected(p, roots));
    }
}


/// The pool's contents after interning `s`: unchanged when a live slot holds
/// it, else with a new slot for it.
pub open spec fn interned(c: Seq<Option<Seq<char>>>, s: Seq<char>) -> Seq<Option<Seq<char>>> {
    match slot_of(c, s) {
        Some(_) => c,
        None => c.push(Some(s)),
    }
}

/// Interning keeps each live content in one slot, and after interning `s`
/// the slot that holds it is the handle that was returned: interning the
/// same text again gives the same handle.
pub proof fn law_intern_idempotent(c: Seq<Option<Seq<char>>>, s: Seq<char>)
    requires
        distinct_contents(c),
    ensures
        distinct_contents(interned(c, s)),
        slot_of(interned(c, s), s) == Some(
            match slot_of(c, s) {
                Some(i) => i,
                None => c.len() as int,
            },
        ),
        interned(interned(c, s), s) == interned(c, s),
{
    let d = interned(c, s);
    match slot_of(c, s) {
        Some(i) => {
            let k = choose|k: int| 0 <= k < c.len() && c[k] == Some(s);
            assert(k == i);
        },
        None => {
            assert forall|i: int, j: int|
                0 <= i < d.len() && 0 <= j < d.len() && i != j && d[i] is Some implies #[trigger] d[i]
                    != #[trigger] d[j] by {
                if i == c.len() {
                    assert(c[j] != Some(s));
                } else if j == c.len() {
                    assert(c[i] != Some(s));
                } else {
                    assert(d[i] == c[i] && d[j] == c[j]);
                }
            }
            assert(d[c.len() as int] == Some(s));
            let k = choose|k: int| 0 <= k < d.len() && d[k] == Some(s);
            if k < c.len() {
                assert(c[k] == Some(s));
            }
        },
    }
}

/// Two live handles of a pool are equal exactly when their texts are.
pub proof fn law_same_handle_iff_same_text(p: &StringPool, a: InternedString, b: InternedString)
    requires
        p.wf(),
        p.is_live(a),
        p.is_live(b),
    ensures
        (a.slot() == b.slot()) <==> (p.content_of(a) == p.content_of(b)),
{
    let c = p.contents();
    let i = a.slot() as int;
    let j = b.slot() as int;
    if i != j {
        assert(c[i] != c[j]);
    }
}

/// A collection keeps the text of every root and frees every slot that no
/// root names.
pub proof fn law_collection_keeps_roots(c: Seq<Option<Seq<char>>>, roots: Seq<InternedString>, i: int)
    requires
        0 <= i < c.len(),
    ensures
        collected(c, roots).len() == c.len(),
        rooted(roots, i) ==> collected(c, roots)[i] == c[i],
        !rooted(roots, i) ==> collected(c, roots)[i] is None,
{
}

/// The threshold a collection sets is never below one mebibyte.
pub proof fn law_threshold_floor(bytes: nat)
    ensures
        next_threshold(bytes) >= MIN_COLLECTION_THRESHOLD,
        next_threshold(bytes) >= 2 * bytes,
{
}

/// What interning with collection works on after the collection, if one is
/// due.
pub open spec fn after_collection(
    contents: Seq<Option<Seq<char>>>,
    threshold: nat,
    roots: Seq<InternedString>,
) -> Seq<Option<Seq<char>>> {
    if total_bytes(contents) >= threshold && roots.len() > 0 {
        collected(contents, roots)
    } else {
        contents
    }
}

/// The counts of interning with collection fit a `usize`: the doubled bytes
/// that a collection leaves, and the bytes after a new string is added.
pub open spec fn interning_fits(
    contents: Seq<Option<Seq<char>>>,
    threshold: nat,
    roots: Seq<InternedString>,
    content: Seq<char>,
) -> bool {
    let mid = after_collection(contents, threshold, roots);
    &&& total_bytes(contents) >= threshold && roots.len() > 0 ==> 2 * total_bytes(mid) <= usize::MAX
    &&& slot_of(mid, content) is None ==> total_bytes(mid) + utf8_len(content) <= usize::MAX
}

/// Interning by value and by reference are the same operation: from one
/// pool, roots and text, both give the same contents, threshold and handle.
pub proof fn law_interning_is_determined(
    contents: Seq<Option<Seq<char>>>,
    threshold: nat,
    roots: Seq<InternedString>,
    content: Seq<char>,
    c1: Seq<Option<Seq<char>>>,
    t1: nat,
    h1: InternedString,
    c2: Seq<Option<Seq<char>>>,
    t2: nat,
    h2: InternedString,
)
    requires
        interned_with_gc(contents, threshold, roots, content, c1, t1, h1),
        interned_with_gc(contents, threshold, roots, content, c2, t2, h2),
    ensures
        c1 == c2,
        t1 == t2,
        h1.slot() == h2.slot(),
{
}

/// Every well-formed pool, so every pool reached by any sequence of calls
/// from `new`, keeps its counters equal to its contents and its threshold
/// at or above one mebibyte.
pub proof fn law_pool_counters(p: &StringPool)
    requires
        p.wf(),
    ensures
        p.threshold() >= MIN_COLLECTION_THRESHOLD,
        p.stats_view() == (p.bytes(), p.threshold(), live_count(p.contents())),
{
}

} // verus!
