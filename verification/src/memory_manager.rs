//! The heap of the virtual machine: interned strings, objects, arrays,
//! functions, closures, upvalues and imports in one slot map, with the
//! bytes they take and a mark-and-sweep collector.

use vstd::prelude::*;
use vstd::set_lib::lemma_len_subset;
use crate::chunk::{
    key_eq, ArrayIndex, ClosureIndex, FunctionIndex, ImportIndex, ObjectIndex, OwnedChunk,
    StringIndex, UpvalueIndex, Value,
};
use crate::text::lemma_utf8_len_encode;
use crate::text::utf8_len;
use slotmap::DefaultKey;
use slotmap::SlotMap;

verus! {

/// The slot map that holds the heap's entries. Verus does not take a
/// declaration of `SlotMap` (its key bound is an outside trait), so the map
/// sits in this struct, and `heap_contents` names what it holds.
#[verifier::external_body]
pub struct HeapSlots {
    slots: SlotMap<DefaultKey, HeapEntry>,
}

/// The result of an allocation: the key of the new (or interned) entry and
/// whether the heap has reached its collection threshold.
#[derive(Debug, Clone, PartialEq)]
pub struct AllocationResult<T> {
    pub should_garbage_collect: bool,
    pub index: T,
}

/// An interned string.
pub struct ManagedString {
    pub content: String,
}

impl ManagedString {
    pub fn new(content: String) -> (r: Self)
        ensures
            r.content@ == content@,
    {
        ManagedString { content }
    }

    /// The bytes the string takes: a fixed header and its UTF-8 bytes.
    pub fn size(&self) -> (r: usize)
        requires
            32 + utf8_len(self.content@) <= usize::MAX,
        ensures
            r == 32 + utf8_len(self.content@),
    {
        let n = self.content.as_str().as_bytes().len();
        proof {
            lemma_utf8_len_encode(self.content@);
        }
        32 + n
    }
}

/// A Jsonnet object: its fields, each an interned key and a value.
pub struct ManagedObject {
    pub properties: Vec<(StringIndex, Value)>,
}

/// The value stored under `key`, the first field with that key.
pub open spec fn property_of(props: Seq<(StringIndex, Value)>, key: StringIndex) -> Option<Value>
    decreases props.len(),
{
    if props.len() == 0 {
        None
    } else if props[0].0 == key {
        Some(props[0].1)
    } else {
        property_of(props.drop_first(), key)
    }
}

impl ManagedObject {
    /// An object without fields.
    pub fn new() -> (r: Self)
        ensures
            r.properties@.len() == 0,
    {
        ManagedObject { properties: Vec::new() }
    }

    /// An object with the given fields.
    pub fn with_properties(properties: Vec<(StringIndex, Value)>) -> (r: Self)
        ensures
            r.properties@ == properties@,
    {
        ManagedObject { properties }
    }

    /// The value of field `key`, if the object has it.
    pub fn get(&self, key: &StringIndex) -> (r: Option<&Value>)
        ensures
            r is Some <==> property_of(self.properties@, *key) is Some,
            r is Some ==> property_of(self.properties@, *key) == Some(*r.unwrap()),
    {
        let mut i: usize = 0;
        assert(self.properties@.skip(0) =~= self.properties@);
        while i < self.properties.len()
            invariant
                i <= self.properties@.len(),
                property_of(self.properties@, *key) == property_of(
                    self.properties@.skip(i as int),
                    *key,
                ),
            decreases self.properties@.len() - i,
        {
            let ghost rest = self.properties@.skip(i as int);
            assert(rest.drop_first() =~= self.properties@.skip(i + 1));
            if key_eq(self.properties[i].0, *key) {
                return Some(&self.properties[i].1);
            }
            i += 1;
        }
        None
    }

    /// Whether the object has field `key`.
    pub fn has_property(&self, key: &StringIndex) -> (r: bool)
        ensures
            r == property_of(self.properties@, *key) is Some,
    {
        self.get(key).is_some()
    }

    /// The number of fields.
    pub fn len(&self) -> (r: usize)
        ensures
            r == self.properties@.len(),
    {
        self.properties.len()
    }

    /// Whether the object has no field.
    pub fn is_empty(&self) -> (r: bool)
        ensures
            r == (self.properties@.len() == 0),
    {
        self.properties.len() == 0
    }
}

/// A Jsonnet array.
pub struct ManagedArray {
    pub elements: Vec<Value>,
}

impl ManagedArray {
    pub fn new(elements: Vec<Value>) -> (r: Self)
        ensures
            r.elements@ == elements@,
    {
        ManagedArray { elements }
    }

    pub fn len(&self) -> (r: usize)
        ensures
            r == self.elements@.len(),
    {
        self.elements.len()
    }

    pub fn is_empty(&self) -> (r: bool)
        ensures
            r == (self.elements@.len() == 0),
    {
        self.elements.len() == 0
    }
}

/// A compiled function: its name, arity, number of upvalues and bytecode.
pub struct ManagedFunction {
    pub name: Option<StringIndex>,
    pub arity: u8,
    pub upvalue_count: u8,
    pub chunk: OwnedChunk,
}

impl ManagedFunction {
    pub fn new(name: Option<StringIndex>, arity: u8, upvalue_count: u8, chunk: OwnedChunk) -> (r:
        Self)
        ensures
            r.name == name,
            r.arity == arity,
            r.upvalue_count == upvalue_count,
            r.chunk == chunk,
    {
        ManagedFunction { name, arity, upvalue_count, chunk }
    }
}

/// A captured variable: open while it points at a stack slot, closed once
/// it holds the value itself.
pub struct ManagedUpvalue {
    pub stack_location: Option<usize>,
    pub closed_value: Option<Value>,
    pub next: Option<UpvalueIndex>,
}

impl ManagedUpvalue {
    pub fn new_open(stack_location: usize) -> (r: Self)
        ensures
            r.stack_location == Some(stack_location),
            r.closed_value is None,
            r.next is None,
    {
        ManagedUpvalue { stack_location: Some(stack_location), closed_value: None, next: None }
    }

    pub fn new_closed(value: Value) -> (r: Self)
        ensures
            r.stack_location is None,
            r.closed_value == Some(value),
            r.next is None,
    {
        ManagedUpvalue { stack_location: None, closed_value: Some(value), next: None }
    }

    /// Closes the upvalue over `value`.
    pub fn close(&mut self, value: Value)
        ensures
            final(self).stack_location is None,
            final(self).closed_value == Some(value),
            final(self).next == old(self).next,
    {
        self.stack_location = None;
        self.closed_value = Some(value);
    }

    pub fn is_closed(&self) -> (r: bool)
        ensures
            r == (self.stack_location is None),
    {
        self.stack_location.is_none()
    }
}

/// A function together with the upvalues it captured.
pub struct ManagedClosure {
    pub function: FunctionIndex,
    pub upvalues: Vec<UpvalueIndex>,
}

impl ManagedClosure {
    pub fn new(function: FunctionIndex, upvalues: Vec<UpvalueIndex>) -> (r: Self)
        ensures
            r.function == function,
            r.upvalues@ == upvalues@,
    {
        ManagedClosure { function, upvalues }
    }
}

/// An imported file: its path and, once evaluated, its value.
pub struct ManagedImport {
    pub path: StringIndex,
    pub cached_result: Option<Value>,
    pub evaluating: bool,
}

impl ManagedImport {
    pub fn new(path: StringIndex) -> (r: Self)
        ensures
            r.path == path,
            r.cached_result is None,
            !r.evaluating,
    {
        ManagedImport { path, cached_result: None, evaluating: false }
    }
}

/// Raw bytes.
pub struct ManagedBinary {
    pub data: Vec<u8>,
}

impl ManagedBinary {
    pub fn new(data: Vec<u8>) -> (r: Self)
        ensures
            r.data@ == data@,
    {
        ManagedBinary { data }
    }
}

/// Key of a binary entry.
pub type BinaryIndex = DefaultKey;

/// An entry of the heap.
pub enum HeapEntry {
    String(ManagedString),
    Object(ManagedObject),
    Array(ManagedArray),
    Function(ManagedFunction),
    Closure(ManagedClosure),
    Upvalue(ManagedUpvalue),
    Import(ManagedImport),
    Binary(ManagedBinary),
}

/// The heap key a value refers to, if it refers to one.
pub open spec fn value_key(v: Value) -> Option<DefaultKey> {
    match v {
        Value::String(k) => Some(k),
        Value::Object(k) => Some(k),
        Value::Array(k) => Some(k),
        Value::Function(k) => Some(k),
        Value::Closure(k) => Some(k),
        Value::Import(k) => Some(k),
        _ => None,
    }
}

pub open spec fn opt_keys(k: Option<DefaultKey>) -> Seq<DefaultKey> {
    match k {
        Some(k) => seq![k],
        None => Seq::empty(),
    }
}

/// The heap keys that a sequence of values refers to, in order.
pub open spec fn keys_of_values(vs: Seq<Value>) -> Seq<DefaultKey>
    decreases vs.len(),
{
    if vs.len() == 0 {
        Seq::empty()
    } else {
        keys_of_values(vs.drop_last()) + opt_keys(value_key(vs.last()))
    }
}

/// The heap keys that the fields of an object refer to: each key and the
/// key of each value.
pub open spec fn keys_of_properties(ps: Seq<(StringIndex, Value)>) -> Seq<DefaultKey>
    decreases ps.len(),
{
    if ps.len() == 0 {
        Seq::empty()
    } else {
        keys_of_properties(ps.drop_last()) + seq![ps.last().0] + opt_keys(value_key(ps.last().1))
    }
}

/// The heap keys an entry refers to: what marking it keeps alive.
pub open spec fn children(e: HeapEntry) -> Seq<DefaultKey> {
    match e {
        HeapEntry::String(_) => Seq::empty(),
        HeapEntry::Object(o) => keys_of_properties(o.properties@),
        HeapEntry::Array(a) => keys_of_values(a.elements@),
        HeapEntry::Function(f) => opt_keys(f.name) + keys_of_values(f.chunk.constants@),
        HeapEntry::Closure(c) => seq![c.function] + c.upvalues@,
        HeapEntry::Upvalue(u) => match u.closed_value {
            Some(v) => opt_keys(value_key(v)),
            None => Seq::empty(),
        },
        HeapEntry::Import(i) => seq![i.path] + match i.cached_result {
            Some(v) => opt_keys(value_key(v)),
            None => Seq::empty(),
        },
        HeapEntry::Binary(_) => Seq::empty(),
    }
}

/// The bytes an entry takes: a header and its contents.
pub open spec fn entry_size(e: HeapEntry) -> nat {
    match e {
        HeapEntry::String(s) => 32 + utf8_len(s.content@),
        HeapEntry::Object(o) => 48 + 24 * o.properties@.len(),
        HeapEntry::Array(a) => 32 + 16 * a.elements@.len(),
        HeapEntry::Function(f) => 64 + f.chunk.code@.len() + 16 * f.chunk.constants@.len(),
        HeapEntry::Closure(c) => 40 + 8 * c.upvalues@.len(),
        HeapEntry::Upvalue(_) => 48,
        HeapEntry::Import(_) => 48,
        HeapEntry::Binary(b) => 32 + b.data@.len(),
    }
}

/// Adds the size of one entry to a running total.
pub open spec fn size_adder() -> spec_fn(nat, (DefaultKey, HeapEntry)) -> nat {
    |acc: nat, p: (DefaultKey, HeapEntry)| acc + entry_size(p.1)
}

/// The bytes all entries of a heap take together.
pub open spec fn size_sum(h: Map<DefaultKey, HeapEntry>) -> nat {
    h.kv_pairs().fold(0nat, size_adder())
}

proof fn lemma_kv_pairs_finite(h: Map<DefaultKey, HeapEntry>)
    requires
        h.dom().finite(),
    ensures
        h.kv_pairs().finite(),
{
    let f = |k: DefaultKey| (k, h[k]);
    h.dom().lemma_map_finite(f);
    assert(h.kv_pairs() =~= h.dom().map(f)) by {
        assert forall|p: (DefaultKey, HeapEntry)| h.kv_pairs().contains(p) implies h.dom().map(
            f,
        ).contains(p) by {
            assert(f(p.0) == p);
        }
    }
}

proof fn lemma_size_sum_empty()
    ensures
        size_sum(empty_heap()) == 0,
{
    assert(empty_heap().kv_pairs() =~= Set::empty());
    vstd::set::fold::lemma_fold_empty::<(DefaultKey, HeapEntry), nat>(0nat, size_adder());
}

proof fn lemma_size_sum_insert(h: Map<DefaultKey, HeapEntry>, k: DefaultKey, e: HeapEntry)
    requires
        h.dom().finite(),
        !h.dom().contains(k),
    ensures
        size_sum(h.insert(k, e)) == size_sum(h) + entry_size(e),
{
    lemma_kv_pairs_finite(h);
    assert(h.insert(k, e).kv_pairs() =~= h.kv_pairs().insert((k, e)));
    assert(!h.kv_pairs().contains((k, e)));
    assert(vstd::set::fold::is_fun_commutative(size_adder()));
    vstd::set::fold::lemma_fold_insert(h.kv_pairs(), 0nat, size_adder(), (k, e));
}

proof fn lemma_size_sum_remove(h: Map<DefaultKey, HeapEntry>, k: DefaultKey)
    requires
        h.dom().finite(),
        h.dom().contains(k),
    ensures
        size_sum(h) == size_sum(h.remove(k)) + entry_size(h[k]),
{
    let r = h.remove(k);
    assert(r.insert(k, h[k]) =~= h);
    lemma_size_sum_insert(r, k, h[k]);
}

/// A heap without entries.
pub open spec fn empty_heap() -> Map<DefaultKey, HeapEntry> {
    Map::empty()
}

/// The contents of a heap slot map, by key.
pub uninterp spec fn heap_contents(m: HeapSlots) -> Map<
    DefaultKey,
    HeapEntry,
>;

/// Calls `SlotMap::new`, which makes an empty slot map.
#[verifier::external_body]
fn heap_new() -> (r: HeapSlots)
    ensures
        heap_contents(r) == empty_heap(),
{
    HeapSlots { slots: SlotMap::new() }
}

/// Calls `SlotMap::insert`, which stores the entry under a key that no
/// entry of the map has and returns that key. It panics only when the map
/// has `u32::MAX` slots in use, which the bound on the length rules out.
#[verifier::external_body]
fn heap_insert(m: &mut HeapSlots, e: HeapEntry) -> (k: DefaultKey)
    requires
        heap_contents(*old(m)).dom().finite(),
        heap_contents(*old(m)).dom().len() + 2 < u32::MAX,
    ensures
        !heap_contents(*old(m)).dom().contains(k),
        heap_contents(*final(m)) == heap_contents(*old(m)).insert(k, e),
{
    m.slots.insert(e)
}

/// Calls `SlotMap::get`, which returns the entry stored under the key, if
/// any.
#[verifier::external_body]
fn heap_get(m: &HeapSlots, k: DefaultKey) -> (r: Option<&HeapEntry>)
    ensures
        heap_contents(*m).dom().contains(k) ==> r == Some(&heap_contents(*m)[k]),
        !heap_contents(*m).dom().contains(k) ==> r is None,
{
    m.slots.get(k)
}

/// Calls `SlotMap::remove`, which takes the entry stored under the key out
/// of the map and returns it, if any.
#[verifier::external_body]
fn heap_remove(m: &mut HeapSlots, k: DefaultKey) -> (r: Option<HeapEntry>)
    ensures
        heap_contents(*final(m)) == heap_contents(*old(m)).remove(k),
        heap_contents(*old(m)).dom().contains(k) ==> r == Some(heap_contents(*old(m))[k]),
        !heap_contents(*old(m)).dom().contains(k) ==> r is None,
{
    m.slots.remove(k)
}

/// Calls `SlotMap::get_mut` on a key the map holds (so the `Option` it
/// returns is `Some`), which lends the entry stored under it; what is left
/// there when the loan ends is the map's entry from then on.
#[verifier::external_body]
fn heap_entry_mut(m: &mut HeapSlots, k: DefaultKey) -> (r: &mut HeapEntry)
    requires
        heap_contents(*old(m)).dom().contains(k),
    ensures
        *r == heap_contents(*old(m))[k],
        heap_contents(*final(m)) == heap_contents(*old(m)).insert(k, *final(r)),
{
    m.slots.get_mut(k).unwrap()
}

/// Calls `SlotMap::len`, which counts the entries the map holds.
#[verifier::external_body]
fn heap_len(m: &HeapSlots) -> (r: usize)
    ensures
        r == heap_contents(*m).dom().len(),
{
    m.slots.len()
}

/// Calls `SlotMap::keys`, which yields each key of the map once.
#[verifier::external_body]
fn heap_keys(m: &HeapSlots) -> (r: Vec<DefaultKey>)
    ensures
        r@.no_duplicates(),
        forall|k: DefaultKey| #[trigger] r@.contains(k) <==> heap_contents(*m).dom().contains(k),
{
    m.slots.keys().collect()
}

/// Whether `k` occurs in `keys`.
fn contains_key(keys: &Vec<DefaultKey>, k: DefaultKey) -> (r: bool)
    ensures
        r == keys@.contains(k),
{
    let mut i: usize = 0;
    while i < keys.len()
        invariant
            i <= keys@.len(),
            forall|j: int| 0 <= j < i ==> keys@[j] != k,
        decreases keys@.len() - i,
    {
        if key_eq(keys[i], k) {
            return true;
        }
        i += 1;
    }
    false
}

/// Whether `k` holds the string `s`.
pub open spec fn string_at(h: Map<DefaultKey, HeapEntry>, k: DefaultKey, s: Seq<char>) -> bool {
    h.dom().contains(k) && h[k] is String && h[k]->String_0.content@ == s
}

/// Whether `b` keeps every entry of `a` unchanged.
pub open spec fn heap_extends(a: Map<DefaultKey, HeapEntry>, b: Map<DefaultKey, HeapEntry>) -> bool {
    forall|k: DefaultKey| #[trigger] a.dom().contains(k) ==> b.dom().contains(k) && b[k] == a[k]
}

/// The keys that hold strings.
pub open spec fn string_keys(h: Map<DefaultKey, HeapEntry>) -> Set<DefaultKey> {
    Set::new(|k: DefaultKey| h.dom().contains(k) && h[k] is String)
}

/// Whether some key holds the string `s`.
pub open spec fn is_interned(h: Map<DefaultKey, HeapEntry>, s: Seq<char>) -> bool {
    exists|k: DefaultKey| string_at(h, k, s)
}

/// Whether no two keys hold the same string.
pub open spec fn strings_distinct(h: Map<DefaultKey, HeapEntry>) -> bool {
    forall|k1: DefaultKey, k2: DefaultKey, s: Seq<char>|
        #[trigger] string_at(h, k1, s) && #[trigger] string_at(h, k2, s) ==> k1 == k2
}

/// No key names two fields of one object.
pub open spec fn keys_unique(props: Seq<(StringIndex, Value)>) -> bool {
    forall|i: int, j: int| 0 <= i < j < props.len() ==> props[i].0 != props[j].0
}

/// Every object on the heap has each key at most once.
pub open spec fn objects_keyed(h: Map<DefaultKey, HeapEntry>) -> bool {
    forall|k: DefaultKey|
        #[trigger] h.dom().contains(k) && h[k] is Object ==> keys_unique(h[k]->Object_0.properties@)
}

/// The heap of the virtual machine and its collection bookkeeping.
pub struct MemoryManager {
    heap: HeapSlots,
    allocated_bytes: usize,
    gc_threshold: usize,
    external_roots: Vec<Vec<Value>>,
    external_upvalue_roots: Vec<Vec<UpvalueIndex>>,
}

/// The first collection threshold: one mebibyte.
pub const INITIAL_THRESHOLD: usize = 1048576;

impl MemoryManager {
    /// The entries of the heap, by key.
    pub closed spec fn heap_view(&self) -> Map<DefaultKey, HeapEntry> {
        heap_contents(self.heap)
    }

    /// The bytes the entries take, as counted.
    pub closed spec fn bytes(&self) -> nat {
        self.allocated_bytes as nat
    }

    /// The byte count at which a collection is due.
    pub closed spec fn threshold(&self) -> nat {
        self.gc_threshold as nat
    }

    /// The sets of values pushed as extra roots, oldest first.
    pub closed spec fn external_roots_view(&self) -> Seq<Seq<Value>> {
        self.external_roots@.map_values(|v: Vec<Value>| v@)
    }

    /// The sets of upvalues pushed as extra roots, oldest first.
    pub closed spec fn external_upvalue_roots_view(&self) -> Seq<Seq<UpvalueIndex>> {
        self.external_upvalue_roots@.map_values(|v: Vec<UpvalueIndex>| v@)
    }

    /// The heap is finite, its byte count is the sum of its entries' sizes,
    /// no string is held twice, and no object holds a key twice.
    pub open spec fn wf(&self) -> bool {
        &&& self.heap_view().dom().finite()
        &&& self.bytes() == size_sum(self.heap_view())
        &&& strings_distinct(self.heap_view())
        &&& objects_keyed(self.heap_view())
    }

    /// An empty heap with a threshold of one mebibyte.
    pub fn new() -> (r: Self)
        ensures
            r.wf(),
            r.heap_view() == empty_heap(),
            r.bytes() == 0,
            r.threshold() == INITIAL_THRESHOLD,
            r.external_roots_view() == Seq::<Seq<Value>>::empty(),
            r.external_upvalue_roots_view() == Seq::<Seq<UpvalueIndex>>::empty(),
    {
        let heap = heap_new();
        proof {
            lemma_size_sum_empty();
        }
        let r = MemoryManager {
            heap,
            allocated_bytes: 0,
            gc_threshold: INITIAL_THRESHOLD,
            external_roots: Vec::new(),
            external_upvalue_roots: Vec::new(),
        };
        assert(r.external_roots_view() =~= Seq::<Seq<Value>>::empty());
        assert(r.external_upvalue_roots_view() =~= Seq::<Seq<UpvalueIndex>>::empty());
        r
    }

    /// Adds a set of values and a set of upvalues that collections keep
    /// alive until they are popped.
    pub fn push_external_roots(&mut self, roots: Vec<Value>, upvalues: Vec<UpvalueIndex>)
        ensures
            final(self).heap_view() == old(self).heap_view(),
            final(self).bytes() == old(self).bytes(),
            final(self).threshold() == old(self).threshold(),
            final(self).external_roots_view() == old(self).external_roots_view().push(roots@),
            final(self).external_upvalue_roots_view() == old(self).external_upvalue_roots_view().push(upvalues@),
    {
        self.external_roots.push(roots);
        self.external_upvalue_roots.push(upvalues);
        assert(self.external_roots_view() =~= old(self).external_roots_view().push(roots@));
        assert(self.external_upvalue_roots_view() =~= old(self).external_upvalue_roots_view().push(upvalues@));
    }

    /// Drops the last sets of extra roots, if any.
    pub fn pop_external_roots(&mut self)
        ensures
            final(self).heap_view() == old(self).heap_view(),
            final(self).bytes() == old(self).bytes(),
            final(self).threshold() == old(self).threshold(),
            final(self).external_roots_view() == if old(self).external_roots_view().len() == 0 {
                old(self).external_roots_view()
            } else {
                old(self).external_roots_view().drop_last()
            },
            final(self).external_upvalue_roots_view() == if old(self).external_upvalue_roots_view().len() == 0 {
                old(self).external_upvalue_roots_view()
            } else {
                old(self).external_upvalue_roots_view().drop_last()
            },
    {
        self.external_roots.pop();
        self.external_upvalue_roots.pop();
        assert(self.external_roots_view() =~= if old(self).external_roots_view().len() == 0 {
            old(self).external_roots_view()
        } else {
            old(self).external_roots_view().drop_last()
        });
        assert(self.external_upvalue_roots_view() =~= if old(self).external_upvalue_roots_view().len() == 0 {
            old(self).external_upvalue_roots_view()
        } else {
            old(self).external_upvalue_roots_view().drop_last()
        });
    }

    /// Whether the bytes have reached the collection threshold.
    pub fn should_collect(&self) -> (r: bool)
        ensures
            r == (self.bytes() >= self.threshold()),
    {
        self.allocated_bytes >= self.gc_threshold
    }

    /// The byte count, the threshold and the number of interned strings.
    pub fn stats(&self) -> (r: (usize, usize, usize))
        requires
            self.wf(),
        ensures
            r.0 == self.bytes(),
            r.1 == self.threshold(),
            r.2 == string_keys(self.heap_view()).len(),
    {
        let keys = heap_keys(&self.heap);
        let ghost h = self.heap_view();
        let mut found: Vec<DefaultKey> = Vec::new();
        let mut i: usize = 0;
        while i < keys.len()
            invariant
                i <= keys@.len(),
                h == self.heap_view(),
                keys@.no_duplicates(),
                forall|k: DefaultKey| #[trigger] keys@.contains(k) <==> h.dom().contains(k),
                found@.no_duplicates(),
                found@.len() <= i,
                forall|k: DefaultKey|
                    #[trigger] found@.contains(k) <==> (keys@.take(i as int).contains(k) && h[k] is String),
            decreases keys@.len() - i,
        {
            let k = keys[i];
            let ghost t = keys@.take(i + 1);
            proof {
                assert forall|x: DefaultKey| #[trigger] t.contains(x) <==> (keys@.take(
                    i as int,
                ).contains(x) || x == k) by {
                    if t.contains(x) {
                        let j = t.index_of(x);
                        if j < i {
                            assert(keys@.take(i as int)[j] == x);
                        }
                    }
                    if keys@.take(i as int).contains(x) {
                        let j = keys@.take(i as int).index_of(x);
                        assert(t[j] == x);
                    }
                    if x == k {
                        assert(t[i as int] == x);
                    }
                }
                assert(!keys@.take(i as int).contains(k)) by {
                    if keys@.take(i as int).contains(k) {
                        let j = keys@.take(i as int).index_of(k);
                        assert(keys@[j] == keys@[i as int]);
                    }
                }
                assert(keys@.contains(k));
            }
            match heap_get(&self.heap, k) {
                Some(HeapEntry::String(_)) => {
                    let ghost before = found@;
                    found.push(k);
                    proof {
                        lemma_push_no_dup(before, k);
                        assert forall|x: DefaultKey| #[trigger] found@.contains(x) <==> (
                        before.contains(x) || x == k) by {
                            if found@.contains(x) {
                                let j = found@.index_of(x);
                                if j < before.len() {
                                    assert(before[j] == x);
                                }
                            }
                            if before.contains(x) {
                                let j = before.index_of(x);
                                assert(found@[j] == x);
                            }
                            if x == k {
                                assert(found@[before.len() as int] == x);
                            }
                        }
                    }
                },
                _ => {},
            }
            i += 1;
        }
        proof {
            assert(keys@.take(keys@.len() as int) =~= keys@);
            found@.unique_seq_to_set();
            assert(found@.to_set() =~= string_keys(h));
        }
        (self.allocated_bytes, self.gc_threshold, found.len())
    }

    /// The size of the entry under `k`, which the heap holds.
    pub fn size_of_entry(&self, k: DefaultKey) -> (r: usize)
        requires
            self.wf(),
            self.heap_view().dom().contains(k),
        ensures
            r == entry_size(self.heap_view()[k]),
    {
        proof {
            lemma_size_sum_remove(self.heap_view(), k);
        }
        match heap_get(&self.heap, k) {
            Some(e) => entry_size_of(e),
            None => 0,
        }
    }

    /// Stores a new entry and counts its bytes.
    fn store(&mut self, e: HeapEntry) -> (r: AllocationResult<DefaultKey>)
        requires
            old(self).wf(),
            old(self).bytes() + entry_size(e) <= usize::MAX,
            old(self).heap_view().dom().len() + 2 < u32::MAX,
            e is String ==> !is_interned(old(self).heap_view(), e->String_0.content@),
            e is Object ==> keys_unique(e->Object_0.properties@),
        ensures
            final(self).wf(),
            !old(self).heap_view().dom().contains(r.index),
            final(self).heap_view() == old(self).heap_view().insert(r.index, e),
            final(self).bytes() == old(self).bytes() + entry_size(e),
            final(self).threshold() == old(self).threshold(),
            final(self).external_roots_view() == old(self).external_roots_view(),
            final(self).external_upvalue_roots_view() == old(self).external_upvalue_roots_view(),
            r.should_garbage_collect == (final(self).bytes() >= final(self).threshold()),
    {
        let size = entry_size_of(&e);
        let ghost h0 = self.heap_view();
        let ghost e0 = e;
        let k = heap_insert(&mut self.heap, e);
        self.allocated_bytes = self.allocated_bytes + size;
        proof {
            lemma_size_sum_insert(h0, k, e0);
            let h = self.heap_view();
            assert forall|k1: DefaultKey, k2: DefaultKey, s: Seq<char>|
                #[trigger] string_at(h, k1, s) && #[trigger] string_at(h, k2, s) implies k1 == k2 by {
                if k1 != k2 {
                    if k1 == k {
                        assert(string_at(h0, k2, s));
                    } else if k2 == k {
                        assert(string_at(h0, k1, s));
                    } else {
                        assert(string_at(h0, k1, s) && string_at(h0, k2, s));
                    }
                }
            }
        }
        AllocationResult { should_garbage_collect: self.allocated_bytes >= self.gc_threshold, index: k }
    }

    /// The key of the string `content`, storing it when the heap does not
    /// hold it yet.
    pub fn allocate_string(&mut self, content: &str) -> (r: AllocationResult<StringIndex>)
        requires
            old(self).wf(),
            old(self).bytes() + 32 + utf8_len(content@) <= usize::MAX,
            old(self).heap_view().dom().len() + 2 < u32::MAX,
        ensures
            final(self).wf(),
            string_at(final(self).heap_view(), r.index, content@),
            final(self).threshold() == old(self).threshold(),
            final(self).external_roots_view() == old(self).external_roots_view(),
            final(self).external_upvalue_roots_view() == old(self).external_upvalue_roots_view(),
            is_interned(old(self).heap_view(), content@) ==> {
                &&& string_at(old(self).heap_view(), r.index, content@)
                &&& final(self).heap_view() == old(self).heap_view()
                &&& final(self).bytes() == old(self).bytes()
                &&& !r.should_garbage_collect
            },
            !is_interned(old(self).heap_view(), content@) ==> {
                &&& !old(self).heap_view().dom().contains(r.index)
                &&& final(self).heap_view().dom() == old(self).heap_view().dom().insert(r.index)
                &&& forall|k: DefaultKey|
                    k != r.index ==> #[trigger] final(self).heap_view()[k] == old(self).heap_view()[k]
                &&& final(self).bytes() == old(self).bytes() + 32 + utf8_len(content@)
                &&& r.should_garbage_collect == (final(self).bytes() >= final(self).threshold())
            },
    {
        let keys = heap_keys(&self.heap);
        let owned = String::from_str(content);
        let mut i: usize = 0;
        while i < keys.len()
            invariant
                i <= keys@.len(),
                self.wf(),
                owned@ == content@,
                forall|k: DefaultKey| #[trigger] keys@.contains(k) <==> self.heap_view().dom().contains(k),
                forall|j: int| 0 <= j < i ==> !string_at(self.heap_view(), #[trigger] keys@[j], content@),
            decreases keys@.len() - i,
        {
            match heap_get(&self.heap, keys[i]) {
                Some(HeapEntry::String(ms)) => {
                    if ms.content == owned {
                        proof {
                            assert(keys@.contains(keys@[i as int]));
                            assert(string_at(self.heap_view(), keys@[i as int], content@));
                        }
                        return AllocationResult { should_garbage_collect: false, index: keys[i] };
                    }
                },
                _ => {},
            }
            proof {
                assert(keys@.contains(keys@[i as int]));
            }
            i += 1;
        }
        proof {
            if is_interned(self.heap_view(), content@) {
                let k = choose|k: DefaultKey| string_at(self.heap_view(), k, content@);
                assert(keys@.contains(k));
                let j = keys@.index_of(k);
                assert(!string_at(self.heap_view(), keys@[j], content@));
            }
        }
        let ms = ManagedString::new(owned);
        let r = self.store(HeapEntry::String(ms));
        r
    }

    /// Stores an object with the given fields.
    pub fn allocate_object_with_properties(&mut self, properties: Vec<(StringIndex, Value)>) -> (r:
        AllocationResult<ObjectIndex>)
        requires
            old(self).wf(),
            old(self).bytes() + 48 + 24 * properties@.len() <= usize::MAX,
            old(self).heap_view().dom().len() + 2 < u32::MAX,
            keys_unique(properties@),
        ensures
            final(self).wf(),
            !old(self).heap_view().dom().contains(r.index),
            final(self).heap_view().dom() == old(self).heap_view().dom().insert(r.index),
            forall|k: DefaultKey|
                k != r.index ==> #[trigger] final(self).heap_view()[k] == old(self).heap_view()[k],
            final(self).heap_view()[r.index] is Object,
            final(self).heap_view()[r.index]->Object_0.properties@ == properties@,
            final(self).bytes() == old(self).bytes() + 48 + 24 * properties@.len(),
            final(self).threshold() == old(self).threshold(),
            final(self).external_roots_view() == old(self).external_roots_view(),
            final(self).external_upvalue_roots_view() == old(self).external_upvalue_roots_view(),
            r.should_garbage_collect == (final(self).bytes() >= final(self).threshold()),
    {
        let obj = ManagedObject::with_properties(properties);
        self.store(HeapEntry::Object(obj))
    }

    /// Stores an object without fields.
    pub fn allocate_object(&mut self) -> (r: AllocationResult<ObjectIndex>)
        requires
            old(self).wf(),
            old(self).bytes() + 48 <= usize::MAX,
            old(self).heap_view().dom().len() + 2 < u32::MAX,
        ensures
            final(self).wf(),
            !old(self).heap_view().dom().contains(r.index),
            final(self).heap_view().dom() == old(self).heap_view().dom().insert(r.index),
            forall|k: DefaultKey|
                k != r.index ==> #[trigger] final(self).heap_view()[k] == old(self).heap_view()[k],
            final(self).heap_view()[r.index] is Object,
            final(self).heap_view()[r.index]->Object_0.properties@.len() == 0,
            final(self).bytes() == old(self).bytes() + 48,
            final(self).threshold() == old(self).threshold(),
            final(self).external_roots_view() == old(self).external_roots_view(),
            final(self).external_upvalue_roots_view() == old(self).external_upvalue_roots_view(),
            r.should_garbage_collect == (final(self).bytes() >= final(self).threshold()),
    {
        let obj = ManagedObject::new();
        self.store(HeapEntry::Object(obj))
    }

    /// Stores an array with the given elements.
    pub fn allocate_array(&mut self, elements: Vec<Value>) -> (r: AllocationResult<ArrayIndex>)
        requires
            old(self).wf(),
            old(self).bytes() + 32 + 16 * elements@.len() <= usize::MAX,
            old(self).heap_view().dom().len() + 2 < u32::MAX,
        ensures
            final(self).wf(),
            !old(self).heap_view().dom().contains(r.index),
            final(self).heap_view().dom() == old(self).heap_view().dom().insert(r.index),
            forall|k: DefaultKey|
                k != r.index ==> #[trigger] final(self).heap_view()[k] == old(self).heap_view()[k],
            final(self).heap_view()[r.index] is Array,
            final(self).heap_view()[r.index]->Array_0.elements@ == elements@,
            final(self).bytes() == old(self).bytes() + 32 + 16 * elements@.len(),
            final(self).threshold() == old(self).threshold(),
            final(self).external_roots_view() == old(self).external_roots_view(),
            final(self).external_upvalue_roots_view() == old(self).external_upvalue_roots_view(),
            r.should_garbage_collect == (final(self).bytes() >= final(self).threshold()),
    {
        let arr = ManagedArray::new(elements);
        self.store(HeapEntry::Array(arr))
    }

    /// Stores a compiled function.
    pub fn allocate_function(
        &mut self,
        name: Option<StringIndex>,
        arity: u8,
        upvalue_count: u8,
        chunk: OwnedChunk,
    ) -> (r: AllocationResult<FunctionIndex>)
        requires
            old(self).wf(),
            old(self).bytes() + 64 + chunk.code@.len() + 16 * chunk.constants@.len() <= usize::MAX,
            old(self).heap_view().dom().len() + 2 < u32::MAX,
        ensures
            final(self).wf(),
            !old(self).heap_view().dom().contains(r.index),
            final(self).heap_view().dom() == old(self).heap_view().dom().insert(r.index),
            forall|k: DefaultKey|
                k != r.index ==> #[trigger] final(self).heap_view()[k] == old(self).heap_view()[k],
            final(self).heap_view()[r.index] is Function,
            final(self).heap_view()[r.index]->Function_0.name == name,
            final(self).heap_view()[r.index]->Function_0.arity == arity,
            final(self).heap_view()[r.index]->Function_0.upvalue_count == upvalue_count,
            final(self).heap_view()[r.index]->Function_0.chunk == chunk,
            final(self).bytes() == old(self).bytes() + 64 + chunk.code@.len() + 16
                * chunk.constants@.len(),
            final(self).threshold() == old(self).threshold(),
            final(self).external_roots_view() == old(self).external_roots_view(),
            final(self).external_upvalue_roots_view() == old(self).external_upvalue_roots_view(),
            r.should_garbage_collect == (final(self).bytes() >= final(self).threshold()),
    {
        let f = ManagedFunction::new(name, arity, upvalue_count, chunk);
        self.store(HeapEntry::Function(f))
    }

    /// Stores a closure over a function and its captured upvalues.
    pub fn allocate_closure(&mut self, function: FunctionIndex, upvalues: Vec<UpvalueIndex>) -> (r:
        AllocationResult<ClosureIndex>)
        requires
            old(self).wf(),
            old(self).bytes() + 40 + 8 * upvalues@.len() <= usize::MAX,
            old(self).heap_view().dom().len() + 2 < u32::MAX,
        ensures
            final(self).wf(),
            !old(self).heap_view().dom().contains(r.index),
            final(self).heap_view().dom() == old(self).heap_view().dom().insert(r.index),
            forall|k: DefaultKey|
                k != r.index ==> #[trigger] final(self).heap_view()[k] == old(self).heap_view()[k],
            final(self).heap_view()[r.index] is Closure,
            final(self).heap_view()[r.index]->Closure_0.function == function,
            final(self).heap_view()[r.index]->Closure_0.upvalues@ == upvalues@,
            final(self).bytes() == old(self).bytes() + 40 + 8 * upvalues@.len(),
            final(self).threshold() == old(self).threshold(),
            final(self).external_roots_view() == old(self).external_roots_view(),
            final(self).external_upvalue_roots_view() == old(self).external_upvalue_roots_view(),
            r.should_garbage_collect == (final(self).bytes() >= final(self).threshold()),
    {
        let c = ManagedClosure::new(function, upvalues);
        self.store(HeapEntry::Closure(c))
    }

    /// Stores an open upvalue for a stack slot.
    pub fn allocate_upvalue(&mut self, stack_location: usize) -> (r: AllocationResult<UpvalueIndex>)
        requires
            old(self).wf(),
            old(self).bytes() + 48 <= usize::MAX,
            old(self).heap_view().dom().len() + 2 < u32::MAX,
        ensures
            final(self).wf(),
            !old(self).heap_view().dom().contains(r.index),
            final(self).heap_view().dom() == old(self).heap_view().dom().insert(r.index),
            forall|k: DefaultKey|
                k != r.index ==> #[trigger] final(self).heap_view()[k] == old(self).heap_view()[k],
            final(self).heap_view()[r.index] is Upvalue,
            final(self).heap_view()[r.index]->Upvalue_0.stack_location == Some(stack_location),
            final(self).heap_view()[r.index]->Upvalue_0.closed_value is None,
            final(self).bytes() == old(self).bytes() + 48,
            final(self).threshold() == old(self).threshold(),
            final(self).external_roots_view() == old(self).external_roots_view(),
            final(self).external_upvalue_roots_view() == old(self).external_upvalue_roots_view(),
            r.should_garbage_collect == (final(self).bytes() >= final(self).threshold()),
    {
        let u = ManagedUpvalue::new_open(stack_location);
        self.store(HeapEntry::Upvalue(u))
    }
}

/// The size of an entry.
fn entry_size_of(e: &HeapEntry) -> (r: usize)
    requires
        entry_size(*e) <= usize::MAX,
    ensures
        r == entry_size(*e),
{
    match e {
        HeapEntry::String(s) => s.size(),
        HeapEntry::Object(o) => 48 + 24 * o.properties.len(),
        HeapEntry::Array(a) => 32 + 16 * a.elements.len(),
        HeapEntry::Function(f) => 64 + f.chunk.code.len() + 16 * f.chunk.constants.len(),
        HeapEntry::Closure(c) => 40 + 8 * c.upvalues.len(),
        HeapEntry::Upvalue(_) => 48,
        HeapEntry::Import(_) => 48,
        HeapEntry::Binary(b) => 32 + b.data.len(),
    }
}

/// The keys reachable from `roots` in at most `n` steps, a step going from
/// an entry of the heap to a key it refers to.
pub open spec fn reach_within(h: Map<DefaultKey, HeapEntry>, roots: Set<DefaultKey>, n: nat) -> Set<
    DefaultKey,
>
    decreases n,
{
    if n == 0 {
        roots
    } else {
        let prev = reach_within(h, roots, (n - 1) as nat);
        prev.union(
            Set::new(
                |c: DefaultKey|
                    exists|p: DefaultKey|
                        prev.contains(p) && h.dom().contains(p) && #[trigger] children(
                            h[p],
                        ).contains(c),
            ),
        )
    }
}

/// The keys reachable from `roots`.
pub open spec fn reachable(h: Map<DefaultKey, HeapEntry>, roots: Set<DefaultKey>) -> Set<
    DefaultKey,
> {
    Set::new(|k: DefaultKey| exists|n: nat| #[trigger] reach_within(h, roots, n).contains(k))
}

/// The keys a collection starts from: those of the root values, the open
/// upvalues, and the extra roots pushed so far.
pub open spec fn root_keys(
    roots: Seq<Value>,
    upvalue_roots: Seq<UpvalueIndex>,
    extra: Seq<Seq<Value>>,
    extra_upvalues: Seq<Seq<UpvalueIndex>>,
) -> Set<DefaultKey> {
    Set::new(
        |k: DefaultKey|
            keys_of_values(roots).contains(k) || upvalue_roots.contains(k) || (exists|i: int|
                0 <= i < extra.len() && #[trigger] keys_of_values(extra[i]).contains(k)) || (
            exists|i: int| 0 <= i < extra_upvalues.len() && #[trigger] extra_upvalues[i].contains(k)),
    )
}

proof fn lemma_reach_step(
    h: Map<DefaultKey, HeapEntry>,
    roots: Set<DefaultKey>,
    p: DefaultKey,
    c: DefaultKey,
)
    requires
        reachable(h, roots).contains(p),
        h.dom().contains(p),
        children(h[p]).contains(c),
    ensures
        reachable(h, roots).contains(c),
{
    let n = choose|n: nat| #[trigger] reach_within(h, roots, n).contains(p);
    assert(reach_within(h, roots, n + 1).contains(c));
}

proof fn lemma_roots_reachable(h: Map<DefaultKey, HeapEntry>, roots: Set<DefaultKey>, k: DefaultKey)
    requires
        roots.contains(k),
    ensures
        reachable(h, roots).contains(k),
{
    assert(reach_within(h, roots, 0).contains(k));
}

/// A set of keys that holds the roots of the heap and, with each entry, the
/// keys that entry refers to, holds every reachable key of the heap.
proof fn lemma_closed_holds_reachable(
    h: Map<DefaultKey, HeapEntry>,
    roots: Set<DefaultKey>,
    marked: Set<DefaultKey>,
    n: nat,
)
    requires
        forall|k: DefaultKey| #[trigger] roots.contains(k) && h.dom().contains(k) ==> marked.contains(k),
        forall|m: DefaultKey, c: DefaultKey|
            #[trigger] marked.contains(m) && #[trigger] children(h[m]).contains(c) && h.dom().contains(c)
                ==> marked.contains(c),
        forall|m: DefaultKey| #[trigger] marked.contains(m) ==> h.dom().contains(m),
    ensures
        forall|k: DefaultKey|
            #[trigger] reach_within(h, roots, n).contains(k) && h.dom().contains(k) ==> marked.contains(k),
    decreases n,
{
    if n > 0 {
        lemma_closed_holds_reachable(h, roots, marked, (n - 1) as nat);
        let prev = reach_within(h, roots, (n - 1) as nat);
        assert forall|k: DefaultKey|
            #[trigger] reach_within(h, roots, n).contains(k) && h.dom().contains(k) implies marked.contains(k) by {
            if !prev.contains(k) {
                let p = choose|p: DefaultKey|
                    prev.contains(p) && h.dom().contains(p) && #[trigger] children(h[p]).contains(k);
                assert(marked.contains(p));
            }
        }
    }
}

/// Appends the keys the values refer to.
fn push_value_keys(pending: &mut Vec<DefaultKey>, vs: &Vec<Value>)
    ensures
        final(pending)@ == old(pending)@ + keys_of_values(vs@),
{
    let mut i: usize = 0;
    while i < vs.len()
        invariant
            i <= vs@.len(),
            pending@ == old(pending)@ + keys_of_values(vs@.take(i as int)),
        decreases vs@.len() - i,
    {
        assert(vs@.take(i + 1).drop_last() =~= vs@.take(i as int));
        match vs[i] {
            Value::String(k) => pending.push(k),
            Value::Object(k) => pending.push(k),
            Value::Array(k) => pending.push(k),
            Value::Function(k) => pending.push(k),
            Value::Closure(k) => pending.push(k),
            Value::Import(k) => pending.push(k),
            _ => {},
        }
        assert(pending@ =~= old(pending)@ + keys_of_values(vs@.take(i + 1)));
        i += 1;
    }
    assert(vs@.take(vs@.len() as int) =~= vs@);
}

/// Appends the key a value refers to, if any.
fn push_value_key(pending: &mut Vec<DefaultKey>, v: &Option<Value>)
    ensures
        final(pending)@ == old(pending)@ + match *v {
            Some(v) => opt_keys(value_key(v)),
            None => Seq::empty(),
        },
{
    match v {
        Some(Value::String(k)) => pending.push(*k),
        Some(Value::Object(k)) => pending.push(*k),
        Some(Value::Array(k)) => pending.push(*k),
        Some(Value::Function(k)) => pending.push(*k),
        Some(Value::Closure(k)) => pending.push(*k),
        Some(Value::Import(k)) => pending.push(*k),
        _ => {},
    }
    assert(final(pending)@ =~= old(pending)@ + match *v {
        Some(v) => opt_keys(value_key(v)),
        None => Seq::empty(),
    });
}

/// Appends keys.
fn push_keys(pending: &mut Vec<DefaultKey>, ks: &Vec<DefaultKey>)
    ensures
        final(pending)@ == old(pending)@ + ks@,
{
    let mut i: usize = 0;
    while i < ks.len()
        invariant
            i <= ks@.len(),
            pending@ == old(pending)@ + ks@.take(i as int),
        decreases ks@.len() - i,
    {
        pending.push(ks[i]);
        assert(pending@ =~= old(pending)@ + ks@.take(i + 1));
        i += 1;
    }
    assert(ks@.take(ks@.len() as int) =~= ks@);
}

/// Appends the keys an entry refers to.
fn push_children(pending: &mut Vec<DefaultKey>, e: &HeapEntry)
    ensures
        final(pending)@ == old(pending)@ + children(*e),
{
    match e {
        HeapEntry::String(_) => {
            assert(pending@ =~= old(pending)@ + children(*e));
        },
        HeapEntry::Object(o) => {
            let mut i: usize = 0;
            while i < o.properties.len()
                invariant
                    i <= o.properties@.len(),
                    pending@ == old(pending)@ + keys_of_properties(o.properties@.take(i as int)),
                decreases o.properties@.len() - i,
            {
                assert(o.properties@.take(i + 1).drop_last() =~= o.properties@.take(i as int));
                pending.push(o.properties[i].0);
                let v = Some(o.properties[i].1);
                push_value_key(pending, &v);
                assert(pending@ =~= old(pending)@ + keys_of_properties(o.properties@.take(i + 1)));
                i += 1;
            }
            assert(o.properties@.take(o.properties@.len() as int) =~= o.properties@);
        },
        HeapEntry::Array(a) => {
            push_value_keys(pending, &a.elements);
        },
        HeapEntry::Function(f) => {
            match f.name {
                Some(k) => pending.push(k),
                None => {},
            }
            push_value_keys(pending, &f.chunk.constants);
            assert(pending@ =~= old(pending)@ + children(*e));
        },
        HeapEntry::Closure(c) => {
            pending.push(c.function);
            push_keys(pending, &c.upvalues);
            assert(pending@ =~= old(pending)@ + children(*e));
        },
        HeapEntry::Upvalue(u) => {
            push_value_key(pending, &u.closed_value);
        },
        HeapEntry::Import(i) => {
            pending.push(i.path);
            push_value_key(pending, &i.cached_result);
            assert(pending@ =~= old(pending)@ + children(*e));
        },
        HeapEntry::Binary(_) => {
            assert(pending@ =~= old(pending)@ + children(*e));
        },
    }
}

impl MemoryManager {
    /// The keys of the heap reachable from `pending`.
    fn mark(&self, pending: Vec<DefaultKey>) -> (marked: Vec<DefaultKey>)
        requires
            self.wf(),
        ensures
            marked@.no_duplicates(),
            forall|k: DefaultKey|
                #[trigger] marked@.contains(k) <==> (self.heap_view().dom().contains(k) && reachable(
                    self.heap_view(),
                    pending@.to_set(),
                ).contains(k)),
    {
        let ghost h = self.heap_view();
        let ghost roots = pending@.to_set();
        let mut pending = pending;
        let mut marked: Vec<DefaultKey> = Vec::new();
        proof {
            assert forall|i: int| 0 <= i < pending@.len() implies reachable(h, roots).contains(
                #[trigger] pending@[i],
            ) by {
                assert(roots.contains(pending@[i]));
                lemma_roots_reachable(h, roots, pending@[i]);
            }
        }
        while pending.len() > 0
            invariant
                self.wf(),
                h == self.heap_view(),
                h.dom().finite(),
                marked@.no_duplicates(),
                forall|k: DefaultKey| #[trigger] marked@.contains(k) ==> h.dom().contains(k),
                forall|k: DefaultKey| #[trigger] marked@.contains(k) ==> reachable(h, roots).contains(k),
                forall|i: int| 0 <= i < pending@.len() ==> reachable(h, roots).contains(#[trigger] pending@[i]),
                forall|k: DefaultKey|
                    #[trigger] roots.contains(k) ==> marked@.contains(k) || pending@.contains(k)
                        || !h.dom().contains(k),
                forall|m: DefaultKey, c: DefaultKey|
                    #[trigger] marked@.contains(m) && #[trigger] children(h[m]).contains(c) ==> marked@.contains(c)
                        || pending@.contains(c) || !h.dom().contains(c),
            decreases h.dom().len() - marked@.len(), pending@.len(),
        {
            proof {
                lemma_marked_bound(h, marked@);
            }
            let ghost pre = pending@;
            let k = pending.pop().unwrap();
            let ghost popped = pending@;
            proof {
                assert(pre =~= popped.push(k));
                assert forall|c: DefaultKey| #[trigger] pre.contains(c) implies (popped.contains(c)
                    || c == k) by {
                    let j = pre.index_of(c);
                    if j < popped.len() {
                        assert(popped[j] == c);
                    }
                }
            }
            let ghost before = marked@;
            if contains_key(&marked, k) {
                assert(marked@.contains(k));
            } else {
                match heap_get(&self.heap, k) {
                    Some(e) => {
                        marked.push(k);
                        push_children(&mut pending, e);
                        proof {
                            assert(reachable(h, roots).contains(k));
                            assert forall|i: int| 0 <= i < pending@.len() implies reachable(
                                h,
                                roots,
                            ).contains(#[trigger] pending@[i]) by {
                                if i >= popped.len() {
                                    assert(children(h[k]).contains(pending@[i]));
                                    lemma_reach_step(h, roots, k, pending@[i]);
                                } else {
                                    assert(pending@[i] == popped[i]);
                                }
                            }
                            assert forall|c: DefaultKey| #[trigger] marked@.contains(c) implies (
                            before.contains(c) || c == k) by {
                                let j = marked@.index_of(c);
                                if j < before.len() {
                                    assert(before[j] == c);
                                }
                            }
                            assert forall|c: DefaultKey| #[trigger] before.contains(c) implies marked@.contains(c) by {
                                let j = before.index_of(c);
                                assert(marked@[j] == c);
                            }
                            lemma_push_no_dup(before, k);
                            assert(marked@[marked@.len() - 1] == k);
                            lemma_marked_bound(h, marked@);
                        }
                    },
                    None => {
                        assert(!h.dom().contains(k));
                    },
                }
            }
            proof {
                assert forall|c: DefaultKey| #[trigger] popped.contains(c) implies pending@.contains(c) by {
                    let j = popped.index_of(c);
                    assert(pending@[j] == c);
                }
                assert forall|c: DefaultKey| #[trigger] before.contains(c) implies marked@.contains(c) by {
                    let j = before.index_of(c);
                    assert(marked@[j] == c);
                }
                assert(marked@.contains(k) || !h.dom().contains(k));
                if marked@.len() > before.len() {
                    assert forall|c: DefaultKey| #[trigger] children(h[k]).contains(c) implies pending@.contains(c) by {
                        let j = children(h[k]).index_of(c);
                        assert(pending@[popped.len() + j] == c);
                    }
                }
                assert forall|x: DefaultKey| #[trigger] roots.contains(x) implies marked@.contains(x)
                    || pending@.contains(x) || !h.dom().contains(x) by {
                    if before.contains(x) {
                    } else if pre.contains(x) {
                        if popped.contains(x) {
                        }
                    }
                }
                assert forall|m: DefaultKey, c: DefaultKey|
                    #[trigger] marked@.contains(m) && #[trigger] children(h[m]).contains(c) implies marked@.contains(c)
                        || pending@.contains(c) || !h.dom().contains(c) by {
                    if before.contains(m) {
                        if before.contains(c) {
                        } else if pre.contains(c) {
                            if popped.contains(c) {
                            }
                        }
                    }
                }
            }
        }
        proof {
            let ms = marked@.to_set();
            assert forall|m: DefaultKey, c: DefaultKey|
                #[trigger] ms.contains(m) && #[trigger] children(h[m]).contains(c) && h.dom().contains(c) implies ms.contains(c) by {
                assert(marked@.contains(m));
            }
            assert forall|k: DefaultKey| #[trigger] reachable(h, roots).contains(k) && h.dom().contains(k) implies marked@.contains(k) by {
                let n = choose|n: nat| #[trigger] reach_within(h, roots, n).contains(k);
                lemma_closed_holds_reachable(h, roots, ms, n);
            }
        }
        marked
    }
}

proof fn lemma_marked_bound(h: Map<DefaultKey, HeapEntry>, marked: Seq<DefaultKey>)
    requires
        h.dom().finite(),
        marked.no_duplicates(),
        forall|k: DefaultKey| #[trigger] marked.contains(k) ==> h.dom().contains(k),
    ensures
        marked.len() <= h.dom().len(),
{
    marked.unique_seq_to_set();
    lemma_len_subset(marked.to_set(), h.dom());
}

proof fn lemma_push_no_dup(s: Seq<DefaultKey>, k: DefaultKey)
    requires
        s.no_duplicates(),
        !s.contains(k),
    ensures
        s.push(k).no_duplicates(),
{
    assert forall|i: int, j: int| 0 <= i < j < s.push(k).len() implies s.push(k)[i] != s.push(k)[j] by {
        if j == s.len() {
            assert(s.contains(s[i]));
        }
    }
}

proof fn lemma_concat_contains(a: Seq<DefaultKey>, b: Seq<DefaultKey>)
    ensures
        forall|k: DefaultKey| #[trigger] (a + b).contains(k) <==> (a.contains(k) || b.contains(k)),
{
    assert forall|k: DefaultKey| #[trigger] (a + b).contains(k) implies (a.contains(k) || b.contains(
        k,
    )) by {
        let j = (a + b).index_of(k);
        if j < a.len() {
            assert(a[j] == k);
        } else {
            assert(b[j - a.len()] == k);
        }
    }
    assert forall|k: DefaultKey| a.contains(k) || b.contains(k) implies #[trigger] (a + b).contains(
        k,
    ) by {
        if a.contains(k) {
            let j = a.index_of(k);
            assert((a + b)[j] == k);
        } else {
            let j = b.index_of(k);
            assert((a + b)[a.len() + j] == k);
        }
    }
}

/// The heap keys outside `removed` or in `kept`.
pub open spec fn sweep_keep(kept: Seq<DefaultKey>, removed: Seq<DefaultKey>) -> Set<DefaultKey> {
    Set::new(|k: DefaultKey| kept.contains(k) || !removed.contains(k))
}

impl MemoryManager {
    /// Removes every entry whose key is not in `marked`.
    fn sweep(&mut self, marked: &Vec<DefaultKey>)
        requires
            old(self).wf(),
        ensures
            final(self).wf(),
            final(self).heap_view() == old(self).heap_view().restrict(marked@.to_set()),
            final(self).bytes() <= old(self).bytes(),
            final(self).threshold() == old(self).threshold(),
            final(self).external_roots_view() == old(self).external_roots_view(),
            final(self).external_upvalue_roots_view() == old(self).external_upvalue_roots_view(),
    {
        let keys = heap_keys(&self.heap);
        let ghost h0 = self.heap_view();
        let mut i: usize = 0;
        proof {
            assert(h0.restrict(sweep_keep(marked@, keys@.take(0))) =~= h0);
        }
        while i < keys.len()
            invariant
                i <= keys@.len(),
                keys@.no_duplicates(),
                forall|k: DefaultKey| #[trigger] keys@.contains(k) <==> h0.dom().contains(k),
                h0.dom().finite(),
                self.wf(),
                self.heap_view() == h0.restrict(sweep_keep(marked@, keys@.take(i as int))),
                self.bytes() <= old(self).bytes(),
                self.threshold() == old(self).threshold(),
                self.external_roots_view() == old(self).external_roots_view(),
                self.external_upvalue_roots_view() == old(self).external_upvalue_roots_view(),
            decreases keys@.len() - i,
        {
            let k = keys[i];
            let ghost h1 = self.heap_view();
            proof {
                assert(keys@.contains(k));
                assert(!keys@.take(i as int).contains(k)) by {
                    if keys@.take(i as int).contains(k) {
                        let j = keys@.take(i as int).index_of(k);
                        assert(keys@[j] == keys@[i as int]);
                    }
                }
            }
            if !contains_key(marked, k) {
                proof {
                    assert(h1.dom().contains(k));
                    lemma_size_sum_remove(h1, k);
                }
                let size = self.size_of_entry(k);
                let _ = heap_remove(&mut self.heap, k);
                self.allocated_bytes = self.allocated_bytes - size;
                proof {
                    let h = self.heap_view();
                    assert(h == h1.remove(k));
                    assert forall|k1: DefaultKey, k2: DefaultKey, s: Seq<char>|
                        #[trigger] string_at(h, k1, s) && #[trigger] string_at(h, k2, s) implies k1
                        == k2 by {
                        assert(string_at(h1, k1, s) && string_at(h1, k2, s));
                    }
                }
            }
            proof {
                let ghost t = keys@.take(i + 1);
                assert forall|x: DefaultKey| #[trigger] t.contains(x) <==> (keys@.take(
                    i as int,
                ).contains(x) || x == k) by {
                    if t.contains(x) {
                        let j = t.index_of(x);
                        if j < i {
                            assert(keys@.take(i as int)[j] == x);
                        }
                    }
                    if keys@.take(i as int).contains(x) {
                        let j = keys@.take(i as int).index_of(x);
                        assert(t[j] == x);
                    }
                    if x == k {
                        assert(t[i as int] == x);
                    }
                }
                assert(self.heap_view() =~= h0.restrict(sweep_keep(marked@, t)));
            }
            i += 1;
        }
        proof {
            assert(keys@.take(keys@.len() as int) =~= keys@);
            assert(self.heap_view() =~= h0.restrict(marked@.to_set()));
        }
    }

    /// Collects the heap: marks every entry reachable from the roots, the
    /// open upvalues and the extra roots pushed so far, removes the rest,
    /// and sets the next threshold to twice the bytes that remain.
    pub fn run_garbage_collect(&mut self, roots: Vec<Value>, open_upvalue_roots: Vec<UpvalueIndex>)
        requires
            old(self).wf(),
            2 * size_sum(
                old(self).heap_view().restrict(
                    reachable(
                        old(self).heap_view(),
                        root_keys(
                            roots@,
                            open_upvalue_roots@,
                            old(self).external_roots_view(),
                            old(self).external_upvalue_roots_view(),
                        ),
                    ),
                ),
            ) <= usize::MAX,
        ensures
            final(self).wf(),
            final(self).heap_view() == old(self).heap_view().restrict(
                reachable(
                    old(self).heap_view(),
                    root_keys(
                        roots@,
                        open_upvalue_roots@,
                        old(self).external_roots_view(),
                        old(self).external_upvalue_roots_view(),
                    ),
                ),
            ),
            final(self).bytes() == size_sum(final(self).heap_view()),
            final(self).threshold() == 2 * final(self).bytes(),
            final(self).external_roots_view() == old(self).external_roots_view(),
            final(self).external_upvalue_roots_view() == old(self).external_upvalue_roots_view(),
    {
        let ghost ext = self.external_roots_view();
        let ghost ext_up = self.external_upvalue_roots_view();
        let ghost rk = root_keys(roots@, open_upvalue_roots@, ext, ext_up);
        let mut pending: Vec<DefaultKey> = Vec::new();
        push_value_keys(&mut pending, &roots);
        let ghost after_roots = pending@;
        push_keys(&mut pending, &open_upvalue_roots);
        proof {
            lemma_concat_contains(after_roots, open_upvalue_roots@);
            assert(after_roots =~= Seq::<DefaultKey>::empty() + keys_of_values(roots@));
        }
        let mut j: usize = 0;
        while j < self.external_roots.len()
            invariant
                j <= self.external_roots@.len(),
                ext == self.external_roots_view(),
                forall|k: DefaultKey|
                    #[trigger] pending@.contains(k) <==> (keys_of_values(roots@).contains(k)
                        || open_upvalue_roots@.contains(k) || exists|i: int|
                        0 <= i < j && #[trigger] keys_of_values(ext[i]).contains(k)),
            decreases self.external_roots@.len() - j,
        {
            let ghost before = pending@;
            push_value_keys(&mut pending, &self.external_roots[j]);
            proof {
                lemma_concat_contains(before, keys_of_values(ext[j as int]));
                assert(ext[j as int] == self.external_roots@[j as int]@);
                assert forall|k: DefaultKey|
                    #[trigger] pending@.contains(k) <==> (keys_of_values(roots@).contains(k)
                        || open_upvalue_roots@.contains(k) || exists|i: int|
                        0 <= i < j + 1 && #[trigger] keys_of_values(ext[i]).contains(k)) by {
                    if exists|i: int| 0 <= i < j + 1 && #[trigger] keys_of_values(ext[i]).contains(k) {
                        let i = choose|i: int| 0 <= i < j + 1 && #[trigger] keys_of_values(ext[i]).contains(k);
                        if i < j {
                            assert(before.contains(k));
                        }
                    }
                }
            }
            j += 1;
        }
        let mut j: usize = 0;
        while j < self.external_upvalue_roots.len()
            invariant
                j <= self.external_upvalue_roots@.len(),
                ext == self.external_roots_view(),
                ext_up == self.external_upvalue_roots_view(),
                ext.len() == self.external_roots@.len(),
                forall|k: DefaultKey|
                    #[trigger] pending@.contains(k) <==> (keys_of_values(roots@).contains(k)
                        || open_upvalue_roots@.contains(k) || (exists|i: int|
                        0 <= i < ext.len() && #[trigger] keys_of_values(ext[i]).contains(k)) || (
                    exists|i: int| 0 <= i < j && #[trigger] ext_up[i].contains(k))),
            decreases self.external_upvalue_roots@.len() - j,
        {
            let ghost before = pending@;
            push_keys(&mut pending, &self.external_upvalue_roots[j]);
            proof {
                lemma_concat_contains(before, ext_up[j as int]);
                assert(ext_up[j as int] == self.external_upvalue_roots@[j as int]@);
                assert forall|k: DefaultKey|
                    #[trigger] pending@.contains(k) <==> (keys_of_values(roots@).contains(k)
                        || open_upvalue_roots@.contains(k) || (exists|i: int|
                        0 <= i < ext.len() && #[trigger] keys_of_values(ext[i]).contains(k)) || (
                    exists|i: int| 0 <= i < j + 1 && #[trigger] ext_up[i].contains(k))) by {
                    if exists|i: int| 0 <= i < j + 1 && #[trigger] ext_up[i].contains(k) {
                        let i = choose|i: int| 0 <= i < j + 1 && #[trigger] ext_up[i].contains(k);
                        if i < j {
                            assert(before.contains(k));
                        }
                    }
                }
            }
            j += 1;
        }
        proof {
            assert(pending@.to_set() =~= rk);
        }
        let ghost h0 = self.heap_view();
        let marked = self.mark(pending);
        self.sweep(&marked);
        proof {
            assert(h0.restrict(marked@.to_set()) =~= h0.restrict(reachable(h0, rk)));
        }
        self.gc_threshold = self.allocated_bytes * 2;
    }
}

impl MemoryManager {
    /// The string stored under `key`.
    pub fn load_string(&self, key: StringIndex) -> (r: &str)
        requires
            self.heap_view().dom().contains(key),
            self.heap_view()[key] is String,
        ensures
            r@ == self.heap_view()[key]->String_0.content@,
    {
        match heap_get(&self.heap, key) {
            Some(HeapEntry::String(s)) => s.content.as_str(),
            _ => vstd::pervasive::unreached(),
        }
    }

    /// The object stored under `key`.
    pub fn load_object(&self, key: ObjectIndex) -> (r: &ManagedObject)
        requires
            self.heap_view().dom().contains(key),
            self.heap_view()[key] is Object,
        ensures
            *r == self.heap_view()[key]->Object_0,
    {
        match heap_get(&self.heap, key) {
            Some(HeapEntry::Object(x)) => x,
            _ => vstd::pervasive::unreached(),
        }
    }

    /// The array stored under `key`.
    pub fn load_array(&self, key: ArrayIndex) -> (r: &ManagedArray)
        requires
            self.heap_view().dom().contains(key),
            self.heap_view()[key] is Array,
        ensures
            *r == self.heap_view()[key]->Array_0,
    {
        match heap_get(&self.heap, key) {
            Some(HeapEntry::Array(x)) => x,
            _ => vstd::pervasive::unreached(),
        }
    }

    /// The function stored under `key`.
    pub fn load_function(&self, key: FunctionIndex) -> (r: &ManagedFunction)
        requires
            self.heap_view().dom().contains(key),
            self.heap_view()[key] is Function,
        ensures
            *r == self.heap_view()[key]->Function_0,
    {
        match heap_get(&self.heap, key) {
            Some(HeapEntry::Function(x)) => x,
            _ => vstd::pervasive::unreached(),
        }
    }

    /// The closure stored under `key`.
    pub fn load_closure(&self, key: ClosureIndex) -> (r: &ManagedClosure)
        requires
            self.heap_view().dom().contains(key),
            self.heap_view()[key] is Closure,
        ensures
            *r == self.heap_view()[key]->Closure_0,
    {
        match heap_get(&self.heap, key) {
            Some(HeapEntry::Closure(x)) => x,
            _ => vstd::pervasive::unreached(),
        }
    }

    /// The upvalue stored under `key`.
    pub fn load_upvalue(&self, key: UpvalueIndex) -> (r: &ManagedUpvalue)
        requires
            self.heap_view().dom().contains(key),
            self.heap_view()[key] is Upvalue,
        ensures
            *r == self.heap_view()[key]->Upvalue_0,
    {
        match heap_get(&self.heap, key) {
            Some(HeapEntry::Upvalue(x)) => x,
            _ => vstd::pervasive::unreached(),
        }
    }

    /// The import stored under `key`.
    pub fn load_import(&self, key: ImportIndex) -> (r: &ManagedImport)
        requires
            self.heap_view().dom().contains(key),
            self.heap_view()[key] is Import,
        ensures
            *r == self.heap_view()[key]->Import_0,
    {
        match heap_get(&self.heap, key) {
            Some(HeapEntry::Import(x)) => x,
            _ => vstd::pervasive::unreached(),
        }
    }
}

/// Whether `k` holds an import of the file `path`.
pub open spec fn import_at(h: Map<DefaultKey, HeapEntry>, k: DefaultKey, path: Seq<char>) -> bool {
    h.dom().contains(k) && h[k] is Import && string_at(h, h[k]->Import_0.path, path)
}

impl MemoryManager {
    /// The key of the import of `resolved_path`, storing the import (and its
    /// path) when the heap holds none for that path.
    pub fn allocate_import(&mut self, resolved_path: &str) -> (r: AllocationResult<ImportIndex>)
        requires
            old(self).wf(),
            old(self).bytes() + 80 + utf8_len(resolved_path@) <= usize::MAX,
            old(self).heap_view().dom().len() + 3 < u32::MAX,
        ensures
            final(self).wf(),
            import_at(final(self).heap_view(), r.index, resolved_path@),
            final(self).threshold() == old(self).threshold(),
            final(self).external_roots_view() == old(self).external_roots_view(),
            final(self).external_upvalue_roots_view() == old(self).external_upvalue_roots_view(),
            (exists|k: DefaultKey| import_at(old(self).heap_view(), k, resolved_path@)) ==> {
                &&& import_at(old(self).heap_view(), r.index, resolved_path@)
                &&& final(self).heap_view() == old(self).heap_view()
                &&& final(self).bytes() == old(self).bytes()
                &&& !r.should_garbage_collect
            },
            !(exists|k: DefaultKey| import_at(old(self).heap_view(), k, resolved_path@)) ==> {
                &&& !old(self).heap_view().dom().contains(r.index)
                &&& final(self).heap_view()[r.index]->Import_0.cached_result is None
                &&& forall|k: DefaultKey|
                    #[trigger] old(self).heap_view().dom().contains(k) ==> final(self).heap_view().dom().contains(k) && final(self).heap_view()[k] == old(self).heap_view()[k]
                &&& final(self).bytes() == old(self).bytes() + 48 + if is_interned(
                    old(self).heap_view(),
                    resolved_path@,
                ) {
                    0
                } else {
                    32 + utf8_len(resolved_path@)
                }
                &&& r.should_garbage_collect == (final(self).bytes() >= final(self).threshold())
            },
    {
        let keys = heap_keys(&self.heap);
        let owned = String::from_str(resolved_path);
        let mut i: usize = 0;
        while i < keys.len()
            invariant
                i <= keys@.len(),
                self.wf(),
                owned@ == resolved_path@,
                forall|k: DefaultKey| #[trigger] keys@.contains(k) <==> self.heap_view().dom().contains(k),
                forall|j: int|
                    0 <= j < i ==> !import_at(self.heap_view(), #[trigger] keys@[j], resolved_path@),
            decreases keys@.len() - i,
        {
            match heap_get(&self.heap, keys[i]) {
                Some(HeapEntry::Import(imp)) => {
                    match heap_get(&self.heap, imp.path) {
                        Some(HeapEntry::String(ms)) => {
                            if ms.content == owned {
                                proof {
                                    assert(keys@.contains(keys@[i as int]));
                                    assert(import_at(self.heap_view(), keys@[i as int], resolved_path@));
                                }
                                return AllocationResult { should_garbage_collect: false, index: keys[i] };
                            }
                        },
                        _ => {},
                    }
                },
                _ => {},
            }
            proof {
                assert(keys@.contains(keys@[i as int]));
            }
            i += 1;
        }
        proof {
            if exists|k: DefaultKey| import_at(self.heap_view(), k, resolved_path@) {
                let k = choose|k: DefaultKey| import_at(self.heap_view(), k, resolved_path@);
                assert(keys@.contains(k));
                let j = keys@.index_of(k);
                assert(!import_at(self.heap_view(), keys@[j], resolved_path@));
            }
        }
        let ghost h0 = self.heap_view();
        let path = self.allocate_string(resolved_path);
        let ghost h1 = self.heap_view();
        proof {
            assert forall|k: DefaultKey| #[trigger] h0.dom().contains(k) implies h1.dom().contains(k)
                && h1[k] == h0[k] by {
                if !is_interned(h0, resolved_path@) {
                    assert(k != path.index);
                }
            }
            if !is_interned(h0, resolved_path@) {
                assert(h1.dom() =~= h0.dom().insert(path.index));
                assert(h1.dom().len() == h0.dom().len() + 1);
            }
        }
        let imp = ManagedImport::new(path.index);
        let r = self.store(HeapEntry::Import(imp));
        proof {
            let h = self.heap_view();
            assert(h[r.index]->Import_0.path == path.index);
            assert(path.index != r.index);
            assert(string_at(h, path.index, resolved_path@));
        }
        r
    }
}

/// What a collection leaves of a heap.
pub open spec fn collected(h: Map<DefaultKey, HeapEntry>, roots: Set<DefaultKey>) -> Map<
    DefaultKey,
    HeapEntry,
> {
    h.restrict(reachable(h, roots))
}

/// An open upvalue that the heap holds survives a collection, and so does
/// every entry that a surviving entry refers to.
pub proof fn law_collection_keeps_live_entries(
    roots: Seq<Value>,
    upvalue_roots: Seq<UpvalueIndex>,
    extra: Seq<Seq<Value>>,
    extra_upvalues: Seq<Seq<UpvalueIndex>>,
    h: Map<DefaultKey, HeapEntry>,
)
    ensures
        forall|u: UpvalueIndex|
            #[trigger] upvalue_roots.contains(u) && h.dom().contains(u) ==> collected(
                h,
                root_keys(roots, upvalue_roots, extra, extra_upvalues),
            ).dom().contains(u),
        forall|p: DefaultKey, c: DefaultKey|
            #[trigger] collected(h, root_keys(roots, upvalue_roots, extra, extra_upvalues)).dom().contains(p)
                && #[trigger] children(h[p]).contains(c) && h.dom().contains(c) ==> collected(
                h,
                root_keys(roots, upvalue_roots, extra, extra_upvalues),
            ).dom().contains(c),
{
    let rk = root_keys(roots, upvalue_roots, extra, extra_upvalues);
    assert forall|u: UpvalueIndex| #[trigger] upvalue_roots.contains(u) && h.dom().contains(
        u,
    ) implies collected(h, rk).dom().contains(u) by {
        assert(rk.contains(u));
        lemma_roots_reachable(h, rk, u);
    }
    assert forall|p: DefaultKey, c: DefaultKey|
        #[trigger] collected(h, rk).dom().contains(p) && #[trigger] children(h[p]).contains(c)
            && h.dom().contains(c) implies collected(h, rk).dom().contains(c) by {
        lemma_reach_step(h, rk, p, c);
    }
}

proof fn lemma_reach_kept(h: Map<DefaultKey, HeapEntry>, roots: Set<DefaultKey>, n: nat)
    ensures
        forall|k: DefaultKey|
            #[trigger] reach_within(h, roots, n).contains(k) ==> reach_within(
                collected(h, roots),
                roots,
                n,
            ).contains(k),
    decreases n,
{
    if n > 0 {
        lemma_reach_kept(h, roots, (n - 1) as nat);
        let g = collected(h, roots);
        let prev = reach_within(h, roots, (n - 1) as nat);
        let gprev = reach_within(g, roots, (n - 1) as nat);
        assert forall|k: DefaultKey| #[trigger] reach_within(h, roots, n).contains(k) implies reach_within(
            g,
            roots,
            n,
        ).contains(k) by {
            if !prev.contains(k) {
                let p = choose|p: DefaultKey|
                    prev.contains(p) && h.dom().contains(p) && #[trigger] children(h[p]).contains(k);
                assert(reachable(h, roots).contains(p));
                assert(g.dom().contains(p));
                assert(gprev.contains(p));
                assert(g[p] == h[p]);
                assert(children(g[p]).contains(k));
            } else {
                assert(gprev.contains(k));
            }
        }
    }
}

/// Collecting a second time from the same roots changes nothing.
pub proof fn law_collection_is_idempotent(h: Map<DefaultKey, HeapEntry>, roots: Set<DefaultKey>)
    ensures
        collected(collected(h, roots), roots) == collected(h, roots),
{
    let g = collected(h, roots);
    assert forall|k: DefaultKey| #[trigger] g.dom().contains(k) implies reachable(g, roots).contains(
        k,
    ) by {
        let n = choose|n: nat| #[trigger] reach_within(h, roots, n).contains(k);
        lemma_reach_kept(h, roots, n);
        assert(reach_within(g, roots, n).contains(k));
    }
    assert(collected(g, roots) =~= g);
}

impl MemoryManager {
    /// Whether the heap holds an entry under `key`.
    pub fn contains_key(&self, key: DefaultKey) -> (r: bool)
        ensures
            r == self.heap_view().dom().contains(key),
    {
        heap_get(&self.heap, key).is_some()
    }

    /// The number of entries on the heap.
    pub fn entry_count(&self) -> (r: usize)
        ensures
            r == self.heap_view().dom().len(),
    {
        heap_len(&self.heap)
    }

    /// The bytes the entries take, as counted.
    pub fn allocated_bytes(&self) -> (r: usize)
        ensures
            r == self.bytes(),
    {
        self.allocated_bytes
    }

    /// Removes the string stored under `key`, if the heap holds one there,
    /// and returns it.
    pub fn deallocate_string(&mut self, key: StringIndex) -> (r: Option<ManagedString>)
        requires
            old(self).wf(),
        ensures
            final(self).wf(),
            final(self).threshold() == old(self).threshold(),
            final(self).external_roots_view() == old(self).external_roots_view(),
            final(self).external_upvalue_roots_view() == old(self).external_upvalue_roots_view(),
            (old(self).heap_view().dom().contains(key) && old(self).heap_view()[key] is String) ==> {
                &&& r == Some(old(self).heap_view()[key]->String_0)
                &&& final(self).heap_view() == old(self).heap_view().remove(key)
                &&& final(self).bytes() == old(self).bytes() - entry_size(old(self).heap_view()[key])
            },
            !(old(self).heap_view().dom().contains(key) && old(self).heap_view()[key] is String) ==> {
                &&& r is None
                &&& final(self).heap_view() == old(self).heap_view()
                &&& final(self).bytes() == old(self).bytes()
            },
    {
        match heap_get(&self.heap, key) {
            Some(HeapEntry::String(_)) => {},
            _ => {
                return None;
            },
        }
        let ghost h1 = self.heap_view();
        proof {
            lemma_size_sum_remove(h1, key);
        }
        let size = self.size_of_entry(key);
        let removed = heap_remove(&mut self.heap, key);
        self.allocated_bytes = self.allocated_bytes - size;
        proof {
            let h = self.heap_view();
            assert forall|k1: DefaultKey, k2: DefaultKey, s: Seq<char>|
                #[trigger] string_at(h, k1, s) && #[trigger] string_at(h, k2, s) implies k1 == k2 by {
                assert(string_at(h1, k1, s) && string_at(h1, k2, s));
            }
        }
        match removed {
            Some(HeapEntry::String(ms)) => Some(ms),
            _ => None,
        }
    }
}

impl MemoryManager {
    /// Stores raw bytes.
    pub fn allocate_binary(&mut self, data: Vec<u8>) -> (r: AllocationResult<BinaryIndex>)
        requires
            old(self).wf(),
            old(self).bytes() + 32 + data@.len() <= usize::MAX,
            old(self).heap_view().dom().len() + 2 < u32::MAX,
        ensures
            final(self).wf(),
            !old(self).heap_view().dom().contains(r.index),
            final(self).heap_view().dom() == old(self).heap_view().dom().insert(r.index),
            forall|k: DefaultKey|
                k != r.index ==> #[trigger] final(self).heap_view()[k] == old(self).heap_view()[k],
            final(self).heap_view()[r.index] is Binary,
            final(self).heap_view()[r.index]->Binary_0.data@ == data@,
            final(self).bytes() == old(self).bytes() + 32 + data@.len(),
            final(self).threshold() == old(self).threshold(),
            final(self).external_roots_view() == old(self).external_roots_view(),
            final(self).external_upvalue_roots_view() == old(self).external_upvalue_roots_view(),
            r.should_garbage_collect == (final(self).bytes() >= final(self).threshold()),
    {
        let b = ManagedBinary::new(data);
        self.store(HeapEntry::Binary(b))
    }

    /// The bytes stored under `key`.
    pub fn load_binary(&self, key: BinaryIndex) -> (r: &ManagedBinary)
        requires
            self.heap_view().dom().contains(key),
            self.heap_view()[key] is Binary,
        ensures
            *r == self.heap_view()[key]->Binary_0,
    {
        match heap_get(&self.heap, key) {
            Some(HeapEntry::Binary(x)) => x,
            _ => vstd::pervasive::unreached(),
        }
    }
}

proof fn lemma_replace_same_size(h: Map<DefaultKey, HeapEntry>, k: DefaultKey, e: HeapEntry)
    requires
        h.dom().finite(),
        h.dom().contains(k),
        entry_size(e) == entry_size(h[k]),
        !(h[k] is String),
        !(e is String),
        strings_distinct(h),
    ensures
        size_sum(h.insert(k, e)) == size_sum(h),
        h.insert(k, e).dom().finite(),
        strings_distinct(h.insert(k, e)),
{
    lemma_size_sum_remove(h, k);
    assert(h.insert(k, e) =~= h.remove(k).insert(k, e));
    lemma_size_sum_insert(h.remove(k), k, e);
    let g = h.insert(k, e);
    assert forall|k1: DefaultKey, k2: DefaultKey, s: Seq<char>|
        #[trigger] string_at(g, k1, s) && #[trigger] string_at(g, k2, s) implies k1 == k2 by {
        assert(string_at(h, k1, s) && string_at(h, k2, s));
    }
}

impl MemoryManager {
    /// Lends the upvalue stored under `key`; what the borrower leaves there
    /// is the heap's upvalue from then on.
    pub fn load_upvalue_mut(&mut self, key: UpvalueIndex) -> (r: &mut ManagedUpvalue)
        requires
            old(self).wf(),
            old(self).heap_view().dom().contains(key),
            old(self).heap_view()[key] is Upvalue,
        ensures
            *r == old(self).heap_view()[key]->Upvalue_0,
            final(self).heap_view() == old(self).heap_view().insert(key, HeapEntry::Upvalue(*final(r))),
            final(self).wf(),
            final(self).bytes() == old(self).bytes(),
            final(self).threshold() == old(self).threshold(),
            final(self).external_roots_view() == old(self).external_roots_view(),
            final(self).external_upvalue_roots_view() == old(self).external_upvalue_roots_view(),
    {
        let ghost h0 = old(self).heap_view();
        proof {
            assert forall|x: ManagedUpvalue| #![trigger h0.insert(key, HeapEntry::Upvalue(x))]
                size_sum(h0.insert(key, HeapEntry::Upvalue(x))) == size_sum(h0)
                && h0.insert(key, HeapEntry::Upvalue(x)).dom().finite()
                && strings_distinct(h0.insert(key, HeapEntry::Upvalue(x))) by {
                lemma_replace_same_size(h0, key, HeapEntry::Upvalue(x));
            }
        }
        let e = heap_entry_mut(&mut self.heap, key);
        match e {
            HeapEntry::Upvalue(u) => u,
            _ => vstd::pervasive::unreached(),
        }
    }

    /// Lends the binary blob stored under `key`; what the borrower leaves
    /// there is the heap's blob from then on. The byte count is not
    /// recounted, so the heap stays well formed when the blob keeps its
    /// length.
    pub fn load_binary_mut(&mut self, key: BinaryIndex) -> (r: &mut ManagedBinary)
        requires
            old(self).wf(),
            old(self).heap_view().dom().contains(key),
            old(self).heap_view()[key] is Binary,
        ensures
            *r == old(self).heap_view()[key]->Binary_0,
            final(self).heap_view() == old(self).heap_view().insert(key, HeapEntry::Binary(*final(r))),
            final(r).data@.len() == r.data@.len() ==> final(self).wf(),
            final(self).bytes() == old(self).bytes(),
            final(self).threshold() == old(self).threshold(),
            final(self).external_roots_view() == old(self).external_roots_view(),
            final(self).external_upvalue_roots_view() == old(self).external_upvalue_roots_view(),
    {
        let ghost h0 = old(self).heap_view();
        proof {
            assert forall|x: ManagedBinary| #![trigger h0.insert(key, HeapEntry::Binary(x))]
                x.data@.len() == h0[key]->Binary_0.data@.len() ==> size_sum(
                    h0.insert(key, HeapEntry::Binary(x)),
                ) == size_sum(h0) && h0.insert(key, HeapEntry::Binary(x)).dom().finite()
                    && strings_distinct(h0.insert(key, HeapEntry::Binary(x))) by {
                if x.data@.len() == h0[key]->Binary_0.data@.len() {
                    lemma_replace_same_size(h0, key, HeapEntry::Binary(x));
                }
            }
        }
        let e = heap_entry_mut(&mut self.heap, key);
        match e {
            HeapEntry::Binary(b) => b,
            _ => vstd::pervasive::unreached(),
        }
    }

    /// Lends the import stored under `key`; what the borrower leaves there
    /// is the heap's import from then on.
    pub fn load_import_mut(&mut self, key: ImportIndex) -> (r: &mut ManagedImport)
        requires
            old(self).wf(),
            old(self).heap_view().dom().contains(key),
            old(self).heap_view()[key] is Import,
        ensures
            *r == old(self).heap_view()[key]->Import_0,
            final(self).heap_view() == old(self).heap_view().insert(key, HeapEntry::Import(*final(r))),
            final(self).wf(),
            final(self).bytes() == old(self).bytes(),
            final(self).threshold() == old(self).threshold(),
            final(self).external_roots_view() == old(self).external_roots_view(),
            final(self).external_upvalue_roots_view() == old(self).external_upvalue_roots_view(),
    {
        let ghost h0 = old(self).heap_view();
        proof {
            assert forall|x: ManagedImport| #![trigger h0.insert(key, HeapEntry::Import(x))]
                size_sum(h0.insert(key, HeapEntry::Import(x))) == size_sum(h0)
                && h0.insert(key, HeapEntry::Import(x)).dom().finite()
                && strings_distinct(h0.insert(key, HeapEntry::Import(x))) by {
                lemma_replace_same_size(h0, key, HeapEntry::Import(x));
            }
        }
        let e = heap_entry_mut(&mut self.heap, key);
        match e {
            HeapEntry::Import(u) => u,
            _ => vstd::pervasive::unreached(),
        }
    }
}

impl MemoryManager {
    /// The entry stored under `key`, if any.
    pub fn get_entry(&self, key: DefaultKey) -> (r: Option<&HeapEntry>)
        ensures
            self.heap_view().dom().contains(key) ==> r == Some(&self.heap_view()[key]),
            !self.heap_view().dom().contains(key) ==> r is None,
    {
        heap_get(&self.heap, key)
    }
}

} // verus!
