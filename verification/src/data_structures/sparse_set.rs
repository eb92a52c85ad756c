//! A paged sparse set: integer keys mapped to densely packed values.
//!
//! The key space is cut into pages of `PAGE_SIZE` cells. A cell holds the
//! dense slot of its key, or [`ABSENT`]. Values live in one packed vector,
//! next to a back-reference to the cell that points at them, so that removal
//! can move the last value into the hole and iteration never touches an
//! empty cell.

use vstd::prelude::*;
use vstd::arithmetic::div_mod::lemma_fundamental_div_mod;
use vstd::arithmetic::div_mod::lemma_fundamental_div_mod_converse;

verus! {

/// Cell content that marks a key as not stored. No dense slot can have this
/// number, since a vector never holds more than `usize::MAX` values.
pub const ABSENT: usize = usize::MAX;

/// Back-reference from a dense slot to the sparse cell that points at it.
pub struct SpraseDenseValueIndex {
    sparse_page: usize,
    sparse_index: usize,
}

impl SpraseDenseValueIndex {
    /// The page of the referenced cell.
    pub closed spec fn page(&self) -> usize {
        self.sparse_page
    }

    /// The position of the referenced cell inside its page.
    pub closed spec fn offset(&self) -> usize {
        self.sparse_index
    }

    /// A reference to the cell at `sparse_index` of page `sparse_page`.
    pub fn new(sparse_page: usize, sparse_index: usize) -> (r: Self)
        ensures
            r.page() == sparse_page,
            r.offset() == sparse_index,
    {
        Self { sparse_page, sparse_index }
    }
}

/// The map that a packed sequence of keys and the sequence of their values
/// stand for: `keys[i]` is bound to `values[i]`.
pub open spec fn entries_map<T>(keys: Seq<usize>, values: Seq<T>) -> Map<usize, T> {
    Map::new(|k: usize| keys.contains(k), |k: usize| values[keys.index_of(k)])
}

/// What swap-with-last removal leaves of a packed sequence: slot `d` takes the
/// last element and the sequence loses its last slot.
pub open spec fn swap_removed<A>(s: Seq<A>, d: int) -> Seq<A> {
    s.update(d, s.last()).drop_last()
}

/// Splitting a key into page and offset loses nothing.
pub proof fn lemma_split_key(key: usize, page_size: usize)
    requires
        page_size > 0,
    ensures
        0 <= key / page_size <= key,
        0 <= key % page_size < page_size,
        (key / page_size) * page_size + key % page_size == key,
{
    lemma_fundamental_div_mod(key as int, page_size as int);
    assert((key / page_size) * page_size == page_size * (key / page_size)) by (nonlinear_arith);
    assert(0 <= key / page_size <= key) by (nonlinear_arith)
        requires
            page_size > 0,
            key >= 0,
    ;
}

/// A page and an offset inside it are recovered from the key they make.
pub proof fn lemma_join_key(page: int, offset: int, page_size: int)
    requires
        page_size > 0,
        0 <= offset < page_size,
    ensures
        (page * page_size + offset) / page_size == page,
        (page * page_size + offset) % page_size == offset,
{
    lemma_fundamental_div_mod_converse(page * page_size + offset, page_size, page, offset);
}

/// Appending a fresh key binds it and leaves every other binding alone.
pub proof fn lemma_entries_push<T>(keys: Seq<usize>, values: Seq<T>, key: usize, value: T)
    requires
        keys.len() == values.len(),
        keys.no_duplicates(),
        !keys.contains(key),
    ensures
        keys.push(key).no_duplicates(),
        entries_map(keys.push(key), values.push(value)) == entries_map(keys, values).insert(
            key,
            value,
        ),
{
    let keys2 = keys.push(key);
    let values2 = values.push(value);
    assert forall|i: int, j: int| 0 <= i < keys2.len() && 0 <= j < keys2.len() && i != j
        implies keys2[i]
        != keys2[j] by {
        if i < keys.len() && j < keys.len() {
        } else if i < keys.len() {
            assert(keys.contains(keys[i]));
        } else {
            assert(keys.contains(keys[j]));
        }
    }
    let m1 = entries_map(keys2, values2);
    let m2 = entries_map(keys, values).insert(key, value);
    assert forall|k: usize| m1.contains_key(k) <==> m2.contains_key(k) by {
        if keys2.contains(k) {
            let i = keys2.index_of(k);
            if i < keys.len() {
                assert(keys[i] == k);
                assert(keys.contains(k));
            }
        }
        if keys.contains(k) {
            let i = keys.index_of(k);
            assert(keys2[i] == k);
        }
        if k == key {
            assert(keys2[keys.len() as int] == k);
        }
    }
    assert forall|k: usize| m1.contains_key(k) implies m1[k] == m2[k] by {
        let i = keys2.index_of(k);
        if k == key {
            assert(keys2[keys.len() as int] == k);
            assert(i == keys.len());
        } else {
            assert(i < keys.len());
            assert(keys[i] == k);
            assert(keys.index_of(k) == i);
        }
    }
    assert(m1 =~= m2);
}

/// Swap-with-last removal of the slot of `key` unbinds `key` and leaves
/// every other binding alone.
pub proof fn lemma_entries_swap_remove<T>(keys: Seq<usize>, values: Seq<T>, d: int)
    requires
        keys.len() == values.len(),
        keys.no_duplicates(),
        0 <= d < keys.len(),
    ensures
        swap_removed(keys, d).no_duplicates(),
        entries_map(swap_removed(keys, d), swap_removed(values, d)) == entries_map(
            keys,
            values,
        ).remove(keys[d]),
{
    let keys2 = swap_removed(keys, d);
    let values2 = swap_removed(values, d);
    let last = keys.len() - 1;
    // Where each slot of the shorter sequence came from.
    let origin = |i: int| if i == d { last } else { i };
    assert forall|i: int| 0 <= i < keys2.len() implies keys2[i] == keys[origin(i)] && values2[i]
        == values[origin(i)] by {}
    assert forall|i: int, j: int| 0 <= i < keys2.len() && 0 <= j < keys2.len() && i != j
        implies keys2[i]
        != keys2[j] by {
        assert(keys2[i] == keys[origin(i)]);
        assert(keys2[j] == keys[origin(j)]);
    }
    let m1 = entries_map(keys2, values2);
    let m2 = entries_map(keys, values).remove(keys[d]);
    assert forall|k: usize| m1.contains_key(k) <==> m2.contains_key(k) by {
        if keys2.contains(k) {
            let i = keys2.index_of(k);
            assert(keys2[i] == keys[origin(i)]);
            assert(keys.contains(k));
            assert(origin(i) != d);
        }
        if keys.contains(k) && k != keys[d] {
            let i = keys.index_of(k);
            if i == last {
                assert(keys2[d] == k);
            } else {
                assert(keys2[i] == k);
            }
        }
    }
    assert forall|k: usize| m1.contains_key(k) implies m1[k] == m2[k] by {
        let i = keys2.index_of(k);
        assert(keys2[i] == keys[origin(i)]);
        assert(keys.index_of(k) == origin(i));
    }
    assert(m1 =~= m2);
}

/// Writing a new value into a slot rebinds the key of that slot and leaves
/// every other binding alone.
pub proof fn lemma_entries_update<T>(keys: Seq<usize>, values: Seq<T>, d: int, value: T)
    requires
        keys.len() == values.len(),
        keys.no_duplicates(),
        0 <= d < keys.len(),
    ensures
        entries_map(keys, values.update(d, value)) == entries_map(keys, values).insert(
            keys[d],
            value,
        ),
{
    let m1 = entries_map(keys, values.update(d, value));
    let m2 = entries_map(keys, values).insert(keys[d], value);
    assert forall|k: usize| m1.contains_key(k) <==> m2.contains_key(k) by {
        if k == keys[d] {
            assert(keys.contains(k));
        }
    }
    assert forall|k: usize| m1.contains_key(k) implies m1[k] == m2[k] by {
        let i = keys.index_of(k);
        if k == keys[d] {
            assert(i == d);
        }
    }
    assert(m1 =~= m2);
}

/// A packed sequence without repeats binds as many keys as it is long.
pub proof fn lemma_entries_len<T>(keys: Seq<usize>, values: Seq<T>)
    requires
        keys.no_duplicates(),
    ensures
        entries_map(keys, values).dom().finite(),
        entries_map(keys, values).dom().len() == keys.len(),
{
    vstd::seq_lib::seq_to_set_is_finite(keys);
    keys.unique_seq_to_set();
    assert(entries_map(keys, values).dom() =~= keys.to_set());
}

/// The keys that a sequence of back-references stands for.
spec fn keys_of(indices: Seq<SpraseDenseValueIndex>, page_size: usize) -> Seq<usize> {
    Seq::new(
        indices.len(),
        |d: int| (indices[d].sparse_page * page_size + indices[d].sparse_index) as usize,
    )
}

/// The back-reference of slot `d` names a cell that points back at `d`.
spec fn back_ok(
    indices: Seq<SpraseDenseValueIndex>,
    sparse: Seq<Vec<usize>>,
    page_size: usize,
    d: int,
) -> bool {
    let r = indices[d];
    &&& r.sparse_page < sparse.len()
    &&& r.sparse_index < page_size
    &&& sparse[r.sparse_page as int]@.len() == page_size
    &&& sparse[r.sparse_page as int]@[r.sparse_index as int] == d
    &&& r.sparse_page * page_size + r.sparse_index <= usize::MAX
}

/// The cell is empty, or it names a slot whose back-reference is this cell.
spec fn cell_ok(
    indices: Seq<SpraseDenseValueIndex>,
    sparse: Seq<Vec<usize>>,
    page: int,
    offset: int,
) -> bool {
    let d = sparse[page]@[offset];
    d == ABSENT || (d < indices.len() && indices[d as int].sparse_page == page
        && indices[d as int].sparse_index == offset)
}

/// Every page is whole or missing, every slot is found again from its cell,
/// and every cell is empty or names its slot.
spec fn consistent(
    indices: Seq<SpraseDenseValueIndex>,
    sparse: Seq<Vec<usize>>,
    page_size: usize,
) -> bool {
    &&& forall|p: int|
        0 <= p < sparse.len() ==> (#[trigger] sparse[p])@.len() == 0 || sparse[p]@.len()
            == page_size
    &&& forall|d: int| 0 <= d < indices.len() ==> #[trigger] back_ok(indices, sparse, page_size, d)
    &&& forall|p: int, o: int|
        0 <= p < sparse.len() && 0 <= o < sparse[p]@.len() ==> #[trigger] cell_ok(
            indices,
            sparse,
            p,
            o,
        )
}

/// One step in the history of a set: a key is bound if it is free, or a key
/// is unbound.
pub enum SetOp<T> {
    Insert(usize, T),
    Remove(usize),
}

/// The bindings after a history of steps on an empty set.
pub open spec fn bindings_after<T>(ops: Seq<SetOp<T>>) -> Map<usize, T>
    decreases ops.len(),
{
    if ops.len() == 0 {
        Map::empty()
    } else {
        let before = bindings_after(ops.drop_last());
        match ops.last() {
            SetOp::Insert(key, value) => if before.contains_key(key) {
                before
            } else {
                before.insert(key, value)
            },
            SetOp::Remove(key) => before.remove(key),
        }
    }
}

/// The inserts of a history that bound a key, less the removes that unbound
/// one.
pub open spec fn net_inserted<T>(ops: Seq<SetOp<T>>) -> int
    decreases ops.len(),
{
    if ops.len() == 0 {
        0
    } else {
        let before = bindings_after(ops.drop_last());
        net_inserted(ops.drop_last()) + match ops.last() {
            SetOp::Insert(key, value) => if before.contains_key(key) {
                0int
            } else {
                1int
            },
            SetOp::Remove(key) => if before.contains_key(key) {
                -1int
            } else {
                0int
            },
        }
    }
}

/// After any history of inserts and removes, the set holds as many keys as
/// were inserted and not removed since.
pub proof fn lemma_length_counts_keys<T>(ops: Seq<SetOp<T>>)
    ensures
        bindings_after(ops).dom().finite(),
        bindings_after(ops).dom().len() == net_inserted(ops),
    decreases ops.len(),
{
    if ops.len() > 0 {
        lemma_length_counts_keys(ops.drop_last());
        let before = bindings_after(ops.drop_last());
        match ops.last() {
            SetOp::Insert(key, value) => {},
            SetOp::Remove(key) => {},
        }
    }
}

/// Hands out one mutable reference for each element of `values`, each paired
/// with the key of the same position. What is written through a reference
/// ends up in that position, and nowhere else.
fn pair_up<'a, T>(keys: &Vec<usize>, values: &'a mut Vec<T>) -> (out: Vec<(usize, &'a mut T)>)
    requires
        keys@.len() == old(values)@.len(),
    ensures
        out@.len() == old(values)@.len(),
        forall|i: int|
            0 <= i < out@.len() ==>
                (#[trigger] out@[i]).0 == keys@[i] && *out@[i].1 == old(values)@[i],
        final(values)@.len() == old(values)@.len(),
        forall|i: int| 0 <= i < out@.len() ==> final(values)@[i] == *final((#[trigger] out@[i]).1),
{
    let ghost before = values@;
    let ghost end = final(values)@;
    let count: usize = values.len();
    let mut rest: &mut [T] = values.as_mut_slice();
    let mut out: Vec<(usize, &mut T)> = Vec::new();
    let mut i: usize = 0;
    while i < count
        invariant
            i <= count,
            count == before.len(),
            keys@.len() == count,
            out@.len() == i,
            rest@ == before.subrange(i as int, count as int),
            forall|j: int|
                0 <= j < i ==> (#[trigger] out@[j]).0 == keys@[j] && *out@[j].1 == before[j],
            end.len() == i + final(rest)@.len(),
            forall|j: int| 0 <= j < i ==> end[j] == *final((#[trigger] out@[j]).1),
            forall|j: int| 0 <= j < final(rest)@.len() ==> end[i + j] == #[trigger] final(rest)@[j],
        decreases count - i,
    {
        let ghost whole = final(rest)@;
        let (head, tail) = rest.split_at_mut(1);
        let ghost front = final(head)@;
        let ghost back = final(tail)@;
        match head.first_mut() {
            Some(value) => {
                out.push((keys[i], value));
            },
            None => {},
        }
        rest = tail;
        proof {
            assert(whole == front + back);
            assert(front.len() == 1);
            assert forall|j: int| 0 <= j < i + 1 implies end[j] == *final((#[trigger] out@[j]).1)
            by {
                if j == i {
                    assert(end[i + 0] == whole[0]);
                    assert(whole[0] == front[0]);
                }
            }
            assert forall|j: int| 0 <= j < back.len() implies end[i + 1 + j] == #[trigger] back[j]
            by {
                assert(end[i + (1 + j)] == whole[1 + j]);
                assert(whole[1 + j] == back[j]);
            }
        }
        i = i + 1;
    }
    out
}

/// A set of values of type `T`, keyed by `usize`, with pages of `PAGE_SIZE`
/// cells in its sparse index.
pub struct SparseSet<T, const PAGE_SIZE: usize> {
    dense_indecies: Vec<SpraseDenseValueIndex>,
    dense: Vec<T>,
    sparse: Vec<Vec<usize>>,
}

impl<T, const PAGE_SIZE: usize> View for SparseSet<T, PAGE_SIZE> {
    type V = Map<usize, T>;

    /// The bindings of the set, without their packing order.
    open spec fn view(&self) -> Map<usize, T> {
        entries_map(self.keys(), self.values())
    }
}

impl<T, const PAGE_SIZE: usize> SparseSet<T, PAGE_SIZE> {
    /// The stored keys, in packing order.
    pub closed spec fn keys(&self) -> Seq<usize> {
        keys_of(self.dense_indecies@, PAGE_SIZE)
    }

    /// The stored values, in packing order: `values()[i]` belongs to `keys()[i]`.
    pub closed spec fn values(&self) -> Seq<T> {
        self.dense@
    }

    /// Number of pages that the sparse index has slots for.
    pub closed spec fn page_count(&self) -> nat {
        self.sparse@.len()
    }

    /// Whether the page has its cells.
    pub closed spec fn page_allocated(&self, page: int) -> bool {
        0 <= page < self.sparse@.len() && self.sparse@[page]@.len() == PAGE_SIZE
    }

    /// Agreement between the sparse index and the packed vectors.
    pub closed spec fn index_consistent(&self) -> bool {
        &&& self.dense@.len() == self.dense_indecies@.len()
        &&& consistent(self.dense_indecies@, self.sparse@, PAGE_SIZE)
    }

    /// Validity: every live key has exactly one dense slot, the dense slots
    /// have no gaps, and there are as many values as keys.
    pub open spec fn wf(&self) -> bool {
        &&& PAGE_SIZE > 0
        &&& self.index_consistent()
        &&& self.keys().len() == self.values().len()
        &&& self.keys().no_duplicates()
    }

    /// The dense slot that the sparse index gives for `key`, if any.
    spec fn lookup(&self, key: usize) -> Option<int> {
        let page = key as int / PAGE_SIZE as int;
        let offset = key as int % PAGE_SIZE as int;
        if page < self.sparse@.len() && self.sparse@[page]@.len() == PAGE_SIZE
            && self.sparse@[page]@[offset] != ABSENT {
            Some(self.sparse@[page]@[offset] as int)
        } else {
            None
        }
    }

    /// The sparse index finds exactly the keys of the packed sequence, each
    /// at its slot.
    proof fn lemma_lookup(&self, key: usize)
        requires
            PAGE_SIZE > 0,
            self.index_consistent(),
        ensures
            self.lookup(key) is Some <==> self.keys().contains(key),
            self.lookup(key) matches Some(d) ==> 0 <= d < self.keys().len() && self.keys()[d]
                == key,
    {
        lemma_split_key(key, PAGE_SIZE);
        let page = key as int / PAGE_SIZE as int;
        let offset = key as int % PAGE_SIZE as int;
        if let Some(d) = self.lookup(key) {
            assert(cell_ok(self.dense_indecies@, self.sparse@, page, offset));
            assert(self.keys()[d] == key);
        }
        if self.keys().contains(key) {
            let d = self.keys().index_of(key);
            assert(back_ok(self.dense_indecies@, self.sparse@, PAGE_SIZE, d));
            let r = self.dense_indecies@[d];
            lemma_join_key(r.sparse_page as int, r.sparse_index as int, PAGE_SIZE as int);
            assert(self.dense_indecies.len() <= usize::MAX);
            assert(self.lookup(key) == Some(d));
        }
    }

    /// No key sits in two slots.
    proof fn lemma_keys_distinct(&self)
        requires
            PAGE_SIZE > 0,
            self.index_consistent(),
        ensures
            self.keys().no_duplicates(),
            self.keys().len() == self.values().len(),
    {
        assert forall|i: int, j: int|
            0 <= i < self.keys().len() && 0 <= j < self.keys().len() && i != j
                implies self.keys()[i]
            != self.keys()[j] by {
            assert(back_ok(self.dense_indecies@, self.sparse@, PAGE_SIZE, i));
            assert(back_ok(self.dense_indecies@, self.sparse@, PAGE_SIZE, j));
            let ri = self.dense_indecies@[i];
            let rj = self.dense_indecies@[j];
            lemma_join_key(ri.sparse_page as int, ri.sparse_index as int, PAGE_SIZE as int);
            lemma_join_key(rj.sparse_page as int, rj.sparse_index as int, PAGE_SIZE as int);
        }
    }

    /// The bindings of a valid set are finitely many: one for each dense slot.
    pub proof fn lemma_view_len(&self)
        requires
            self.wf(),
        ensures
            self@.dom().finite(),
            self@.dom().len() == self.keys().len(),
            self.keys().len() == self.values().len(),
            forall|i: int|
                0 <= i < self.keys().len() ==> self@.contains_key(#[trigger] self.keys()[i])
                    && self@[self.keys()[i]] == self.values()[i],
    {
        lemma_entries_len(self.keys(), self.values());
        assert forall|i: int| 0 <= i < self.keys().len() implies self@.contains_key(
            #[trigger] self.keys()[i],
        ) && self@[self.keys()[i]] == self.values()[i] by {
            let k = self.keys()[i];
            assert(self.keys().contains(k));
            assert(self.keys().index_of(k) == i);
        }
    }

    /// An empty set with no page allocated.
    pub fn new() -> (r: Self)
        requires
            PAGE_SIZE > 0,
        ensures
            r.wf(),
            r.keys() == Seq::<usize>::empty(),
            r.values() == Seq::<T>::empty(),
            r@ == Map::<usize, T>::empty(),
            r.page_count() == 0,
            forall|p: int| !r.page_allocated(p),
    {
        let r = Self { dense_indecies: Vec::new(), dense: Vec::new(), sparse: Vec::new() };
        proof {
            assert(r.keys() =~= Seq::<usize>::empty());
            assert(r@ =~= Map::<usize, T>::empty());
        }
        r
    }

    /// Page and offset of a key.
    pub fn map_index(index: usize) -> (r: (usize, usize))
        requires
            PAGE_SIZE > 0,
        ensures
            r.0 == index / PAGE_SIZE,
            r.1 == index % PAGE_SIZE,
            r.1 < PAGE_SIZE,
            r.0 * PAGE_SIZE + r.1 == index,
    {
        proof {
            lemma_split_key(index, PAGE_SIZE);
        }
        let page: usize = index / PAGE_SIZE;
        let index: usize = index % PAGE_SIZE;
        (page, index)
    }

    /// A page in which every cell is empty.
    fn blank_page() -> (page: Vec<usize>)
        ensures
            page@.len() == PAGE_SIZE,
            forall|o: int| 0 <= o < PAGE_SIZE ==> page@[o] == ABSENT,
    {
        let mut page: Vec<usize> = Vec::new();
        let mut filled: usize = 0;
        while filled < PAGE_SIZE
            invariant
                filled <= PAGE_SIZE,
                page@.len() == filled,
                forall|o: int| 0 <= o < filled ==> page@[o] == ABSENT,
            decreases PAGE_SIZE - filled,
        {
            page.push(ABSENT);
            filled = filled + 1;
        }
        page
    }

    /// Grows the sparse index until it has a slot for `page`, and gives that
    /// page its cells if it has none. The bindings stay as they are.
    fn touch_page(&mut self, page: usize)
        requires
            old(self).wf(),
            page < usize::MAX,
        ensures
            final(self).wf(),
            final(self).keys() == old(self).keys(),
            final(self).values() == old(self).values(),
            final(self).page_allocated(page as int),
            final(self).page_count() == (if page < old(self).page_count() {
                old(self).page_count()
            } else {
                (page + 1) as nat
            }),
            forall|p: int| #[trigger]
                final(self).page_allocated(p) <==> old(self).page_allocated(p) || p == page,
    {
        while self.sparse.len() <= page
            invariant
                page < usize::MAX,
                PAGE_SIZE > 0,
                self.index_consistent(),
                self.dense_indecies == old(self).dense_indecies,
                self.dense == old(self).dense,
                self.sparse@.len() >= old(self).sparse@.len(),
                self.sparse@.len() <= page + 1 || self.sparse@.len() == old(self).sparse@.len(),
                forall|p: int| 0 <= p < old(self).sparse@.len() ==>
                    self.sparse@[p] == old(self).sparse@[p],
                forall|p: int|
                    old(self).sparse@.len() <= p < self.sparse@.len() ==>
                        (#[trigger] self.sparse@[p])@.len()
                        == 0,
            decreases page + 1 - self.sparse@.len(),
        {
            let ghost before = *self;
            self.sparse.push(Vec::new());
            proof {
                assert forall|d: int| 0 <= d < self.dense_indecies@.len()
                    implies #[trigger] back_ok(self.dense_indecies@, self.sparse@, PAGE_SIZE, d)
                    by {
                    assert(back_ok(before.dense_indecies@, before.sparse@, PAGE_SIZE, d));
                }
                assert forall|p: int, o: int|
                    0 <= p < self.sparse@.len() && 0 <= o < self.sparse@[p]@.len()
                        implies #[trigger] cell_ok(self.dense_indecies@, self.sparse@, p, o) by {
                    assert(cell_ok(before.dense_indecies@, before.sparse@, p, o));
                }
            }
        }
        if self.sparse[page].len() == 0 {
            let ghost before = *self;
            let fresh = Self::blank_page();
            self.sparse[page] = fresh;
            proof {
                assert forall|d: int| 0 <= d < self.dense_indecies@.len()
                    implies #[trigger] back_ok(self.dense_indecies@, self.sparse@, PAGE_SIZE, d)
                    by {
                    assert(back_ok(before.dense_indecies@, before.sparse@, PAGE_SIZE, d));
                }
                assert forall|p: int, o: int|
                    0 <= p < self.sparse@.len() && 0 <= o < self.sparse@[p]@.len()
                        implies #[trigger] cell_ok(self.dense_indecies@, self.sparse@, p, o) by {
                    if p != page {
                        assert(cell_ok(before.dense_indecies@, before.sparse@, p, o));
                    }
                }
            }
        }
        proof {
            assert(self.keys() =~= old(self).keys());
            self.lemma_keys_distinct();
        }
    }

    /// Binds `index` to `value` unless the key is already bound. Returns
    /// whether the binding was made; a bound key keeps its value and its slot.
    /// A new binding takes the slot after the last one.
    pub fn emplace(&mut self, index: usize, value: T) -> (inserted: bool)
        requires
            old(self).wf(),
            index / PAGE_SIZE < usize::MAX,
        ensures
            final(self).wf(),
            inserted == !old(self)@.contains_key(index),
            inserted ==>
                final(self).keys() == old(self).keys().push(index) && final(self).values()
                    == old(self).values().push(value),
            !inserted ==>
                final(self).keys() == old(self).keys() && final(self).values()
                    == old(self).values(),
            final(self)@ == (if inserted {
                old(self)@.insert(index, value)
            } else {
                old(self)@
            }),
            final(self)@.contains_key(index),
            final(self).page_count() == (if index / PAGE_SIZE < old(self).page_count() {
                old(self).page_count()
            } else {
                (index / PAGE_SIZE + 1) as nat
            }),
            forall|p: int| #[trigger]
                final(self).page_allocated(p) <==> old(self).page_allocated(p) || p == index
                    / PAGE_SIZE,
    {
        let (page, offset) = Self::map_index(index);
        self.touch_page(page);
        proof {
            self.lemma_lookup(index);
        }
        if self.sparse[page][offset] != ABSENT {
            return false;
        }
        let ghost before = *self;
        let dense_index: usize = self.dense.len();
        self.dense.push(value);
        self.dense_indecies.push(SpraseDenseValueIndex::new(page, offset));
        assert(self.dense@.len() == dense_index + 1);
        assert(self.dense.len() <= usize::MAX);
        self.sparse[page][offset] = dense_index;
        proof {
            assert forall|d: int| 0 <= d < self.dense_indecies@.len()
                implies #[trigger] back_ok(self.dense_indecies@, self.sparse@, PAGE_SIZE, d) by {
                if d < dense_index {
                    assert(back_ok(before.dense_indecies@, before.sparse@, PAGE_SIZE, d));
                }
            }
            assert forall|p: int, o: int|
                0 <= p < self.sparse@.len() && 0 <= o < self.sparse@[p]@.len()
                    implies #[trigger] cell_ok(self.dense_indecies@, self.sparse@, p, o) by {
                if p != page || o != offset {
                    assert(cell_ok(before.dense_indecies@, before.sparse@, p, o));
                }
            }
            assert forall|p: int| #[trigger]
                self.page_allocated(p) == before.page_allocated(p) by {}
            assert(self.keys() =~= before.keys().push(index));
            lemma_entries_push(before.keys(), before.values(), index, value);
            assert(self.keys()[dense_index as int] == index);
        }
        true
    }

    /// Binds `index` to `value` unless the key is already bound, in which case
    /// nothing changes.
    pub fn set(&mut self, index: usize, value: T)
        requires
            old(self).wf(),
            index / PAGE_SIZE < usize::MAX,
        ensures
            final(self).wf(),
            final(self)@ == (if old(self)@.contains_key(index) {
                old(self)@
            } else {
                old(self)@.insert(index, value)
            }),
            old(self)@.contains_key(index) ==>
                final(self).keys() == old(self).keys() && final(self).values()
                    == old(self).values(),
            !old(self)@.contains_key(index) ==> final(self).keys() == old(self).keys().push(index)
                && final(self).values() == old(self).values().push(value),
            final(self).page_count() == (if index / PAGE_SIZE < old(self).page_count() {
                old(self).page_count()
            } else {
                (index / PAGE_SIZE + 1) as nat
            }),
            forall|p: int| #[trigger]
                final(self).page_allocated(p) <==> old(self).page_allocated(p) || p == index
                    / PAGE_SIZE,
    {
        let _ = self.emplace(index, value);
    }

    /// The dense slot of a key, if the key is bound.
    pub fn slot_of(&self, index: usize) -> (r: Option<usize>)
        requires
            self.wf(),
        ensures
            r is Some <==> self@.contains_key(index),
            r matches Some(d) ==> d < self.keys().len() && self.keys()[d as int] == index
                && self@[index] == self.values()[d as int],
    {
        let (page, offset) = Self::map_index(index);
        proof {
            self.lemma_lookup(index);
            self.lemma_view_len();
        }
        if page < self.sparse.len() {
            if self.sparse[page].len() != 0 {
                let dense_index: usize = self.sparse[page][offset];
                if dense_index != ABSENT {
                    return Some(dense_index);
                }
            }
        }
        None
    }

    /// Whether the key is bound.
    pub fn contains(&self, index: usize) -> (r: bool)
        requires
            self.wf(),
        ensures
            r == self@.contains_key(index),
    {
        self.slot_of(index).is_some()
    }

    /// The value bound to a key, or `None` for a key that is not bound.
    pub fn get(&self, index: usize) -> (r: Option<&T>)
        requires
            self.wf(),
        ensures
            r == (if self@.contains_key(index) {
                Some(&self@[index])
            } else {
                None
            }),
    {
        match self.slot_of(index) {
            Some(dense_index) => Some(&self.dense[dense_index]),
            None => None,
        }
    }

    /// Unbinds a key. The last packed value moves into the freed slot, so the
    /// packing keeps no gap; every other binding keeps its value. A key that
    /// is not bound leaves the set as it is.
    pub fn remove(&mut self, index: usize)
        requires
            old(self).wf(),
        ensures
            final(self).wf(),
            final(self)@ == old(self)@.remove(index),
            !final(self)@.contains_key(index),
            forall|k: usize|
                k != index ==> (final(self)@.contains_key(k) <==> old(self)@.contains_key(k)),
            forall|k: usize|
                k != index && old(self)@.contains_key(k) ==> final(self)@[k] == old(self)@[k],
            old(self)@.contains_key(index) ==> final(self).keys() == swap_removed(
                old(self).keys(),
                old(self).keys().index_of(index),
            ) && final(self).values() == swap_removed(
                old(self).values(),
                old(self).keys().index_of(index),
            ),
            !old(self)@.contains_key(index) ==>
                final(self).keys() == old(self).keys() && final(self).values()
                    == old(self).values(),
            final(self).page_count() == old(self).page_count(),
            forall|p: int| #[trigger] final(self).page_allocated(p) == old(self).page_allocated(p),
    {
        let (page, offset) = Self::map_index(index);
        proof {
            self.lemma_lookup(index);
            if !old(self)@.contains_key(index) {
                assert(old(self)@.remove(index) =~= old(self)@);
            }
        }
        if page >= self.sparse.len() {
            return ;
        }
        if self.sparse[page].len() == 0 {
            return ;
        }
        let dense_index: usize = self.sparse[page][offset];
        if dense_index == ABSENT {
            return ;
        }
        let ghost before = *self;
        let last_dense_index: usize = self.dense.len() - 1;
        proof {
            assert(cell_ok(before.dense_indecies@, before.sparse@, page as int, offset as int));
            assert(back_ok(
                before.dense_indecies@,
                before.sparse@,
                PAGE_SIZE,
                last_dense_index as int,
            ));
            assert(before.keys()[dense_index as int] == index);
            assert(before.keys().index_of(index) == dense_index);
        }
        let last_page: usize = self.dense_indecies[last_dense_index].sparse_page;
        let last_offset: usize = self.dense_indecies[last_dense_index].sparse_index;

        self.sparse[page][offset] = ABSENT;
        if dense_index != last_dense_index {
            self.sparse[last_page][last_offset] = dense_index;
        }
        let _ = self.dense.swap_remove(dense_index);
        let _ = self.dense_indecies.swap_remove(dense_index);
        proof {
            assert forall|d: int| 0 <= d < self.dense_indecies@.len()
                implies #[trigger] back_ok(self.dense_indecies@, self.sparse@, PAGE_SIZE, d) by {
                assert(back_ok(before.dense_indecies@, before.sparse@, PAGE_SIZE, d));
                assert(back_ok(
                    before.dense_indecies@,
                    before.sparse@,
                    PAGE_SIZE,
                    dense_index as int,
                ));
            }
            assert forall|p: int, o: int|
                0 <= p < self.sparse@.len() && 0 <= o < self.sparse@[p]@.len()
                    implies #[trigger] cell_ok(self.dense_indecies@, self.sparse@, p, o) by {
                assert(cell_ok(before.dense_indecies@, before.sparse@, p, o));
                assert(before.sparse@[p]@.len() == self.sparse@[p]@.len());
            }
            assert(self.keys() =~= swap_removed(before.keys(), dense_index as int));
            assert(self.values() =~= swap_removed(before.values(), dense_index as int));
            lemma_entries_swap_remove(before.keys(), before.values(), dense_index as int);
        }
    }

    /// Mutable access to the value bound to a key, or `None` for a key that
    /// is not bound. Writing through the reference changes that value and
    /// nothing else.
    pub fn get_mut(&mut self, index: usize) -> (r: Option<&mut T>)
        requires
            old(self).wf(),
        ensures
            r is Some <==> old(self)@.contains_key(index),
            final(self).wf(),
            final(self).keys() == old(self).keys(),
            final(self).page_count() == old(self).page_count(),
            forall|p: int| #[trigger] final(self).page_allocated(p) == old(self).page_allocated(p),
            match r {
                Some(m) => *m == old(self)@[index] && final(self).values()
                    == old(self).values().update(old(self).keys().index_of(index), *final(m))
                        && final(self)@
                    == old(self)@.insert(index, *final(m)),
                None => final(self).values() == old(self).values() && final(self)@ == old(self)@,
            },
    {
        match self.slot_of(index) {
            Some(dense_index) => {
                proof {
                    assert(self.keys().index_of(index) == dense_index);
                    assert forall|x: T|
                        entries_map(
                            self.keys(),
                            #[trigger] self.values().update(dense_index as int, x),
                        ) == self@.insert(index, x) by {
                        lemma_entries_update(self.keys(), self.values(), dense_index as int, x);
                    }
                }
                Some(&mut self.dense[dense_index])
            },
            None => None,
        }
    }

    /// The key in a dense slot.
    pub fn key_at(&self, slot: usize) -> (key: usize)
        requires
            self.wf(),
            slot < self.keys().len(),
        ensures
            key == self.keys()[slot as int],
    {
        proof {
            assert(back_ok(self.dense_indecies@, self.sparse@, PAGE_SIZE, slot as int));
            let r = self.dense_indecies@[slot as int];
            assert(r.sparse_page * PAGE_SIZE >= 0) by (nonlinear_arith)
                requires
                    r.sparse_page >= 0,
                    PAGE_SIZE >= 0,
            ;
        }
        let r = &self.dense_indecies[slot];
        r.sparse_page * PAGE_SIZE + r.sparse_index
    }

    /// The value in a dense slot.
    pub fn value_at(&self, slot: usize) -> (value: &T)
        requires
            self.wf(),
            slot < self.values().len(),
        ensures
            *value == self.values()[slot as int],
    {
        &self.dense[slot]
    }

    /// Mutable access to the value in a dense slot. Writing through the
    /// reference changes that value and nothing else.
    pub fn value_at_mut(&mut self, slot: usize) -> (value: &mut T)
        requires
            old(self).wf(),
            slot < old(self).values().len(),
        ensures
            *value == old(self).values()[slot as int],
            final(self).wf(),
            final(self).keys() == old(self).keys(),
            final(self).values() == old(self).values().update(slot as int, *final(value)),
            final(self)@ == old(self)@.insert(old(self).keys()[slot as int], *final(value)),
            final(self).page_count() == old(self).page_count(),
            forall|p: int| #[trigger] final(self).page_allocated(p) == old(self).page_allocated(p),
    {
        proof {
            assert forall|x: T|
                entries_map(self.keys(), #[trigger] self.values().update(slot as int, x))
                    == self@.insert(self.keys()[slot as int], x) by {
                lemma_entries_update(self.keys(), self.values(), slot as int, x);
            }
        }
        &mut self.dense[slot]
    }

    /// Every binding as a pair of key and value, in packing order.
    pub fn iter(&self) -> (r: Vec<(usize, &T)>)
        requires
            self.wf(),
        ensures
            r@.len() == self.keys().len(),
            forall|i: int|
                0 <= i < r@.len() ==> (#[trigger] r@[i]).0 == self.keys()[i] && *r@[i].1
                    == self.values()[i],
    {
        let mut r: Vec<(usize, &T)> = Vec::new();
        let mut slot: usize = 0;
        while slot < self.dense.len()
            invariant
                self.wf(),
                slot <= self.dense@.len(),
                r@.len() == slot,
                forall|i: int|
                    0 <= i < r@.len() ==> (#[trigger] r@[i]).0 == self.keys()[i] && *r@[i].1
                        == self.values()[i],
            decreases self.dense@.len() - slot,
        {
            let key: usize = self.key_at(slot);
            r.push((key, &self.dense[slot]));
            slot = slot + 1;
        }
        r
    }

    /// Every binding as a pair of key and mutable reference to the value, in
    /// packing order. Writing through a reference changes the value of its
    /// key and nothing else.
    pub fn iter_mut<'a>(&'a mut self) -> (r: Vec<(usize, &'a mut T)>)
        requires
            old(self).wf(),
        ensures
            r@.len() == old(self).keys().len(),
            forall|i: int|
                0 <= i < r@.len() ==> (#[trigger] r@[i]).0 == old(self).keys()[i] && *r@[i].1
                    == old(self).values()[i],
            final(self).wf(),
            final(self).keys() == old(self).keys(),
            final(self).page_count() == old(self).page_count(),
            forall|p: int| #[trigger] final(self).page_allocated(p) == old(self).page_allocated(p),
            final(self).values().len() == old(self).values().len(),
            forall|i: int|
                0 <= i < r@.len() ==> final(self).values()[i] == *final((#[trigger] r@[i]).1),
    {
        let mut keys: Vec<usize> = Vec::new();
        let mut slot: usize = 0;
        while slot < self.dense.len()
            invariant
                *self == *old(self),
                self.wf(),
                slot <= self.dense@.len(),
                keys@.len() == slot,
                forall|i: int| 0 <= i < slot ==> keys@[i] == self.keys()[i],
            decreases self.dense@.len() - slot,
        {
            let key: usize = self.key_at(slot);
            keys.push(key);
            slot = slot + 1;
        }
        pair_up(&keys, &mut self.dense)
    }

    /// Number of bound keys.
    pub fn len(&self) -> (n: usize)
        requires
            self.wf(),
        ensures
            n == self.keys().len(),
            n == self@.dom().len(),
    {
        proof {
            self.lemma_view_len();
        }
        self.dense.len()
    }
}

} // verus!
