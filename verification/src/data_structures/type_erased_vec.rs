//! A growable buffer of fixed-size byte records.
//!
//! The buffer knows the size and alignment of its elements and nothing else
//! about them: an element is a record of `size` bytes. It owns one block of
//! `capacity * size` bytes, of which the first `len * size` are live. What
//! type the bytes stand for is the caller's business, and the same caller
//! must read them as it wrote them.

use vstd::prelude::*;
use vstd::arithmetic::power2::pow2;
use vstd::arithmetic::power2::lemma_pow2_unfold;
use vstd::slice::slice_subrange;

verus! {

/// `p` doubled until it reaches `n`.
pub open spec fn doubled_up(p: nat, n: nat) -> nat
    decreases
        (if p < n {
            n - p
        } else {
            0
        }),
{
    if p >= n || p == 0 {
        p
    } else {
        doubled_up(2 * p, n)
    }
}

/// The least power of two that is at least `n`; 1 for `n == 0`.
pub open spec fn next_power_of_two(n: nat) -> nat {
    doubled_up(1, n)
}

/// Doubling a power of two up to `n` ends at a power of two that is at
/// least `n` and, if the start was below `2 * n`, below `2 * n`.
proof fn lemma_doubled_up(p: nat, n: nat, e: nat)
    requires
        p == pow2(e),
        n >= 1 ==> p < 2 * n,
    ensures
        doubled_up(p, n) >= p,
        doubled_up(p, n) >= n,
        exists|k: nat| doubled_up(p, n) == pow2(k),
        n >= 1 ==> doubled_up(p, n) < 2 * n,
    decreases
        (if p < n {
            n - p
        } else {
            0
        }),
{
    vstd::arithmetic::power2::lemma_pow2_pos(e);
    if p >= n {
    } else {
        lemma_pow2_unfold(e + 1);
        lemma_doubled_up(2 * p, n, e + 1);
    }
}

/// What makes `next_power_of_two(n)` the least power of two from `n` up: it
/// is a power of two, it is at least `n`, and half of it is less than `n`.
pub proof fn lemma_next_power_of_two(n: nat)
    ensures
        next_power_of_two(n) >= 1,
        next_power_of_two(n) >= n,
        exists|k: nat| next_power_of_two(n) == pow2(k),
        n >= 1 ==> next_power_of_two(n) < 2 * n,
{
    assert(pow2(0) == 1) by {
        vstd::arithmetic::power2::lemma2_to64();
    }
    lemma_doubled_up(1, n, 0);
}

/// Doubling never goes below where it started.
proof fn lemma_doubled_up_at_least(p: nat, n: nat)
    ensures
        doubled_up(p, n) >= p,
    decreases
        (if p < n {
            n - p
        } else {
            0
        }),
{
    if p >= n || p == 0 {
    } else {
        lemma_doubled_up_at_least(2 * p, n);
    }
}

/// The least power of two that is at least `n`.
pub fn round_up_to_power_of_two(n: usize) -> (p: usize)
    requires
        next_power_of_two(n as nat) <= usize::MAX,
    ensures
        p == next_power_of_two(n as nat),
{
    let mut p: usize = 1;
    while p < n
        invariant
            p >= 1,
            doubled_up(p as nat, n as nat) == next_power_of_two(n as nat),
            next_power_of_two(n as nat) <= usize::MAX,
        decreases
            (if p < n {
                n - p
            } else {
                0
            }),
    {
        proof {
            lemma_doubled_up_at_least(2 * (p as nat), n as nat);
        }
        p = p * 2;
    }
    p
}

/// Facts on the byte range of record `i` among `count` records of `size`
/// bytes.
pub proof fn lemma_record_range(i: int, count: int, size: int)
    requires
        0 <= i < count,
        0 <= size,
    ensures
        0 <= i * size,
        (i + 1) * size == i * size + size,
        (i + 1) * size <= count * size,
{
    assert(0 <= i * size) by (nonlinear_arith)
        requires
            0 <= i,
            0 <= size,
    ;
    assert((i + 1) * size == i * size + size) by (nonlinear_arith);
    assert((i + 1) * size <= count * size) by (nonlinear_arith)
        requires
            i + 1 <= count,
            0 <= size,
    ;
}

/// The records that a run of bytes holds: record `i` is the bytes from
/// `i * size` up to `(i + 1) * size`.
pub open spec fn records(bytes: Seq<u8>, size: nat, count: nat) -> Seq<Seq<u8>> {
    Seq::new(count, |i: int| bytes.subrange(i * size, (i + 1) * size))
}

/// A record of `size` zero bytes.
pub open spec fn zero_record(size: nat) -> Seq<u8> {
    Seq::new(size, |k: int| 0u8)
}

/// Size and alignment of the elements of a buffer, in bytes.
#[derive(Clone, Copy, PartialEq, Eq, Debug)]
pub struct ElementLayout {
    pub size: usize,
    pub align: usize,
}

impl ElementLayout {
    /// The layout of a value of type `T`.
    pub fn of<T>() -> (r: Self)
        ensures
            r.size == vstd::layout::size_of::<T>(),
            r.align == vstd::layout::align_of::<T>(),
    {
        Self { size: core::mem::size_of::<T>(), align: core::mem::align_of::<T>() }
    }
}

/// A growable buffer of records of one fixed size.
pub struct TypeErasedVec {
    data: Vec<u8>,
    layout: ElementLayout,
    len: usize,
    capacity: usize,
}

impl View for TypeErasedVec {
    type V = Seq<Seq<u8>>;

    /// The live records, first to last.
    closed spec fn view(&self) -> Seq<Seq<u8>> {
        records(self.data@, self.layout.size as nat, self.len as nat)
    }
}

impl TypeErasedVec {
    /// Size and alignment of the elements.
    pub closed spec fn spec_layout(&self) -> ElementLayout {
        self.layout
    }

    /// Number of records that the block has room for.
    pub closed spec fn spec_capacity(&self) -> nat {
        self.capacity as nat
    }

    /// The live bytes: the records one after the other.
    pub closed spec fn bytes(&self) -> Seq<u8> {
        self.data@.subrange(0, self.len * self.layout.size)
    }

    /// Validity: the block is `capacity` records long and the live records
    /// lie inside it.
    pub closed spec fn wf(&self) -> bool {
        &&& self.data@.len() == self.capacity * self.layout.size
        &&& self.data@.len() <= usize::MAX
        &&& self.len <= self.capacity
    }

    /// Whether a block for `count` records can be had: the capacity that
    /// `count` asks for, and its size in bytes, fit in `usize`.
    pub open spec fn fits(&self, count: int) -> bool {
        &&& 0 <= count
        &&& next_power_of_two(count as nat) <= usize::MAX
        &&& next_power_of_two(count as nat) * self.spec_layout().size <= usize::MAX
    }

    /// The capacity after room was made for `count` records in all: the
    /// capacity that is there where it is enough, and the next power of two
    /// of `count` where it is not.
    pub open spec fn grown_capacity(&self, count: int) -> nat {
        if count > self.spec_capacity() {
            next_power_of_two(count as nat)
        } else {
            self.spec_capacity()
        }
    }

    /// What a valid buffer's view looks like: as many records as `bytes()`
    /// holds, each of the element size.
    pub proof fn lemma_view(&self)
        requires
            self.wf(),
        ensures
            self@.len() <= self.spec_capacity(),
            self.bytes().len() == self@.len() * self.spec_layout().size,
            self@ == records(self.bytes(), self.spec_layout().size as nat, self@.len()),
            forall|i: int| 0 <= i < self@.len() ==>
                (#[trigger] self@[i]).len() == self.spec_layout().size,
    {
        let size = self.layout.size as int;
        assert(self.len * size <= self.capacity * size) by (nonlinear_arith)
            requires
                self.len <= self.capacity,
                0 <= size,
        ;
        assert forall|i: int| 0 <= i < self@.len() implies (#[trigger] self@[i]).len() == size
            && self@[i] == self.bytes().subrange(i * size, (i + 1) * size) by {
            lemma_record_range(i, self.len as int, size);
            assert(self.data@.subrange(i * size, (i + 1) * size) =~= self.bytes().subrange(
                i * size,
                (i + 1) * size,
            ));
        }
        assert(self@ =~= records(self.bytes(), size as nat, self@.len()));
    }

    /// An empty buffer for elements of the given layout. No block is allocated.
    pub fn with_layout(layout: ElementLayout) -> (r: Self)
        ensures
            r.wf(),
            r@ == Seq::<Seq<u8>>::empty(),
            r.spec_layout() == layout,
            r.spec_capacity() == 0,
    {
        let r = Self { data: Vec::new(), layout, len: 0, capacity: 0 };
        assert(0 * layout.size == 0) by (nonlinear_arith);
        assert(r.data.len() == 0);
        assert(r@ =~= Seq::<Seq<u8>>::empty());
        r
    }

    /// An empty buffer for elements with the layout of `T`.
    pub fn new<T>() -> (r: Self)
        ensures
            r.wf(),
            r@ == Seq::<Seq<u8>>::empty(),
            r.spec_layout().size == vstd::layout::size_of::<T>(),
            r.spec_layout().align == vstd::layout::align_of::<T>(),
            r.spec_capacity() == 0,
    {
        Self::with_layout(ElementLayout::of::<T>())
    }

    /// Whether a block for `additional` more records can be had, that is,
    /// whether [`Self::reserve`] may be called with this number.
    pub fn can_hold(&self, additional: usize) -> (r: bool)
        requires
            self.wf(),
        ensures
            r == self.fits(self@.len() as int + additional),
    {
        let ghost count = (self.len + additional) as nat;
        proof {
            lemma_next_power_of_two(count);
        }
        let needed: usize = match self.len.checked_add(additional) {
            Some(needed) => needed,
            None => {
                return false;
            },
        };
        let mut p: usize = 1;
        while p < needed
            invariant
                p >= 1,
                needed == count,
                count == self@.len() + additional,
                doubled_up(p as nat, count) == next_power_of_two(count),
            decreases
                (if p < needed {
                    needed - p
                } else {
                    0
                }),
        {
            if p > usize::MAX / 2 {
                proof {
                    lemma_doubled_up_at_least(2 * (p as nat), count);
                    assert(doubled_up(p as nat, count) == doubled_up(2 * (p as nat), count));
                }
                return false;
            }
            p = p * 2;
        }
        p.checked_mul(self.layout.size).is_some()
    }

    /// Makes room for `additional` more records. Where the capacity falls
    /// short, a block for the next power of two of the needed count takes the
    /// place of the old one, with the live bytes copied over. The records
    /// stay as they are.
    pub fn reserve(&mut self, additional: usize)
        requires
            old(self).wf(),
            old(self).fits(old(self)@.len() as int + additional),
        ensures
            final(self).wf(),
            final(self)@ == old(self)@,
            final(self).spec_layout() == old(self).spec_layout(),
            final(self).spec_capacity() == old(self).grown_capacity(
                old(self)@.len() as int + additional,
            ),
            final(self).spec_capacity() >= old(self)@.len() + additional,
    {
        proof {
            lemma_next_power_of_two((self.len + additional) as nat);
        }
        let new_len: usize = self.len + additional;
        if new_len > self.capacity {
            let size: usize = self.layout.size;
            let new_capacity: usize = round_up_to_power_of_two(new_len);
            let live: usize = self.live_bytes();
            let total: usize = new_capacity * size;
            proof {
                assert(self.len * size <= new_capacity * size) by (nonlinear_arith)
                    requires
                        self.len <= new_capacity,
                        0 <= size,
                ;
            }
            let mut block: Vec<u8> = Vec::new();
            let mut i: usize = 0;
            while i < live
                invariant
                    i <= live <= self.data@.len(),
                    block@ == self.data@.subrange(0, i as int),
                decreases live - i,
            {
                block.push(self.data[i]);
                assert(block@ =~= self.data@.subrange(0, i + 1));
                i = i + 1;
            }
            while i < total
                invariant
                    live <= i <= total,
                    live <= self.data@.len(),
                    block@.len() == i,
                    block@.subrange(0, live as int) == self.data@.subrange(0, live as int),
                decreases total - i,
            {
                let ghost before = block@;
                block.push(0);
                assert(block@.subrange(0, live as int) =~= before.subrange(0, live as int));
                i = i + 1;
            }
            let ghost before = *self;
            self.data = block;
            self.capacity = new_capacity;
            assert(self.data.len() == total);
            proof {
                assert forall|r: int| 0 <= r < self.len implies #[trigger] self@[r] == before@[r]
                by {
                    lemma_record_range(r, self.len as int, size as int);
                    assert(self.data@.subrange(r * size, (r + 1) * size) =~= self.data@.subrange(
                        0,
                        live as int,
                    ).subrange(r * size, (r + 1) * size));
                    assert(before.data@.subrange(r * size, (r + 1) * size)
                        =~= before.data@.subrange(0, live as int).subrange(
                        r * size,
                        (r + 1) * size,
                    ));
                }
                assert(self@ =~= before@);
            }
        }
    }

    /// Number of live bytes.
    fn live_bytes(&self) -> (n: usize)
        requires
            self.wf(),
        ensures
            n == self.len * self.layout.size,
            n <= self.data@.len(),
    {
        proof {
            assert(self.len * self.layout.size <= self.capacity * self.layout.size)
                by (nonlinear_arith)
                requires
                    self.len <= self.capacity,
                    0 <= self.layout.size,
            ;
        }
        self.len * self.layout.size
    }

    /// Appends one record of zero bytes and returns its index.
    pub fn emplace(&mut self) -> (index: usize)
        requires
            old(self).wf(),
            old(self).fits(old(self)@.len() as int + 1),
        ensures
            final(self).wf(),
            index == old(self)@.len(),
            final(self)@ == old(self)@.push(zero_record(old(self).spec_layout().size as nat)),
            final(self).spec_layout() == old(self).spec_layout(),
            final(self).spec_capacity() == old(self).grown_capacity(old(self)@.len() as int + 1),
    {
        self.reserve(1);
        let size: usize = self.layout.size;
        let index: usize = self.len;
        let start: usize = self.live_bytes();
        proof {
            lemma_record_range(index as int, self.capacity as int, size as int);
        }
        let ghost before = *self;
        let mut k: usize = 0;
        while k < size
            invariant
                k <= size,
                start == index * size,
                start + size <= self.data@.len(),
                self.data@.len() <= usize::MAX,
                self.data@.len() == before.data@.len(),
                self.data@.subrange(0, start as int) == before.data@.subrange(0, start as int),
                forall|j: int| start <= j < start + k ==> self.data@[j] == 0,
                self.layout == before.layout,
                self.len == before.len,
                self.capacity == before.capacity,
            decreases size - k,
        {
            let ghost prior = self.data@;
            self.data[start + k] = 0;
            assert(self.data@.subrange(0, start as int) =~= prior.subrange(0, start as int));
            k = k + 1;
        }
        self.len = self.len + 1;
        proof {
            let after = old(self)@.push(zero_record(size as nat));
            assert forall|r: int| 0 <= r < self.len implies #[trigger] self@[r] == after[r] by {
                lemma_record_range(r, self.len as int, size as int);
                if r < index {
                    lemma_record_range(r, index as int, size as int);
                    assert(self.data@.subrange(r * size, (r + 1) * size) =~= self.data@.subrange(
                        0,
                        start as int,
                    ).subrange(r * size, (r + 1) * size));
                    assert(before.data@.subrange(r * size, (r + 1) * size)
                        =~= before.data@.subrange(0, start as int).subrange(
                        r * size,
                        (r + 1) * size,
                    ));
                } else {
                    assert(self@[r] =~= zero_record(size as nat));
                }
            }
            assert(self@ =~= after);
        }
        index
    }

    /// Appends one record with the given bytes.
    pub fn push(&mut self, value: &[u8])
        requires
            old(self).wf(),
            old(self).fits(old(self)@.len() as int + 1),
            value@.len() == old(self).spec_layout().size,
        ensures
            final(self).wf(),
            final(self)@ == old(self)@.push(value@),
            final(self).spec_layout() == old(self).spec_layout(),
            final(self).spec_capacity() == old(self).grown_capacity(old(self)@.len() as int + 1),
    {
        let index: usize = self.emplace();
        self.write(index, value);
        assert(self@ =~= old(self)@.push(value@));
    }

    /// The bytes of record `index`.
    pub fn get(&self, index: usize) -> (r: &[u8])
        requires
            self.wf(),
            index < self@.len(),
        ensures
            r@ == self@[index as int],
    {
        let size: usize = self.layout.size;
        proof {
            lemma_record_range(index as int, self.len as int, size as int);
            lemma_record_range(index as int, self.capacity as int, size as int);
        }
        let start: usize = index * size;
        slice_subrange(self.data.as_slice(), start, start + size)
    }

    /// Overwrites record `index` with the given bytes. No other record changes.
    pub fn write(&mut self, index: usize, value: &[u8])
        requires
            old(self).wf(),
            index < old(self)@.len(),
            value@.len() == old(self).spec_layout().size,
        ensures
            final(self).wf(),
            final(self)@ == old(self)@.update(index as int, value@),
            final(self).spec_layout() == old(self).spec_layout(),
            final(self).spec_capacity() == old(self).spec_capacity(),
    {
        let size: usize = self.layout.size;
        proof {
            lemma_record_range(index as int, self.len as int, size as int);
            lemma_record_range(index as int, self.capacity as int, size as int);
        }
        let start: usize = index * size;
        let ghost before = *self;
        let mut k: usize = 0;
        while k < size
            invariant
                k <= size,
                size == value@.len(),
                start == index * size,
                start + size <= self.data@.len(),
                self.data@.len() <= usize::MAX,
                self.data@.len() == before.data@.len(),
                forall|j: int|
                    0 <= j < self.data@.len() && !(start <= j < start + k) ==> self.data@[j]
                        == before.data@[j],
                forall|j: int| start <= j < start + k ==> self.data@[j] == value@[j - start],
                self.layout == before.layout,
                self.len == before.len,
                self.capacity == before.capacity,
            decreases size - k,
        {
            self.data[start + k] = value[k];
            k = k + 1;
        }
        proof {
            let after = before@.update(index as int, value@);
            assert forall|r: int| 0 <= r < self.len implies #[trigger] self@[r] == after[r] by {
                lemma_record_range(r, self.len as int, size as int);
                lemma_record_range(r, self.capacity as int, size as int);
                if r == index {
                    assert(self@[r] =~= value@);
                } else {
                    lemma_records_apart(r, index as int, size as int);
                    assert(self@[r] =~= before@[r]);
                }
            }
            assert(self@ =~= after);
        }
    }

    /// Removes record `index` by moving the last record into its place. The
    /// order of the other records is kept, but for the one that moved.
    pub fn remove_swap_with_last(&mut self, index: usize)
        requires
            old(self).wf(),
            index < old(self)@.len(),
        ensures
            final(self).wf(),
            final(self)@ == old(self)@.update(index as int, old(self)@.last()).drop_last(),
            final(self).spec_layout() == old(self).spec_layout(),
            final(self).spec_capacity() == old(self).spec_capacity(),
    {
        let size: usize = self.layout.size;
        let last: usize = self.len - 1;
        let ghost before = *self;
        if index < last {
            proof {
                lemma_record_range(index as int, self.len as int, size as int);
                lemma_record_range(last as int, self.len as int, size as int);
                lemma_record_range(last as int, self.capacity as int, size as int);
                lemma_record_range(index as int, self.capacity as int, size as int);
                lemma_records_apart(index as int, last as int, size as int);
            }
            let from: usize = last * size;
            let to: usize = index * size;
            let mut k: usize = 0;
            while k < size
                invariant
                    k <= size,
                    from == last * size,
                    to == index * size,
                    to + size <= from,
                    from + size <= self.data@.len(),
                    self.data@.len() <= usize::MAX,
                    self.data@.len() == before.data@.len(),
                    forall|j: int|
                        0 <= j < self.data@.len() && !(to <= j < to + k) ==> self.data@[j]
                            == before.data@[j],
                    forall|j: int| to <= j < to + k ==>
                        self.data@[j] == before.data@[j - to + from],
                    self.layout == before.layout,
                    self.len == before.len,
                    self.capacity == before.capacity,
                decreases size - k,
            {
                let byte: u8 = self.data[from + k];
                self.data[to + k] = byte;
                k = k + 1;
            }
        }
        self.len = last;
        proof {
            let after = before@.update(index as int, before@.last()).drop_last();
            assert forall|r: int| 0 <= r < self.len implies #[trigger] self@[r] == after[r] by {
                lemma_record_range(r, before.len as int, size as int);
                lemma_record_range(r, self.capacity as int, size as int);
                lemma_record_range(last as int, before.len as int, size as int);
                if r == index {
                    assert(self@[r] =~= before@[last as int]);
                } else {
                    lemma_records_apart(r, index as int, size as int);
                    assert(self@[r] =~= before@[r]);
                }
            }
            assert(self@ =~= after);
        }
    }

    /// Forgets every record. The block and its capacity stay.
    pub fn clear(&mut self)
        requires
            old(self).wf(),
        ensures
            final(self).wf(),
            final(self)@ == Seq::<Seq<u8>>::empty(),
            final(self).spec_layout() == old(self).spec_layout(),
            final(self).spec_capacity() == old(self).spec_capacity(),
    {
        self.len = 0;
        assert(self@ =~= Seq::<Seq<u8>>::empty());
    }

    /// The live bytes, record after record.
    pub fn as_slice(&self) -> (r: &[u8])
        requires
            self.wf(),
        ensures
            r@ == self.bytes(),
    {
        let live: usize = self.live_bytes();
        slice_subrange(self.data.as_slice(), 0, live)
    }

    /// A copy of every live byte, in order.
    pub fn iter(&self) -> (r: Vec<u8>)
        requires
            self.wf(),
        ensures
            r@ == self.bytes(),
    {
        let live: usize = self.live_bytes();
        let mut r: Vec<u8> = Vec::new();
        let mut i: usize = 0;
        while i < live
            invariant
                i <= live <= self.data@.len(),
                r@ == self.data@.subrange(0, i as int),
            decreases live - i,
        {
            r.push(self.data[i]);
            assert(r@ =~= self.data@.subrange(0, i + 1));
            i = i + 1;
        }
        r
    }

    /// Number of live records.
    pub fn len(&self) -> (n: usize)
        ensures
            n == self@.len(),
    {
        self.len
    }

    /// Whether the buffer has no live record.
    pub fn is_empty(&self) -> (r: bool)
        ensures
            r == (self@.len() == 0),
    {
        self.len == 0
    }

    /// Number of records that the block has room for.
    pub fn capacity(&self) -> (n: usize)
        ensures
            n == self.spec_capacity(),
    {
        self.capacity
    }

    /// Size and alignment of the elements.
    pub fn layout(&self) -> (r: ElementLayout)
        ensures
            r == self.spec_layout(),
    {
        self.layout
    }
}

/// The byte ranges of two different records do not meet.
pub proof fn lemma_records_apart(i: int, j: int, size: int)
    requires
        0 <= i,
        0 <= j,
        i != j,
        0 <= size,
    ensures
        i < j ==> (i + 1) * size <= j * size,
        j < i ==> (j + 1) * size <= i * size,
{
    if i < j {
        assert((i + 1) * size <= j * size) by (nonlinear_arith)
            requires
                i + 1 <= j,
                0 <= size,
        ;
    } else {
        assert((j + 1) * size <= i * size) by (nonlinear_arith)
            requires
                j + 1 <= i,
                0 <= size,
        ;
    }
}

} // verus!
