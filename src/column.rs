//! The column itself: an owned byte buffer holding `capacity` slots of one
//! element layout, of which the first `len` are live.
use crate::layout::ItemLayout;
use crate::model::ColumnView;
use vstd::arithmetic::power2::is_pow2;
use vstd::arithmetic::div_mod::{lemma_fundamental_div_mod, lemma_mod_pos_bound};
use vstd::prelude::*;
use vstd::slice::slice_subrange;

verus! {

/// The bytes of slot `i` in a buffer of `size`-byte slots.
pub open spec fn slot(data: Seq<u8>, size: int, i: int) -> Seq<u8> {
    data.subrange(i * size, i * size + size)
}

/// Slot `i` lies inside a buffer of `n` slots.
proof fn lemma_slot_in_bounds(i: int, n: int, size: int)
    requires
        0 <= i < n,
        0 <= size,
    ensures
        0 <= i * size,
        i * size + size <= n * size,
{
    assert(0 <= i * size) by (nonlinear_arith)
        requires
            0 <= i,
            0 <= size,
    ;
    assert(i * size + size <= n * size) by (nonlinear_arith)
        requires
            0 <= i < n,
            0 <= size,
    ;
}

/// The first `len` slots take no more bytes than `cap` slots.
proof fn lemma_prefix_bytes(len: int, cap: int, size: int)
    requires
        0 <= len <= cap,
        0 <= size,
    ensures
        len * size <= cap * size,
{
    assert(len * size <= cap * size) by (nonlinear_arith)
        requires
            0 <= len <= cap,
            0 <= size,
    ;
}

/// Two different slots do not overlap.
proof fn lemma_slots_apart(i: int, j: int, size: int)
    requires
        0 <= i < j,
        0 <= size,
    ensures
        i * size + size <= j * size,
{
    assert(i * size + size <= j * size) by (nonlinear_arith)
        requires
            0 <= i < j,
            0 <= size,
    ;
}

/// `n` slots of the unpadded size take no more bytes than `n` padded slots.
proof fn lemma_unpadded_fits(layout: ItemLayout, n: int)
    requires
        layout.spec_align() > 0,
        layout.array_fits(n),
    ensures
        n * layout.spec_size() <= n * layout.padded_size(),
        n * layout.spec_size() <= isize::MAX,
{
    let s = layout.spec_size() as int;
    let a = layout.spec_align() as int;
    lemma_fundamental_div_mod(s + a - 1, a);
    lemma_mod_pos_bound(s + a - 1, a);
    let q = (s + a - 1) / a;
    assert(q * a == a * q) by (nonlinear_arith);
    assert(s <= q * a);
    assert(n * s <= n * (q * a)) by (nonlinear_arith)
        requires
            0 <= n,
            s <= q * a,
    ;
}

/// A valid layout has a positive alignment.
proof fn lemma_align_pos(layout: ItemLayout)
    requires
        ItemLayout::valid(layout.spec_size() as int, layout.spec_align() as int),
    ensures
        layout.spec_align() > 0,
{
    reveal(is_pow2);
}

/// Growing a buffer by appending bytes leaves the slots that lay inside the
/// old buffer as they were.
proof fn lemma_prefix_keeps_slots(old_data: Seq<u8>, new_data: Seq<u8>, size: int, len: int)
    requires
        0 <= size,
        0 <= len,
        len * size <= old_data.len() <= new_data.len(),
        new_data.subrange(0, old_data.len() as int) == old_data,
    ensures
        forall|i: int| 0 <= i < len ==> #[trigger] slot(new_data, size, i) == slot(old_data, size, i),
{
    assert forall|i: int| 0 <= i < len implies #[trigger] slot(new_data, size, i) == slot(old_data, size, i) by {
        lemma_slot_in_bounds(i, len, size);
        assert forall|k: int| 0 <= k < size implies #[trigger] slot(new_data, size, i)[k] == slot(old_data, size, i)[k] by {
            assert(new_data.subrange(0, old_data.len() as int)[i * size + k] == new_data[i * size + k]);
        }
        assert(slot(new_data, size, i) =~= slot(old_data, size, i));
    }
}

/// Copies `value` into `data` starting at byte `start`.
fn write_bytes(data: &mut Vec<u8>, start: usize, value: &[u8])
    requires
        start + value@.len() <= old(data)@.len(),
    ensures
        final(data)@.len() == old(data)@.len(),
        forall|p: int|
            0 <= p < old(data)@.len() ==> #[trigger] final(data)@[p] == if start <= p < start + value@.len() {
                value@[p - start]
            } else {
                old(data)@[p]
            },
{
    let total = data.len();
    let mut k: usize = 0;
    while k < value.len()
        invariant
            total == old(data)@.len(),
            k <= value@.len(),
            start + value@.len() <= old(data)@.len(),
            data@.len() == old(data)@.len(),
            forall|p: int|
                0 <= p < old(data)@.len() ==> #[trigger] data@[p] == if start <= p < start + k {
                    value@[p - start]
                } else {
                    old(data)@[p]
                },
        decreases value@.len() - k,
    {
        data[start + k] = value[k];
        k = k + 1;
    }
}

/// Exchanges the `n` bytes at `a` with the `n` bytes at `b`, where the first
/// run ends before the second begins.
fn swap_bytes(data: &mut Vec<u8>, a: usize, b: usize, n: usize)
    requires
        a + n <= b,
        b + n <= old(data)@.len(),
    ensures
        final(data)@.len() == old(data)@.len(),
        forall|p: int|
            0 <= p < old(data)@.len() ==> #[trigger] final(data)@[p] == if a <= p < a + n {
                old(data)@[p - a + b]
            } else if b <= p < b + n {
                old(data)@[p - b + a]
            } else {
                old(data)@[p]
            },
{
    let total = data.len();
    let mut k: usize = 0;
    while k < n
        invariant
            total == old(data)@.len(),
            k <= n,
            a + n <= b,
            b + n <= old(data)@.len(),
            data@.len() == old(data)@.len(),
            forall|p: int|
                0 <= p < old(data)@.len() ==> #[trigger] data@[p] == if a <= p < a + k {
                    old(data)@[p - a + b]
                } else if b <= p < b + k {
                    old(data)@[p - b + a]
                } else {
                    old(data)@[p]
                },
        decreases n - k,
    {
        let t = data[a + k];
        data[a + k] = data[b + k];
        data[b + k] = t;
        k = k + 1;
    }
}

/// After `v` is copied over slot `i`, slot `i` holds `v` and every other
/// slot keeps its bytes.
proof fn lemma_write_slot(old_data: Seq<u8>, new_data: Seq<u8>, size: int, n: int, i: int, v: Seq<u8>)
    requires
        0 <= i < n,
        0 <= size,
        v.len() == size,
        n * size <= old_data.len(),
        new_data.len() == old_data.len(),
        forall|p: int|
            0 <= p < old_data.len() ==> #[trigger] new_data[p] == if i * size <= p < i * size + size {
                v[p - i * size]
            } else {
                old_data[p]
            },
    ensures
        slot(new_data, size, i) == v,
        forall|j: int| 0 <= j < n && j != i ==> #[trigger] slot(new_data, size, j) == slot(old_data, size, j),
{
    lemma_slot_in_bounds(i, n, size);
    assert(slot(new_data, size, i) =~= v);
    assert forall|j: int| 0 <= j < n && j != i implies #[trigger] slot(new_data, size, j) == slot(old_data, size, j) by {
        lemma_slot_in_bounds(j, n, size);
        if j < i {
            lemma_slots_apart(j, i, size);
        } else {
            lemma_slots_apart(i, j, size);
        }
        assert(slot(new_data, size, j) =~= slot(old_data, size, j));
    }
}

/// After slots `i < j` exchange their bytes, slot `i` holds what slot `j`
/// held, and every slot other than the two keeps its bytes.
proof fn lemma_swap_slots(old_data: Seq<u8>, new_data: Seq<u8>, size: int, n: int, i: int, j: int)
    requires
        0 <= i < j < n,
        0 <= size,
        n * size <= old_data.len(),
        new_data.len() == old_data.len(),
        forall|p: int|
            0 <= p < old_data.len() ==> #[trigger] new_data[p] == if i * size <= p < i * size + size {
                old_data[p - i * size + j * size]
            } else if j * size <= p < j * size + size {
                old_data[p - j * size + i * size]
            } else {
                old_data[p]
            },
    ensures
        slot(new_data, size, i) == slot(old_data, size, j),
        forall|m: int| 0 <= m < n && m != i && m != j ==> #[trigger] slot(new_data, size, m) == slot(old_data, size, m),
{
    lemma_slot_in_bounds(i, n, size);
    lemma_slot_in_bounds(j, n, size);
    lemma_slots_apart(i, j, size);
    assert(slot(new_data, size, i) =~= slot(old_data, size, j));
    assert forall|m: int| 0 <= m < n && m != i && m != j implies #[trigger] slot(new_data, size, m) == slot(old_data, size, m) by {
        lemma_slot_in_bounds(m, n, size);
        if m < i {
            lemma_slots_apart(m, i, size);
        } else {
            lemma_slots_apart(i, m, size);
        }
        if m < j {
            lemma_slots_apart(m, j, size);
        } else {
            lemma_slots_apart(j, m, size);
        }
        assert(slot(new_data, size, m) =~= slot(old_data, size, m));
    }
}

/// A type-erased column: `capacity` slots of `item_layout.size()` bytes each,
/// the first `len` of them live.
pub struct Column {
    item_layout: ItemLayout,
    capacity: usize,
    len: usize,
    data: Vec<u8>,
}

impl View for Column {
    type V = ColumnView;

    closed spec fn view(&self) -> ColumnView {
        let size = self.item_layout.spec_size() as int;
        ColumnView {
            layout: self.item_layout,
            capacity: self.capacity as nat,
            items: Seq::new(self.len as nat, |i: int| slot(self.data@, size, i)),
        }
    }
}

impl Column {
    /// The bookkeeping of the buffer: a valid layout, no more live elements
    /// than slots, `capacity * size` bytes of storage, unbounded capacity for
    /// a zero-size layout and a valid array layout otherwise.
    pub closed spec fn wf(&self) -> bool {
        let size = self.item_layout.spec_size();
        &&& ItemLayout::valid(size as int, self.item_layout.spec_align() as int)
        &&& self.len <= self.capacity
        &&& self.data@.len() == self.capacity * size
        &&& self.capacity * size <= isize::MAX
        &&& size == 0 ==> self.capacity == usize::MAX
        &&& size > 0 ==> self.item_layout.array_fits(self.capacity as int)
    }

    /// The view of a well-formed column is well formed.
    proof fn lemma_view_wf(&self)
        requires
            self.wf(),
        ensures
            self@.wf(),
    {
        let size = self.item_layout.spec_size() as int;
        assert forall|i: int| 0 <= i < self@.len() implies (#[trigger] self@.items[i]).len() == size by {
            lemma_slot_in_bounds(i, self.capacity as int, size);
        }
    }

    /// A column whose bytes differ from `c`'s only in slot `index`, now
    /// holding `e`, has `e` as its element `index` whenever `e` is exactly
    /// one element long.
    proof fn lemma_slot_rewritten(c: Column, index: int, e: Seq<u8>)
        requires
            c.wf(),
            0 <= index < c.len,
        ensures
            forall|d: Column|
                #![trigger d.wf()]
                #![trigger d@]
                d.item_layout == c.item_layout && d.len == c.len && d.capacity == c.capacity && d.data@
                    == c.data@.subrange(0, index * c.item_layout.spec_size()) + (e + c.data@.subrange(
                    index * c.item_layout.spec_size() + c.item_layout.spec_size(),
                    c.data@.len() as int,
                )) && e.len() == c.item_layout.spec_size() ==> d.wf() && d@ == c@.replaced(index, e),
    {
        let size = c.item_layout.spec_size() as int;
        assert forall|d: Column|
            #![trigger d.wf()]
            #![trigger d@]
            d.item_layout == c.item_layout && d.len == c.len && d.capacity == c.capacity && d.data@
                == c.data@.subrange(0, index * size) + (e + c.data@.subrange(
                index * size + size,
                c.data@.len() as int,
            )) && e.len() == size implies d.wf() && d@ == c@.replaced(index, e) by {
            lemma_slot_in_bounds(index, c.capacity as int, size);
            lemma_prefix_bytes(c.len as int, c.capacity as int, size);
            assert forall|p: int| 0 <= p < c.data@.len() implies #[trigger] d.data@[p] == if index * size <= p < index * size + size {
                e[p - index * size]
            } else {
                c.data@[p]
            } by {}
            lemma_write_slot(c.data@, d.data@, size, c.len as int, index, e);
            assert(d@.items =~= c@.replaced(index, e).items);
        }
    }

    /// Creates an empty column for elements of `item_layout`, with room for
    /// `capacity` of them. A zero-size layout allocates nothing and has
    /// unbounded capacity.
    pub fn new(item_layout: ItemLayout, capacity: usize) -> (r: Column)
        requires
            item_layout.spec_size() == 0 || item_layout.array_fits(capacity as int),
        ensures
            r@ == ColumnView::fresh(item_layout, capacity as nat),
            r@.wf(),
            r.wf(),
    {
        proof {
            use_type_invariant(&item_layout);
        }
        if item_layout.size() == 0 {
            let column = Column { item_layout, capacity: usize::MAX, len: 0, data: Vec::new() };
            proof {
                column.lemma_view_wf();
                assert(column@.items =~= Seq::<Seq<u8>>::empty());
            }
            column
        } else {
            let mut column = Column { item_layout, capacity: 0, len: 0, data: Vec::new() };
            proof {
                assert(column@.items =~= Seq::<Seq<u8>>::empty());
            }
            column.reserve(capacity);
            column
        }
    }

    /// Makes room for at least `additional` more elements. When the free room
    /// already suffices nothing changes; otherwise the capacity grows to
    /// exactly the length plus `additional`, keeping every live element.
    pub fn reserve(&mut self, additional: usize)
        requires
            old(self).wf(),
            old(self)@.can_reserve(additional as nat),
        ensures
            final(self).wf(),
            final(self)@ == old(self)@.reserved(additional as nat),
            final(self)@.wf(),
            old(self)@.capacity - old(self)@.len() >= additional ==> *final(self) == *old(self),
    {
        let available = self.capacity - self.len;
        if available < additional {
            self.grow(additional - available);
            proof {
                assert(self@.items =~= old(self)@.items);
            }
        }
        proof {
            self.lemma_view_wf();
        }
    }

    /// Adds `increment` slots to the buffer, keeping the bytes of the old ones.
    fn grow(&mut self, increment: usize)
        requires
            old(self).wf(),
            increment > 0,
            old(self).item_layout.array_fits(old(self).capacity + increment),
        ensures
            final(self).wf(),
            final(self).item_layout == old(self).item_layout,
            final(self).len == old(self).len,
            final(self).capacity == old(self).capacity + increment,
            forall|i: int| 0 <= i < old(self).len ==> #[trigger] slot(final(self).data@, old(self).item_layout.spec_size() as int, i)
                == slot(old(self).data@, old(self).item_layout.spec_size() as int, i),
    {
        proof {
            lemma_align_pos(self.item_layout);
            lemma_unpadded_fits(self.item_layout, self.capacity + increment);
        }
        let new_capacity = self.capacity + increment;
        let new_bytes = new_capacity * self.item_layout.size();
        let ghost old_data = self.data@;
        self.data.resize(new_bytes, 0u8);
        proof {
            let size = self.item_layout.spec_size() as int;
            let old_capacity = old(self).capacity as int;
            assert(old_data.len() <= new_bytes) by (nonlinear_arith)
                requires
                    old_data.len() == old_capacity * size,
                    new_bytes == new_capacity * size,
                    old_capacity < new_capacity,
                    0 <= size,
            ;
            assert(self.len * size <= old_data.len()) by (nonlinear_arith)
                requires
                    old_data.len() == old_capacity * size,
                    self.len <= old_capacity,
                    0 <= size,
            ;
            assert(self.data@.subrange(0, old_data.len() as int) =~= old_data);
            lemma_prefix_keeps_slots(old_data, self.data@, size, self.len as int);
        }
        self.capacity = new_capacity;
    }

    /// Copies `value` over the element at `index`, running no clean-up of
    /// the bytes it held.
    pub fn initialize_unchecked(&mut self, index: usize, value: &[u8])
        requires
            old(self).wf(),
            index < old(self)@.len(),
            value@.len() == old(self)@.layout.spec_size(),
        ensures
            final(self).wf(),
            final(self)@ == old(self)@.replaced(index as int, value@),
    {
        self.write_slot(index, value);
    }

    /// Appends a copy of `value`, first making room for one more element.
    pub fn push(&mut self, value: &[u8])
        requires
            old(self).wf(),
            old(self)@.can_reserve(1),
            value@.len() == old(self)@.layout.spec_size(),
        ensures
            final(self).wf(),
            final(self)@ == old(self)@.pushed(value@),
    {
        self.reserve(1);
        let ghost reserved = self@;
        let index = self.len;
        self.len = self.len + 1;
        self.initialize_unchecked(index, value);
        proof {
            assert(self@.items =~= reserved.items.push(value@));
        }
    }

    /// Overwrites the element at `index` with a copy of `value`; the length,
    /// the capacity and every other element stay as they were.
    pub fn replace(&mut self, index: usize, value: &[u8])
        requires
            old(self).wf(),
            index < old(self)@.len(),
            value@.len() == old(self)@.layout.spec_size(),
        ensures
            final(self).wf(),
            final(self)@ == old(self)@.replaced(index as int, value@),
    {
        self.write_slot(index, value);
    }

    /// Removes the element at `index` by exchanging its bytes with those of
    /// the last element and shortening the column by one. The capacity is
    /// kept, and the former last element now stands at `index`.
    pub fn remove(&mut self, index: usize)
        requires
            old(self).wf(),
            index < old(self)@.len(),
        ensures
            final(self).wf(),
            final(self)@ == old(self)@.swap_removed(index as int),
    {
        let new_len = self.len - 1;
        let size = self.item_layout.size();
        if index != new_len {
            proof {
                lemma_slot_in_bounds(new_len as int, self.capacity as int, size as int);
                lemma_slots_apart(index as int, new_len as int, size as int);
                lemma_prefix_bytes(self.len as int, self.capacity as int, size as int);
            }
            let ghost old_data = self.data@;
            swap_bytes(&mut self.data, index * size, new_len * size, size);
            proof {
                lemma_swap_slots(old_data, self.data@, size as int, self.len as int, index as int, new_len as int);
            }
        }
        self.len = new_len;
        proof {
            assert(self@.items =~= old(self)@.swap_removed(index as int).items);
        }
    }

    /// The bytes of the element at `index`.
    pub fn get(&self, index: usize) -> (r: &[u8])
        requires
            self.wf(),
            index < self@.len(),
        ensures
            r@ == self@.items[index as int],
    {
        let size = self.item_layout.size();
        proof {
            lemma_slot_in_bounds(index as int, self.capacity as int, size as int);
        }
        slice_subrange(self.data.as_slice(), index * size, index * size + size)
    }

    /// The bytes of all live elements, one after another.
    pub fn get_ptr(&self) -> (r: &[u8])
        requires
            self.wf(),
        ensures
            r@.len() == self@.len() * self@.layout.spec_size(),
            forall|i: int| 0 <= i < self@.len() ==> #[trigger] slot(r@, self@.layout.spec_size() as int, i) == self@.items[i],
    {
        let size = self.item_layout.size();
        proof {
            lemma_prefix_bytes(self.len as int, self.capacity as int, size as int);
        }
        let r = slice_subrange(self.data.as_slice(), 0, self.len * size);
        proof {
            assert forall|i: int| 0 <= i < self@.len() implies #[trigger] slot(r@, size as int, i) == self@.items[i] by {
                lemma_slot_in_bounds(i, self.len as int, size as int);
                assert(slot(r@, size as int, i) =~= slot(self.data@, size as int, i));
            }
        }
        r
    }

    /// Mutable access to the bytes of the element at `index`. Whatever the
    /// caller leaves in the returned bytes becomes that element; nothing else
    /// changes. (A slice keeps its length, so the column stays well formed.)
    pub fn get_mut(&mut self, index: usize) -> (r: &mut [u8])
        requires
            old(self).wf(),
            index < old(self)@.len(),
        ensures
            r@ == old(self)@.items[index as int],
            final(r)@.len() == r@.len() ==> final(self).wf() && final(self)@ == old(self)@.replaced(
                index as int,
                final(r)@,
            ),
    {
        proof {
            self.lemma_view_wf();
        }
        let r = self.slot_mut(index);
        proof {
            Self::lemma_slot_rewritten(*old(self), index as int, final(r)@);
        }
        r
    }

    /// The bytes of slot `index`, borrowed mutably out of the buffer.
    fn slot_mut(&mut self, index: usize) -> (r: &mut [u8])
        requires
            old(self).wf(),
            index < old(self).len,
        ensures
            r@ == old(self)@.items[index as int],
            final(self).len == old(self).len,
            final(self).item_layout == old(self).item_layout,
            final(self).capacity == old(self).capacity,
            final(self).data@ == old(self).data@.subrange(0, index * old(self).item_layout.spec_size()) + (
            final(r)@ + old(self).data@.subrange(
                index * old(self).item_layout.spec_size() + old(self).item_layout.spec_size(),
                old(self).data@.len() as int,
            )),
    {
        let size = self.item_layout.size();
        proof {
            lemma_slot_in_bounds(index as int, self.capacity as int, size as int);
        }
        let whole = self.data.as_mut_slice();
        let (before, rest) = whole.split_at_mut(index * size);
        let (element, after) = rest.split_at_mut(size);
        proof {
            assert(has_resolved(before));
            assert(has_resolved(after));
        }
        element
    }

    /// Mutable access to the bytes of all live elements, one after another.
    /// Whatever the caller leaves in slot `i` of the returned bytes becomes
    /// element `i`; the layout, the capacity and the length are kept.
    pub fn get_ptr_mut(&mut self) -> (r: &mut [u8])
        requires
            old(self).wf(),
        ensures
            r@.len() == old(self)@.len() * old(self)@.layout.spec_size(),
            forall|i: int|
                0 <= i < old(self)@.len() ==> #[trigger] slot(r@, old(self)@.layout.spec_size() as int, i)
                    == old(self)@.items[i],
            final(r)@.len() == r@.len() ==> final(self).wf() && final(self)@ == (ColumnView {
                items: Seq::new(
                    old(self)@.len(),
                    |i: int| slot(final(r)@, old(self)@.layout.spec_size() as int, i),
                ),
                ..old(self)@
            }),
    {
        let size = self.item_layout.size();
        proof {
            lemma_prefix_bytes(self.len as int, self.capacity as int, size as int);
            assert forall|i: int| 0 <= i < self@.len() implies #[trigger] slot(
                self.data@.subrange(0, self.len * size),
                size as int,
                i,
            ) == self@.items[i] by {
                lemma_slot_in_bounds(i, self.len as int, size as int);
                assert(slot(self.data@.subrange(0, self.len * size), size as int, i) =~= slot(self.data@, size as int, i));
            }
        }
        let r = self.live_mut();
        proof {
            Self::lemma_live_rewritten(*old(self), final(r)@);
        }
        r
    }

    /// The bytes of the live slots, borrowed mutably out of the buffer.
    fn live_mut(&mut self) -> (r: &mut [u8])
        requires
            old(self).wf(),
        ensures
            r@ == old(self).data@.subrange(0, old(self).len * old(self).item_layout.spec_size()),
            final(self).len == old(self).len,
            final(self).item_layout == old(self).item_layout,
            final(self).capacity == old(self).capacity,
            final(self).data@ == final(r)@ + old(self).data@.subrange(
                old(self).len * old(self).item_layout.spec_size(),
                old(self).data@.len() as int,
            ),
    {
        let size = self.item_layout.size();
        proof {
            lemma_prefix_bytes(self.len as int, self.capacity as int, size as int);
        }
        let whole = self.data.as_mut_slice();
        let (live, spare) = whole.split_at_mut(self.len * size);
        proof {
            assert(has_resolved(spare));
        }
        live
    }

    /// A column whose bytes differ from `c`'s only in its live slots, now
    /// holding `e`, has the slots of `e` as its elements whenever `e` is as
    /// long as the live slots.
    proof fn lemma_live_rewritten(c: Column, e: Seq<u8>)
        requires
            c.wf(),
        ensures
            forall|d: Column|
                #![trigger d.wf()]
                #![trigger d@]
                d.item_layout == c.item_layout && d.len == c.len && d.capacity == c.capacity && d.data@
                    == e + c.data@.subrange(c.len * c.item_layout.spec_size(), c.data@.len() as int)
                    && e.len() == c.len * c.item_layout.spec_size() ==> d.wf() && d@ == (ColumnView {
                    items: Seq::new(c@.len(), |i: int| slot(e, c@.layout.spec_size() as int, i)),
                    ..c@
                }),
    {
        let size = c.item_layout.spec_size() as int;
        assert forall|d: Column|
            #![trigger d.wf()]
            #![trigger d@]
            d.item_layout == c.item_layout && d.len == c.len && d.capacity == c.capacity && d.data@
                == e + c.data@.subrange(c.len * size, c.data@.len() as int) && e.len() == c.len
                * size implies d.wf() && d@ == (ColumnView {
                items: Seq::new(c@.len(), |i: int| slot(e, size, i)),
                ..c@
            }) by {
            lemma_prefix_bytes(c.len as int, c.capacity as int, size);
            assert forall|i: int| 0 <= i < c.len implies #[trigger] slot(d.data@, size, i) == slot(e, size, i) by {
                lemma_slot_in_bounds(i, c.len as int, size);
                assert(slot(d.data@, size, i) =~= slot(e, size, i));
            }
            assert(d@.items =~= Seq::new(c@.len(), |i: int| slot(e, size, i)));
        }
    }

    /// The number of live elements.
    pub fn len(&self) -> (r: usize)
        ensures
            r == self@.len(),
    {
        self.len
    }

    /// Whether the column has no live element.
    pub fn is_empty(&self) -> (r: bool)
        ensures
            r == (self@.len() == 0),
    {
        self.len == 0
    }

    /// How many elements fit before the column must grow.
    pub fn capacity(&self) -> (r: usize)
        ensures
            r == self@.capacity,
    {
        self.capacity
    }

    /// The layout of one element.
    pub fn layout(&self) -> (r: ItemLayout)
        ensures
            r == self@.layout,
    {
        self.item_layout
    }

    /// Copies `value` into the slot of the live element `index`.
    fn write_slot(&mut self, index: usize, value: &[u8])
        requires
            old(self).wf(),
            index < old(self)@.len(),
            value@.len() == old(self)@.layout.spec_size(),
        ensures
            final(self).wf(),
            final(self)@ == old(self)@.replaced(index as int, value@),
    {
        let size = self.item_layout.size();
        proof {
            lemma_slot_in_bounds(index as int, self.capacity as int, size as int);
            lemma_prefix_bytes(self.len as int, self.capacity as int, size as int);
        }
        let ghost old_data = self.data@;
        write_bytes(&mut self.data, index * size, value);
        proof {
            lemma_write_slot(old_data, self.data@, size as int, self.len as int, index as int, value@);
            assert(self@.items =~= old(self)@.replaced(index as int, value@).items);
        }
    }
}

} // verus!
