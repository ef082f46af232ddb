//! The abstract state of a column and the effect of each operation on it.
use crate::layout::ItemLayout;
use vstd::prelude::*;

verus! {

/// What a column holds, seen from outside: its element layout, how many
/// elements fit before it must grow, and the bytes of each live element.
pub struct ColumnView {
    pub layout: ItemLayout,
    pub capacity: nat,
    pub items: Seq<Seq<u8>>,
}

impl ColumnView {
    /// A fresh column: no live elements; a zero-size layout has unbounded
    /// capacity, any other layout exactly the capacity asked for.
    pub open spec fn fresh(layout: ItemLayout, capacity: nat) -> ColumnView {
        ColumnView {
            layout,
            capacity: if layout.spec_size() == 0 { usize::MAX as nat } else { capacity },
            items: Seq::empty(),
        }
    }

    pub open spec fn len(self) -> nat {
        self.items.len()
    }

    /// The bookkeeping every column keeps: no more live elements than
    /// capacity, each element exactly one layout size long, unbounded
    /// capacity for a zero-size layout and a valid array layout otherwise.
    pub open spec fn wf(self) -> bool {
        &&& self.len() <= self.capacity
        &&& forall|i: int| 0 <= i < self.len() ==> (#[trigger] self.items[i]).len() == self.layout.spec_size()
        &&& self.layout.spec_size() == 0 ==> self.capacity == usize::MAX
        &&& self.layout.spec_size() > 0 ==> self.layout.array_fits(self.capacity as int)
    }

    /// Room for `additional` more elements exists already, or can be made
    /// without overflowing the element count or the array layout.
    pub open spec fn can_reserve(self, additional: nat) -> bool {
        self.capacity - self.len() >= additional || self.layout.array_fits((self.len() + additional) as int)
    }

    /// Reserving keeps everything when the free room suffices; otherwise the
    /// capacity becomes exactly the length plus the room asked for.
    pub open spec fn reserved(self, additional: nat) -> ColumnView {
        if self.capacity - self.len() >= additional {
            self
        } else {
            ColumnView { capacity: self.len() + additional, ..self }
        }
    }

    /// Pushing reserves room for one element and appends `v`.
    pub open spec fn pushed(self, v: Seq<u8>) -> ColumnView {
        let r = self.reserved(1);
        ColumnView { items: r.items.push(v), ..r }
    }

    /// Replacing sets the element at `i` to `v` and keeps everything else.
    pub open spec fn replaced(self, i: int, v: Seq<u8>) -> ColumnView {
        ColumnView { items: self.items.update(i, v), ..self }
    }

    /// Swap-removing moves the last element into slot `i` and drops the last
    /// slot; capacity is kept.
    pub open spec fn swap_removed(self, i: int) -> ColumnView {
        ColumnView { items: self.items.update(i, self.items.last()).drop_last(), ..self }
    }

    /// The result of pushing each of `vs` in order.
    pub open spec fn pushed_all(self, vs: Seq<Seq<u8>>) -> ColumnView
        decreases vs.len(),
    {
        if vs.len() == 0 {
            self
        } else {
            self.pushed_all(vs.drop_last()).pushed(vs.last())
        }
    }

    /// Every push of `vs`, made in order, finds room or can make it.
    pub open spec fn can_push_all(self, vs: Seq<Seq<u8>>) -> bool
        decreases vs.len(),
    {
        if vs.len() == 0 {
            true
        } else {
            self.can_push_all(vs.drop_last()) && self.pushed_all(vs.drop_last()).can_reserve(1)
        }
    }
}

/// Pushing appends: after pushing `vs` the elements are the old ones followed
/// by `vs`, and the layout is unchanged.
pub proof fn lemma_pushed_all_appends(m: ColumnView, vs: Seq<Seq<u8>>)
    ensures
        m.pushed_all(vs).items == m.items + vs,
        m.pushed_all(vs).layout == m.layout,
    decreases vs.len(),
{
    if vs.len() > 0 {
        lemma_pushed_all_appends(m, vs.drop_last());
        assert(m.items + vs =~= (m.items + vs.drop_last()).push(vs.last()));
    } else {
        assert(m.items + vs =~= m.items);
    }
}

/// Push and read round-trip: in a fresh column, after the first `i + 1`
/// values of `vs` have been pushed, element `i` holds exactly value `i`.
pub proof fn lemma_push_read_round_trip(layout: ItemLayout, capacity: nat, vs: Seq<Seq<u8>>, i: int)
    requires
        0 <= i < vs.len(),
    ensures
        ColumnView::fresh(layout, capacity).pushed_all(vs.take(i + 1)).items[i] == vs[i],
        ColumnView::fresh(layout, capacity).pushed_all(vs).items == vs,
{
    let m = ColumnView::fresh(layout, capacity);
    lemma_pushed_all_appends(m, vs.take(i + 1));
    lemma_pushed_all_appends(m, vs);
    assert(m.items + vs =~= vs);
}

/// Length bookkeeping: `k` pushes into a fresh column give length `k`; one
/// push adds one; one removal of a live element takes one away.
pub proof fn lemma_length_counts(layout: ItemLayout, capacity: nat, vs: Seq<Seq<u8>>, m: ColumnView, v: Seq<u8>, i: int)
    requires
        0 <= i < m.len(),
    ensures
        ColumnView::fresh(layout, capacity).pushed_all(vs).len() == vs.len(),
        m.pushed(v).len() == m.len() + 1,
        m.swap_removed(i).len() == m.len() - 1,
{
    lemma_pushed_all_appends(ColumnView::fresh(layout, capacity), vs);
}

/// Swap-removal moves the last element into slot `i`, drops the last slot and
/// leaves every other element where it was.
pub proof fn lemma_swap_remove_moves_last(m: ColumnView, i: int)
    requires
        0 <= i < m.len(),
    ensures
        m.swap_removed(i).len() == m.len() - 1,
        i < m.len() - 1 ==> m.swap_removed(i).items[i] == m.items.last(),
        forall|j: int| 0 <= j < m.len() - 1 && j != i ==> #[trigger] m.swap_removed(i).items[j] == m.items[j],
        m.swap_removed(i).capacity == m.capacity,
{
}

/// Pushing `a`, `b`, `c` and then removing element 0 leaves `c` then `b`.
pub proof fn lemma_swap_remove_three(layout: ItemLayout, capacity: nat, a: Seq<u8>, b: Seq<u8>, c: Seq<u8>)
    ensures
        ColumnView::fresh(layout, capacity).pushed_all(seq![a, b, c]).swap_removed(0).items == seq![c, b],
{
    let m = ColumnView::fresh(layout, capacity);
    lemma_pushed_all_appends(m, seq![a, b, c]);
    assert(m.pushed_all(seq![a, b, c]).items =~= seq![a, b, c]);
    assert(m.pushed_all(seq![a, b, c]).swap_removed(0).items =~= seq![c, b]);
}

/// Reserving no more than the free room changes nothing.
pub proof fn lemma_reserve_within_room(m: ColumnView, n: nat)
    requires
        m.capacity - m.len() >= n,
    ensures
        m.reserved(n) == m,
{
}

/// Pushing into a full column grows it by exactly one slot and keeps every
/// earlier element at its index.
pub proof fn lemma_growth_keeps_items(m: ColumnView, v: Seq<u8>)
    requires
        m.len() == m.capacity,
    ensures
        m.pushed(v).capacity == m.capacity + 1,
        m.pushed(v).items.take(m.len() as int) == m.items,
        m.pushed(v).items[m.len() as int] == v,
{
    assert(m.pushed(v).items.take(m.len() as int) =~= m.items);
}

/// A zero-size layout never needs to grow: any number of pushes up to
/// `usize::MAX` all find room, the length counts them, and the capacity stays
/// unbounded.
pub proof fn lemma_zero_size_unbounded(layout: ItemLayout, capacity: nat, vs: Seq<Seq<u8>>)
    requires
        layout.spec_size() == 0,
        vs.len() <= usize::MAX,
    ensures
        ColumnView::fresh(layout, capacity).can_push_all(vs),
        ColumnView::fresh(layout, capacity).pushed_all(vs).len() == vs.len(),
        ColumnView::fresh(layout, capacity).pushed_all(vs).capacity == usize::MAX,
    decreases vs.len(),
{
    let m = ColumnView::fresh(layout, capacity);
    lemma_pushed_all_appends(m, vs);
    if vs.len() > 0 {
        lemma_zero_size_unbounded(layout, capacity, vs.drop_last());
        lemma_pushed_all_appends(m, vs.drop_last());
    }
}

/// Replacing element `i` changes that element only: the length, the capacity
/// and every other element are kept.
pub proof fn lemma_replace_in_place(m: ColumnView, i: int, v: Seq<u8>)
    requires
        0 <= i < m.len(),
    ensures
        m.replaced(i, v).items[i] == v,
        m.replaced(i, v).len() == m.len(),
        m.replaced(i, v).capacity == m.capacity,
        forall|j: int| 0 <= j < m.len() && j != i ==> #[trigger] m.replaced(i, v).items[j] == m.items[j],
{
}

} // verus!
