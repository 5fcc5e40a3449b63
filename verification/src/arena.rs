//! Index-based arenas. A [`World`] hands out unique [`Id`]s; any number of
//! [`Arena`]s, all sharing the same marker type, store one value per id.
use std::marker::PhantomData;
use vstd::prelude::*;

verus! {

/// A type that can be used as an arena index: a copyable value with a maximum,
/// mapped one-to-one onto the `usize` values `0..=MAX`.
pub trait Index: Copy + Sized {
    /// The largest `usize` value this index type is used for.
    spec fn max_index() -> nat;

    /// The largest `usize` value this index type is used for.
    fn max() -> (r: usize)
        ensures
            r == Self::max_index(),
    ;

    /// The `usize` value that this index stands for.
    spec fn index_value(self) -> nat;

    /// Converts this value into a `usize`.
    fn into_usize(self) -> (r: usize)
        ensures
            r == self.index_value(),
    ;

    /// Constructs this value from a `usize` no larger than `MAX`.
    fn from_usize(index: usize) -> (r: Self)
        requires
            index <= Self::max_index(),
        ensures
            r.index_value() == index,
    ;

    /// Every index stands for a value no larger than `MAX`.
    proof fn lemma_index_bounded(a: Self)
        ensures
            a.index_value() <= Self::max_index(),
    ;
}

impl Index for u8 {
    open spec fn max_index() -> nat {
        255
    }

    fn max() -> (r: usize) {
        255
    }

    open spec fn index_value(self) -> nat {
        self as nat
    }

    fn into_usize(self) -> (r: usize) {
        self as usize
    }

    fn from_usize(index: usize) -> (r: Self) {
        index as u8
    }

    proof fn lemma_index_bounded(a: Self) {
    }
}

impl Index for u16 {
    open spec fn max_index() -> nat {
        65535
    }

    fn max() -> (r: usize) {
        65535
    }

    open spec fn index_value(self) -> nat {
        self as nat
    }

    fn into_usize(self) -> (r: usize) {
        self as usize
    }

    fn from_usize(index: usize) -> (r: Self) {
        index as u16
    }

    proof fn lemma_index_bounded(a: Self) {
    }
}

impl Index for u32 {
    open spec fn max_index() -> nat {
        4294967295
    }

    fn max() -> (r: usize) {
        4294967295
    }

    open spec fn index_value(self) -> nat {
        self as nat
    }

    fn into_usize(self) -> (r: usize) {
        self as usize
    }

    fn from_usize(index: usize) -> (r: Self) {
        index as u32
    }

    proof fn lemma_index_bounded(a: Self) {
    }
}

impl Index for u64 {
    open spec fn max_index() -> nat {
        usize::MAX as nat
    }

    fn max() -> (r: usize) {
        usize::MAX
    }

    open spec fn index_value(self) -> nat {
        (self as usize) as nat
    }

    fn into_usize(self) -> (r: usize) {
        self as usize
    }

    fn from_usize(index: usize) -> (r: Self) {
        index as u64
    }

    proof fn lemma_index_bounded(a: Self) {
    }
}

/// The default arena index type: most arenas do not need more than 2^32 elements.
pub type DefaultIndex = u32;

/// Whether `v` is a value that `T::default()` may return.
pub open spec fn is_default<T: Default>(v: T) -> bool {
    call_ensures(T::default, (), v)
}

/// The value of slot `i`: the stored value if the slot exists, else `fallback`.
pub open spec fn slot_value<T>(slots: Seq<T>, fallback: T, i: nat) -> T {
    if i < slots.len() {
        slots[i as int]
    } else {
        fallback
    }
}

/// `new` is `old` grown to at least `n` slots: the old slots are kept and every
/// new slot holds a default value.
pub open spec fn grown_to<T: Default>(old: Seq<T>, new: Seq<T>, n: nat) -> bool {
    &&& new.len() == if old.len() < n { n } else { old.len() }
    &&& forall|j: int| 0 <= j < old.len() ==> new[j] == old[j]
    &&& forall|j: int| old.len() <= j < new.len() ==> is_default(#[trigger] new[j])
}

/// `new` is `old` after storing `val` in slot `i`: grown to `i + 1` slots with
/// default values, and slot `i` replaced by `val`.
pub open spec fn stored_at<T: Default>(old: Seq<T>, new: Seq<T>, i: nat, val: T) -> bool {
    &&& new.len() == if old.len() <= i { i + 1 } else { old.len() }
    &&& new[i as int] == val
    &&& forall|j: int| 0 <= j < old.len() && j != i ==> new[j] == old[j]
    &&& forall|j: int| old.len() <= j < new.len() && j != i ==> is_default(#[trigger] new[j])
}

/// A unique index-based identifier for a value in an [`Arena`], with index type `I`
/// and marker type `M`, which keeps an [`Id`] from being used on the wrong [`Arena`].
#[derive(Debug)]
pub struct Id<M, I: Index = DefaultIndex>(I, PhantomData<M>);

impl<M, I: Index> View for Id<M, I> {
    type V = nat;

    /// The position this id designates.
    closed spec fn view(&self) -> nat {
        self.0.index_value()
    }
}

impl<M, I: Index> Clone for Id<M, I> {
    fn clone(&self) -> (r: Self)
        ensures
            r == *self,
    {
        *self
    }
}

impl<M, I: Index> Copy for Id<M, I> {
}

/// An id designates a position no larger than the index type's maximum.
pub proof fn lemma_id_bounded<M, I: Index>(id: Id<M, I>)
    ensures
        id@ <= I::max_index(),
{
    I::lemma_index_bounded(id.0);
}

/// Ids of the default index type that designate the same position are equal.
pub proof fn lemma_default_id_injective<M>(a: Id<M, DefaultIndex>, b: Id<M, DefaultIndex>)
    requires
        a@ == b@,
    ensures
        a == b,
{
}

impl<M, I: Index> PartialEq for Id<M, I> {
    fn eq(&self, other: &Self) -> (r: bool) {
        self.0.into_usize() == other.0.into_usize()
    }
}

impl<M, I: Index> vstd::std_specs::cmp::PartialEqSpecImpl for Id<M, I> {
    open spec fn obeys_eq_spec() -> bool {
        true
    }

    open spec fn eq_spec(&self, other: &Self) -> bool {
        self@ == other@
    }
}

impl<M, I: Index> Eq for Id<M, I> {
}

impl<M, I: Index> Id<M, I> {
    /// Borrows the value in `arena` at the slot of this id; a slot that was never
    /// filled reads as the arena's default value.
    pub fn get<T: Default>(self, arena: &Arena<M, T, I>) -> (r: &T)
        ensures
            *r == arena.value_at(self@),
    {
        let i = self.0.into_usize();
        if i < arena.buf.len() {
            &arena.buf[i]
        } else {
            &arena.default
        }
    }

    /// Mutably borrows the value in `arena` at the slot of this id, first growing
    /// the arena with default values so that the slot exists.
    pub fn get_mut<T: Default>(self, arena: &mut Arena<M, T, I>) -> (r: &mut T)
        ensures
            grown_to(old(arena).slots(), final(arena).slots().update(self@ as int, *r), self@ + 1),
            final(arena).slots()[self@ as int] == *final(r),
            final(arena).slots().len() > self@,
            final(arena).fallback() == old(arena).fallback(),
    {
        let i = self.0.into_usize();
        while arena.buf.len() <= i
            invariant
                grown_to(old(arena).slots(), arena.slots(), arena.slots().len()),
                arena.fallback() == old(arena).fallback(),
                arena.slots().len() <= i + 1 || arena.slots().len() == old(arena).slots().len(),
            decreases i + 1 - arena.buf.len(),
        {
            arena.buf.push(T::default());
        }
        &mut arena.buf[i]
    }

    /// Stores `val` in `arena` at the slot of this id, growing the arena with
    /// default values up to that slot; returns this id.
    pub fn put<T: Default>(self, arena: &mut Arena<M, T, I>, val: T) -> (r: Self)
        ensures
            r == self,
            stored_at(old(arena).slots(), final(arena).slots(), self@, val),
            final(arena).fallback() == old(arena).fallback(),
    {
        let i = self.0.into_usize();
        while arena.buf.len() < i
            invariant
                grown_to(old(arena).slots(), arena.slots(), arena.slots().len()),
                arena.fallback() == old(arena).fallback(),
                arena.slots().len() <= i || arena.slots().len() == old(arena).slots().len(),
            decreases i - arena.buf.len(),
        {
            arena.buf.push(T::default());
        }
        if arena.buf.len() == i {
            arena.buf.push(val);
        } else {
            arena.buf.set(i, val);
        }
        self
    }

    /// Takes the value out of the slot of this id, leaving a default value there.
    pub fn take<T: Default>(self, arena: &mut Arena<M, T, I>) -> (r: T)
        ensures
            self@ < old(arena).slots().len() ==> r == old(arena).slots()[self@ as int],
            self@ >= old(arena).slots().len() ==> is_default(r),
            final(arena).slots().len() == if old(arena).slots().len() <= self@ {
                self@ + 1
            } else {
                old(arena).slots().len()
            },
            is_default(final(arena).slots()[self@ as int]),
            forall|j: int|
                0 <= j < old(arena).slots().len() && j != self@ ==> final(arena).slots()[j]
                    == old(arena).slots()[j],
            forall|j: int|
                old(arena).slots().len() <= j < final(arena).slots().len() ==> is_default(
                    #[trigger] final(arena).slots()[j],
                ),
            final(arena).fallback() == old(arena).fallback(),
    {
        let i = self.0.into_usize();
        while arena.buf.len() <= i
            invariant
                grown_to(old(arena).slots(), arena.slots(), arena.slots().len()),
                arena.fallback() == old(arena).fallback(),
                arena.slots().len() <= i + 1 || arena.slots().len() == old(arena).slots().len(),
            decreases i + 1 - arena.buf.len(),
        {
            arena.buf.push(T::default());
        }
        let mut out = T::default();
        std::mem::swap(&mut out, &mut arena.buf[i]);
        out
    }

    /// Constructs the id for position `index`, which must be one the index type
    /// can represent (below 256 for an 8-bit index).
    pub fn new(index: usize) -> (r: Self)
        requires
            index <= I::max_index(),
        ensures
            r@ == index,
    {
        Id(I::from_usize(index), PhantomData)
    }

    /// The position this id designates.
    pub fn index(self) -> (r: usize)
        ensures
            r == self@,
    {
        self.0.into_usize()
    }

    /// The id of the following position, if the index type can represent it.
    pub fn next(self) -> (r: Option<Self>)
        ensures
            r is Some <==> self@ + 1 <= I::max_index(),
            r matches Some(n) ==> n@ == self@ + 1,
    {
        let i = self.0.into_usize();
        let max = I::max();
        if i == usize::MAX {
            return None;
        }
        let index = i + 1;
        if index > max {
            return None;
        }
        Some(Id(I::from_usize(index), PhantomData))
    }

    /// The id of the preceding position, if there is one.
    pub fn prev(self) -> (r: Option<Self>)
        ensures
            r is Some <==> self@ > 0,
            r matches Some(p) ==> p@ == self@ - 1,
    {
        let i = self.0.into_usize();
        if i == 0 {
            return None;
        }
        proof {
            I::lemma_index_bounded(self.0);
        }
        Some(Id(I::from_usize(i - 1), PhantomData))
    }
}

/// Hands out unique, consecutive [`Id`]s, starting at position 0.
pub struct World<M, I: Index = DefaultIndex> {
    next_index: usize,
    has_space: bool,
    _phantom: (PhantomData<M>, PhantomData<I>),
}

impl<M, I: Index> World<M, I> {
    /// The number of ids handed out so far.
    pub closed spec fn allocated(&self) -> nat {
        self.next_index as nat
    }

    /// Whether another id can still be handed out.
    pub closed spec fn has_space(&self) -> bool {
        self.has_space
    }

    /// The world's internal consistency: ids `0..allocated()` have been handed out,
    /// and there is space left exactly while position `allocated()` is at most the
    /// maximum (with no space at all where the maximum is 0).
    pub closed spec fn wf(&self) -> bool {
        &&& self.next_index <= I::max_index() + 1
        &&& self.has_space == if self.next_index == 0 {
            I::max_index() != 0
        } else {
            self.next_index <= I::max_index()
        }
    }

    /// Constructs a world that has handed out no id yet.
    pub fn new() -> (r: Self)
        ensures
            r.wf(),
            r.allocated() == 0,
            r.has_space() == (I::max_index() != 0),
    {
        World { next_index: 0, has_space: I::max() != 0, _phantom: (PhantomData, PhantomData) }
    }

    /// Hands out the next id: the one at position `allocated()`.
    pub fn allocate(&mut self) -> (r: Id<M, I>)
        requires
            old(self).wf(),
            old(self).has_space(),
            old(self).allocated() < usize::MAX,
        ensures
            final(self).wf(),
            r@ == old(self).allocated(),
            final(self).allocated() == old(self).allocated() + 1,
            final(self).has_space() == (old(self).allocated() + 1 <= I::max_index()),
    {
        let index = self.next_index;
        self.next_index = self.next_index + 1;
        self.has_space = index != I::max();
        Id(I::from_usize(index), PhantomData)
    }

    /// The ids handed out so far, in order.
    pub fn iter(&self) -> (r: Vec<Id<M, I>>)
        requires
            self.wf(),
        ensures
            r@.len() == self.allocated(),
            forall|k: int| 0 <= k < r@.len() ==> (#[trigger] r@[k])@ == k,
    {
        let mut out: Vec<Id<M, I>> = Vec::new();
        let mut idx: usize = 0;
        while idx < self.next_index
            invariant
                self.wf(),
                idx <= self.next_index,
                out@.len() == idx,
                forall|k: int| 0 <= k < out@.len() ==> (#[trigger] out@[k])@ == k,
            decreases self.next_index - idx,
        {
            out.push(Id(I::from_usize(idx), PhantomData));
            idx = idx + 1;
        }
        out
    }

    /// The number of ids handed out so far.
    pub fn num_allocs(&self) -> (r: usize)
        ensures
            r == self.allocated(),
    {
        self.next_index
    }
}

/// How much room a consistent world has left: at most `max + 1` ids are ever
/// handed out, and another one can be while fewer than that were (none at all
/// where the maximum is 0).
pub proof fn lemma_world_space<M, I: Index>(w: World<M, I>)
    requires
        w.wf(),
    ensures
        w.allocated() <= I::max_index() + 1,
        w.has_space() == (w.allocated() <= I::max_index() && (w.allocated() > 0
            || I::max_index() > 0)),
{
}

impl<M, I: Index> Default for World<M, I> {
    fn default() -> (r: Self)
        ensures
            r.wf(),
            r.allocated() == 0,
    {
        Self::new()
    }
}

/// Stores one value of type `T` per [`Id`] in a [`Vec`]; slots that were never
/// filled read as a default value.
pub struct Arena<M, T: Default, I: Index = DefaultIndex> {
    buf: Vec<T>,
    default: T,
    _phantom: (PhantomData<I>, PhantomData<M>),
}

impl<M, T: Default, I: Index> Arena<M, T, I> {
    /// Slots beyond the filled ones read as a default value; every constructor
    /// establishes this and no operation changes the fallback value.
    pub open spec fn wf(&self) -> bool {
        is_default(self.fallback())
    }

    /// The slots filled so far, position by position.
    pub closed spec fn slots(&self) -> Seq<T> {
        self.buf@
    }

    /// The value that slots beyond the filled ones read as.
    pub closed spec fn fallback(&self) -> T {
        self.default
    }

    /// The value that slot `i` reads as.
    pub open spec fn value_at(&self, i: nat) -> T {
        slot_value(self.slots(), self.fallback(), i)
    }

    /// Constructs an empty arena.
    pub fn new() -> (r: Self)
        ensures
            r.slots() == Seq::<T>::empty(),
            r.wf(),
    {
        Arena { buf: Vec::new(), default: T::default(), _phantom: (PhantomData, PhantomData) }
    }

    /// The number of slots filled so far.
    pub fn num_allocs(&self) -> (r: usize)
        ensures
            r == self.slots().len(),
    {
        self.buf.len()
    }

    /// The ids of the slots filled so far, in order.
    pub fn iter(&self) -> (r: Vec<Id<M, I>>)
        requires
            self.slots().len() <= I::max_index() + 1,
        ensures
            r@.len() == self.slots().len(),
            forall|k: int| 0 <= k < r@.len() ==> (#[trigger] r@[k])@ == k,
    {
        let mut out: Vec<Id<M, I>> = Vec::new();
        let mut idx: usize = 0;
        let n = self.buf.len();
        while idx < n
            invariant
                n == self.slots().len(),
                n <= I::max_index() + 1,
                idx <= n,
                out@.len() == idx,
                forall|k: int| 0 <= k < out@.len() ==> (#[trigger] out@[k])@ == k,
            decreases n - idx,
        {
            out.push(Id(I::from_usize(idx), PhantomData));
            idx = idx + 1;
        }
        out
    }
}

/// Storing a value in one slot leaves every other slot reading as before, up to
/// the choice among default values for slots that were not filled yet.
pub proof fn lemma_stored_at_frame<M, T: Default, I: Index>(
    old: Arena<M, T, I>,
    new: Arena<M, T, I>,
    i: nat,
    v: T,
    j: nat,
)
    requires
        old.wf(),
        stored_at(old.slots(), new.slots(), i, v),
        new.fallback() == old.fallback(),
        j != i,
    ensures
        j < old.slots().len() ==> new.value_at(j) == old.value_at(j),
        j >= old.slots().len() ==> is_default(new.value_at(j)) && is_default(old.value_at(j)),
{
    if j >= old.slots().len() && j < new.slots().len() {
        assert(is_default(new.slots()[j as int]));
    }
}

/// Growing an arena leaves every slot reading as before, up to the choice among
/// default values for slots that were not filled yet.
pub proof fn lemma_grown_to_frame<M, T: Default, I: Index>(
    old: Arena<M, T, I>,
    new_slots: Seq<T>,
    n: nat,
    j: nat,
)
    requires
        old.wf(),
        grown_to(old.slots(), new_slots, n),
    ensures
        j < old.slots().len() ==> slot_value(new_slots, old.fallback(), j) == old.value_at(j),
        j >= old.slots().len() ==> is_default(slot_value(new_slots, old.fallback(), j))
            && is_default(old.value_at(j)),
{
    if j >= old.slots().len() && j < new_slots.len() {
        assert(is_default(new_slots[j as int]));
    }
}

/// A default optional value is `None`.
pub proof fn lemma_default_option<T>(o: Option<T>)
    ensures
        is_default(o) ==> o is None,
{
}

impl<M, T: Default, I: Index> Default for Arena<M, T, I> {
    fn default() -> (r: Self)
        ensures
            r.slots() == Seq::<T>::empty(),
            r.wf(),
    {
        Self::new()
    }
}

/// A value put into a slot is what the slot then reads as, and every other
/// slot reads as before (a slot not filled before reads as a default value
/// both before and after).
pub proof fn law_put_then_get<M, T: Default, I: Index>(old: Arena<M, T, I>, new: Arena<M, T, I>, i: nat, v: T, j: nat)
    requires
        old.wf(),
        stored_at(old.slots(), new.slots(), i, v),
        new.fallback() == old.fallback(),
    ensures
        new.value_at(i) == v,
        j != i && j < old.slots().len() ==> new.value_at(j) == old.value_at(j),
        j != i && j >= old.slots().len() ==> is_default(new.value_at(j)) && is_default(old.value_at(j)),
        new.slots().len() == if old.slots().len() <= i { i + 1 } else { old.slots().len() },
{
    if j != i {
        lemma_stored_at_frame(old, new, i, v, j);
    }
}


/// One past the largest of `idx` (zero for none): the number of slots an
/// arena that started empty has after its slots at `idx` were written, read
/// mutably or taken.
pub open spec fn one_past_max(idx: Seq<nat>) -> nat
    decreases idx.len(),
{
    if idx.len() == 0 {
        0
    } else {
        let rest = one_past_max(idx.drop_last());
        if rest <= idx.last() {
            idx.last() + 1
        } else {
            rest
        }
    }
}

/// An arena that starts empty and whose slots at `idx` are then written, read
/// mutably or taken, in that order (each step grows it to the slot, as `put`,
/// `get_mut` and `take` state; reads change nothing), ends with one slot past
/// the largest of `idx`, and none when `idx` is empty.
pub proof fn law_num_allocs_is_one_past_max<M, T: Default, I: Index>(arenas: Seq<Arena<M, T, I>>, idx: Seq<nat>)
    requires
        arenas.len() == idx.len() + 1,
        arenas[0].slots().len() == 0,
        forall|k: int|
            0 <= k < idx.len() ==> (#[trigger] arenas[k + 1]).slots().len() == if arenas[k].slots().len() <= idx[k] {
                idx[k] + 1
            } else {
                arenas[k].slots().len()
            },
    ensures
        arenas.last().slots().len() == one_past_max(idx),
    decreases idx.len(),
{
    if idx.len() > 0 {
        let k = idx.len() - 1;
        let front = arenas.drop_last();
        assert forall|j: int| 0 <= j < idx.drop_last().len() implies (#[trigger] front[j + 1]).slots().len() == if front[j].slots().len() <= idx.drop_last()[j] {
            idx.drop_last()[j] + 1
        } else {
            front[j].slots().len()
        } by {
            assert(arenas[j + 1] == front[j + 1]);
        }
        law_num_allocs_is_one_past_max(front, idx.drop_last());
        assert(arenas[k + 1] == arenas.last());
    }
}

/// A world that starts empty hands out, call after call, the ids `0, 1, 2, ...`
/// in order, each different from every earlier one, and has handed out as many
/// as there were calls; where the maximum index is above 0, it has space for
/// another exactly while fewer than `max + 1` ids were handed out.
pub proof fn law_allocate_in_order<M, I: Index>(worlds: Seq<World<M, I>>, ids: Seq<Id<M, I>>)
    requires
        worlds.len() == ids.len() + 1,
        worlds[0].allocated() == 0,
        forall|k: int|
            0 <= k < ids.len() ==> (#[trigger] ids[k])@ == worlds[k].allocated() && worlds[k + 1].allocated()
                == worlds[k].allocated() + 1,
    ensures
        forall|k: int| 0 <= k < ids.len() ==> (#[trigger] ids[k])@ == k,
        forall|j: int, k: int| 0 <= j < k < ids.len() ==> (#[trigger] ids[j])@ != (#[trigger] ids[k])@,
        worlds.last().allocated() == ids.len(),
        I::max_index() > 0 ==> forall|k: int|
            0 <= k < worlds.len() && (#[trigger] worlds[k]).wf() ==> (worlds[k].has_space() <==> worlds[k].allocated()
                <= I::max_index()),
    decreases ids.len(),
{
    if ids.len() > 0 {
        let front = worlds.drop_last();
        let first = ids.drop_last();
        assert forall|k: int| 0 <= k < first.len() implies (#[trigger] first[k])@ == front[k].allocated() && front[k + 1].allocated()
            == front[k].allocated() + 1 by {
            assert(first[k] == ids[k]);
            assert(front[k + 1] == worlds[k + 1]);
        }
        law_allocate_in_order(front, first);
        assert forall|k: int| 0 <= k < ids.len() implies (#[trigger] ids[k])@ == k by {
            if k < first.len() {
                assert(first[k] == ids[k]);
            } else {
                assert(worlds[k] == front.last());
            }
        }
        let n = ids.len() - 1;
        assert(front.last() == worlds[n]);
        assert(ids[n]@ == worlds[n].allocated());
        assert(worlds[ids.len() as int] == worlds.last());
    } else {
        assert(worlds.last() == worlds[0]);
    }
}

} // verus!
