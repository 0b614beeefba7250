//! A vector that grows to hold any index that is written.

use vstd::prelude::*;
use vstd::std_specs::iter::IteratorSpec;

verus! {

/// A vector whose indices can be written past its end: the gap is filled with copies of one value.
pub struct GrowableVec<T> {
    inner: Vec<T>,
    initor: T,
}

impl<T> View for GrowableVec<T> {
    type V = Seq<T>;

    closed spec fn view(&self) -> Seq<T> {
        self.inner@
    }
}

/// `after` is `before`, made longer where it has to be to hold `index`, every new item a copy of
/// `filler`.
pub open spec fn grown<T: Clone>(before: Seq<T>, after: Seq<T>, index: int, filler: T) -> bool {
    &&& after.len() == if index < before.len() {
        before.len() as int
    } else {
        index + 1
    }
    &&& forall|i: int| 0 <= i < before.len() ==> after[i] == before[i]
    &&& forall|i: int|
        before.len() <= i < after.len() ==> cloned::<T>(filler, #[trigger] after[i])
}

/// The first index of `items` that is vacant, or its length when none is.
pub open spec fn first_vacant<U>(items: Seq<Option<U>>, index: int) -> bool {
    &&& 0 <= index <= items.len()
    &&& index < items.len() ==> items[index] is None
    &&& forall|i: int| 0 <= i < index ==> items[i] is Some
}

impl<T> GrowableVec<T> {
    /// What a gap is filled with.
    pub closed spec fn filler(&self) -> T {
        self.initor
    }

    /// An empty vector that fills gaps with `default_value`.
    pub fn new(default_value: T) -> (v: Self)
        ensures
            v@ == Seq::<T>::empty(),
            v.filler() == default_value,
    {
        GrowableVec { inner: Vec::new(), initor: default_value }
    }

    /// The items, in order.
    pub fn iter(&self) -> (items: std::slice::Iter<'_, T>)
        ensures
            items.remaining() == self@.as_ref(),
    {
        self.inner.as_slice().iter()
    }

    /// The items, in order, to be changed in place.
    pub fn iter_mut(&mut self) -> (items: &mut [T])
        ensures
            items@ == old(self)@,
            final(items)@ == final(self)@,
            final(self).filler() == old(self).filler(),
    {
        self.inner.as_mut_slice()
    }

    /// How many items there are.
    pub fn len(&self) -> (n: usize)
        ensures
            n == self@.len(),
    {
        self.inner.len()
    }

    /// Whether there is no item.
    pub fn is_empty(&self) -> (empty: bool)
        ensures
            empty == (self@.len() == 0),
    {
        self.len() == 0
    }

    /// The items.
    pub fn into_vec(self) -> (items: Vec<T>)
        ensures
            items@ == self@,
    {
        self.inner
    }

    /// Replaces the item at an index that is there.
    pub fn replace(&mut self, index: usize, value: T)
        requires
            index < old(self)@.len(),
        ensures
            final(self)@ == old(self)@.update(index as int, value),
            final(self).filler() == old(self).filler(),
    {
        self.inner.set(index, value);
    }
}

impl<T: Clone> GrowableVec<T> {
    /// The item at `index`, to be changed in place; the vector is made longer to hold it.
    pub fn slot_mut(&mut self, index: usize) -> (slot: &mut T)
        requires
            index < usize::MAX,
        ensures
            exists|full: Seq<T>|
                {
                    &&& #[trigger] grown(old(self)@, full, index as int, old(self).filler())
                    &&& *slot == full[index as int]
                    &&& final(self)@ == full.update(index as int, *final(slot))
                },
            final(self).filler() == old(self).filler(),
    {
        while self.inner.len() <= index
            invariant
                index < usize::MAX,
                self.initor == old(self).initor,
                self.inner@.len() >= old(self).inner@.len(),
                self.inner@.len() > old(self).inner@.len() ==> self.inner@.len() <= index + 1,
                forall|i: int|
                    0 <= i < old(self).inner@.len() ==> self.inner@[i] == old(self).inner@[i],
                forall|i: int|
                    old(self).inner@.len() <= i < self.inner@.len() ==> cloned::<T>(
                        self.initor,
                        #[trigger] self.inner@[i],
                    ),
            decreases index + 1 - self.inner@.len(),
        {
            let item = self.initor.clone();
            self.inner.push(item);
        }
        assert(grown(old(self)@, self.inner@, index as int, old(self).filler()));
        &mut self.inner[index]
    }
}

impl<T> vstd::std_specs::core::IndexSpecImpl<usize> for GrowableVec<T> {
    open spec fn index_req(&self, index: &usize) -> bool {
        *index < self@.len()
    }
}

impl<T> std::ops::Index<usize> for GrowableVec<T> {
    type Output = T;

    fn index(&self, index: usize) -> (item: &T)
        ensures
            *item == self@[index as int],
    {
        &self.inner[index]
    }
}

impl<T: Clone> std::ops::IndexMut<usize> for GrowableVec<T> {
    fn index_mut(&mut self, index: usize) -> (slot: &mut T)
        requires
            index < usize::MAX,
        ensures
            exists|full: Seq<T>|
                {
                    &&& #[trigger] grown(old(self)@, full, index as int, old(self).filler())
                    &&& *slot == full[index as int]
                    &&& final(self)@ == full.update(index as int, *final(slot))
                },
            final(self).filler() == old(self).filler(),
    {
        self.slot_mut(index)
    }
}

impl<U: Clone> GrowableVec<Option<U>> {
    /// The first vacant item, to be changed in place; where none is vacant, one is added.
    pub fn first_empty(&mut self) -> (slot: &mut Option<U>)
        requires
            old(self)@.len() < usize::MAX,
        ensures
            exists|index: int, full: Seq<Option<U>>|
                {
                    &&& #[trigger] first_vacant(old(self)@, index)
                    &&& #[trigger] grown(old(self)@, full, index, old(self).filler())
                    &&& *slot == full[index]
                    &&& final(self)@ == full.update(index, *final(slot))
                },
            final(self).filler() == old(self).filler(),
    {
        let len: usize = self.inner.len();
        let mut index: usize = 0;
        while index < len && self.inner[index].is_some()
            invariant
                index <= len,
                len == self.inner@.len(),
                forall|i: int| 0 <= i < index ==> self.inner@[i] is Some,
            decreases len - index,
        {
            index = index + 1;
        }
        assert(first_vacant(self@, index as int));
        self.slot_mut(index)
    }

    /// Puts `value` into the first vacant item; where none is vacant, one is added.
    pub fn set_first_empty(&mut self, value: U) -> (slot: &mut Option<U>)
        requires
            old(self)@.len() < usize::MAX,
        ensures
            *slot == Some(value),
            exists|index: int|
                {
                    &&& #[trigger] first_vacant(old(self)@, index)
                    &&& final(self)@ == put_at(old(self)@, index, *final(slot))
                },
            final(self).filler() == old(self).filler(),
    {
        let slot = self.first_empty();
        *slot = Some(value);
        slot
    }
}

/// `items` with `value` at `index`, which is one of its indices or the next one.
pub open spec fn put_at<T>(items: Seq<T>, index: int, value: T) -> Seq<T> {
    if index < items.len() {
        items.update(index, value)
    } else {
        items.push(value)
    }
}

impl<T: Default> vstd::std_specs::convert::FromSpecImpl<Vec<T>> for GrowableVec<T> {
    /// The filler is whatever `T::default` hands out, so no single value is promised here.
    open spec fn obeys_from_spec() -> bool {
        false
    }

    open spec fn from_spec(value: Vec<T>) -> Self {
        arbitrary()
    }
}

impl<T: Default> From<Vec<T>> for GrowableVec<T> {
    fn from(value: Vec<T>) -> (v: Self)
        ensures
            v@ == value@,
            call_ensures(T::default, (), v.filler()),
    {
        GrowableVec { inner: value, initor: T::default() }
    }
}

impl<T> IntoIterator for GrowableVec<T> {
    type Item = T;

    type IntoIter = std::vec::IntoIter<T>;

    fn into_iter(self) -> (items: std::vec::IntoIter<T>)
        ensures
            items.remaining() == self@,
    {
        self.inner.into_iter()
    }
}

impl<T: Default> GrowableVec<T> {
    /// A vector of the items that an iterator hands out, in order.
    pub fn from_iter<I: Iterator<Item = T>>(iter: I) -> (v: Self)
        requires
            iter.obeys_prophetic_iter_laws(),
            iter.decrease() is Some,
        ensures
            v@ == iter.remaining(),
            call_ensures(T::default, (), v.filler()),
    {
        let ghost all = iter.remaining();
        let mut items = iter;
        let mut inner: Vec<T> = Vec::new();
        let mut more = true;
        assert(inner@ + items.remaining() == all);
        while more
            invariant
                items.obeys_prophetic_iter_laws(),
                items.decrease() is Some,
                inner@ + items.remaining() == all,
                !more ==> items.remaining().len() == 0,
            decreases (if more { 1int } else { 0int }), items.decrease()->0,
        {
            match items.next() {
                Some(item) => {
                    inner.push(item);
                },
                None => {
                    more = false;
                },
            }
        }
        assert(inner@ == all);
        GrowableVec { inner, initor: T::default() }
    }
}

/// What a vector is made of comes out of it again, in the same order and with nothing added, whether
/// it was made of a plain vector or of what an iterator hands out. `out` and `out_again` are what
/// [`IntoIterator::into_iter`] makes of the two.
pub proof fn law_items_come_back<T: Default, I: Iterator<Item = T>>(
    items: Vec<T>,
    iter: I,
    of_items: GrowableVec<T>,
    of_iter: GrowableVec<T>,
    back: Vec<T>,
    back_again: Vec<T>,
    out: std::vec::IntoIter<T>,
    out_again: std::vec::IntoIter<T>,
)
    requires
        call_ensures(<GrowableVec<T> as From<Vec<T>>>::from, (items,), of_items),
        call_ensures(GrowableVec::<T>::from_iter::<I>, (iter,), of_iter),
        call_ensures(GrowableVec::<T>::into_vec, (of_items,), back),
        call_ensures(GrowableVec::<T>::into_vec, (of_iter,), back_again),
        out.remaining() == of_items@,
        out_again.remaining() == of_iter@,
    ensures
        of_items@ == items@,
        of_iter@ == iter.remaining(),
        back@ == items@,
        back_again@ == iter.remaining(),
        out.remaining() == items@,
        out_again.remaining() == iter.remaining(),
{
}

/// A vector has one first vacant item: what stands before it is taken, and what is put into it takes
/// nothing away from the others.
pub proof fn law_first_vacant_is_the_first<U>(items: Seq<Option<U>>, index: int, value: U, i: int)
    requires
        first_vacant(items, index),
        0 <= i < items.len(),
    ensures
        items[i] is None ==> index <= i,
        items[i] is Some ==> put_at(items, index, Some(value))[i] == items[i],
        put_at(items, index, Some(value))[index] == Some(value),
        put_at(items, index, Some(value)).len() <= items.len() + 1,
        put_at(items, index, Some(value)).len() > items.len() ==> forall|j: int|
            0 <= j < items.len() ==> (#[trigger] items[j]) is Some,
{
}

/// A vector is made no longer than it must be to hold an index, keeps what it held, and fills the gap
/// with copies of one value.
pub proof fn law_growing_loses_nothing<T: Clone>(
    before: Seq<T>,
    after: Seq<T>,
    index: int,
    filler: T,
    i: int,
)
    requires
        0 <= index,
        grown(before, after, index, filler),
    ensures
        index < after.len(),
        before.len() <= after.len(),
        after.len() == before.len() || after.len() == index + 1,
        0 <= i < before.len() ==> after[i] == before[i],
        before.len() <= i < after.len() ==> cloned::<T>(filler, after[i]),
{
}

} // verus!
