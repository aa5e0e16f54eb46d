//! Small ordered lists in which every key occurs once.

use vstd::prelude::*;

verus! {

/// An item that is ordered and found by a number.
pub trait Keyed: Copy {
    /// The number that orders the item.
    spec fn spec_key(self) -> u128;

    /// The number that orders the item.
    fn key(&self) -> (key: u128)
        ensures
            key == self.spec_key(),
    ;
}

/// Whether the keys of `items` strictly ascend.
pub open spec fn ascending<T: Keyed>(items: Seq<T>) -> bool {
    forall|i: int, j: int|
        0 <= i < j < items.len() ==> (#[trigger] items[i]).spec_key() < (
        #[trigger] items[j]).spec_key()
}

/// Whether some item of `items` has this key.
pub open spec fn holds<T: Keyed>(items: Seq<T>, key: u128) -> bool {
    exists|i: int| 0 <= i < items.len() && (#[trigger] items[i]).spec_key() == key
}

/// `items` with `item` in its place, instead of the one with the same key if there is one.
pub open spec fn placed<T: Keyed>(items: Seq<T>, item: T) -> Seq<T>
    decreases items.len(),
{
    if items.len() == 0 {
        seq![item]
    } else if items.last().spec_key() < item.spec_key() {
        items.push(item)
    } else if items.last().spec_key() == item.spec_key() {
        items.drop_last().push(item)
    } else {
        placed(items.drop_last(), item).push(items.last())
    }
}

proof fn lemma_placed_over<T: Keyed>(items: Seq<T>, item: T, at: int)
    requires
        ascending(items),
        0 <= at < items.len(),
        items[at].spec_key() == item.spec_key(),
    ensures
        placed(items, item) == items.update(at, item),
    decreases items.len(),
{
    if at == items.len() - 1 {
        assert(items.drop_last().push(item) =~= items.update(at, item));
    } else {
        assert(items[at].spec_key() < items[items.len() - 1].spec_key());
        lemma_placed_over(items.drop_last(), item, at);
        assert(items.drop_last().update(at, item).push(items.last()) =~= items.update(at, item));
    }
}

proof fn lemma_placed_between<T: Keyed>(items: Seq<T>, item: T, at: int)
    requires
        0 <= at <= items.len(),
        forall|i: int| 0 <= i < at ==> (#[trigger] items[i]).spec_key() < item.spec_key(),
        forall|i: int| at <= i < items.len() ==> item.spec_key() < (#[trigger] items[i]).spec_key(),
    ensures
        placed(items, item) == items.insert(at, item),
    decreases items.len(),
{
    if items.len() == 0 {
        assert(items.insert(at, item) =~= seq![item]);
    } else if at == items.len() {
        assert(items.last() == items[at - 1]);
        assert(items.push(item) =~= items.insert(at, item));
    } else {
        assert(items.last() == items[items.len() - 1]);
        lemma_placed_between(items.drop_last(), item, at);
        assert(items.drop_last().insert(at, item).push(items.last()) =~= items.insert(at, item));
    }
}

/// Placing an item keeps the order, adds the item, keeps every item with another key and drops
/// the one with the same key.
pub proof fn law_placed_keeps_order_and_items<T: Keyed>(items: Seq<T>, item: T)
    requires
        ascending(items),
    ensures
        ascending(placed(items, item)),
        forall|other: T| #[trigger]
            placed(items, item).contains(other) <==> other == item || items.contains(other)
                && other.spec_key() != item.spec_key(),
        placed(items, item).len() == items.len() + if holds(items, item.spec_key()) {
            0int
        } else {
            1
        },
    decreases items.len(),
{
    let now = placed(items, item);
    if items.len() == 0 {
        assert(now[0] == item);
        assert forall|other: T| #[trigger] now.contains(other) <==> other == item
            || items.contains(other) && other.spec_key() != item.spec_key() by {}
    } else {
        let last = items.last();
        let front = items.drop_last();
        assert(ascending(front));
        assert forall|i: int| 0 <= i < front.len() implies (#[trigger] front[i]).spec_key()
            < last.spec_key() by {
            assert(front[i] == items[i]);
            assert(items[items.len() - 1] == last);
        }
        if last.spec_key() < item.spec_key() {
            assert forall|other: T| #[trigger] now.contains(other) <==> other == item
                || items.contains(other) && other.spec_key() != item.spec_key() by {
                if items.contains(other) {
                    let i = choose|i: int| 0 <= i < items.len() && items[i] == other;
                    assert(now[i] == other);
                    assert(i == items.len() - 1 || front[i] == other);
                }
                assert(now[items.len() as int] == item);
            }
            assert forall|i: int| 0 <= i < items.len() implies (#[trigger] items[i]).spec_key()
                < item.spec_key() by {
                assert(i == items.len() - 1 || front[i] == items[i]);
            }
        } else if last.spec_key() == item.spec_key() {
            assert(items[items.len() - 1].spec_key() == item.spec_key());
            assert forall|other: T| #[trigger] now.contains(other) <==> other == item
                || items.contains(other) && other.spec_key() != item.spec_key() by {
                if items.contains(other) && other.spec_key() != item.spec_key() {
                    let i = choose|i: int| 0 <= i < items.len() && items[i] == other;
                    assert(now[i] == other);
                }
                if now.contains(other) {
                    let i = choose|i: int| 0 <= i < now.len() && now[i] == other;
                    if i < front.len() {
                        assert(items[i] == other);
                        assert(front[i] == other);
                    }
                }
                assert(now[front.len() as int] == item);
            }
        } else {
            law_placed_keeps_order_and_items(front, item);
            let head = placed(front, item);
            assert forall|other: T| #[trigger] now.contains(other) <==> other == item
                || items.contains(other) && other.spec_key() != item.spec_key() by {
                if now.contains(other) {
                    let i = choose|i: int| 0 <= i < now.len() && now[i] == other;
                    if i < head.len() {
                        assert(head[i] == other);
                        assert(head.contains(other));
                        if other != item {
                            let j = choose|j: int| 0 <= j < front.len() && front[j] == other;
                            assert(items[j] == other);
                        }
                    } else {
                        assert(items[items.len() - 1] == other);
                    }
                }
                if other == item || items.contains(other) && other.spec_key() != item.spec_key() {
                    if other == last {
                        assert(now[head.len() as int] == other);
                    } else {
                        if other != item {
                            let j = choose|j: int| 0 <= j < items.len() && items[j] == other;
                            assert(front[j] == other);
                        }
                        assert(head.contains(other));
                        let i = choose|i: int| 0 <= i < head.len() && head[i] == other;
                        assert(now[i] == other);
                    }
                }
            }
            assert forall|i: int, j: int| 0 <= i < j < now.len() implies (
            #[trigger] now[i]).spec_key() < (#[trigger] now[j]).spec_key() by {
                assert(head.contains(head[i]));
                if j == head.len() {
                    if now[i] != item {
                        let k = choose|k: int| 0 <= k < front.len() && front[k] == now[i];
                        assert(front[k].spec_key() < last.spec_key());
                    }
                }
            }
            if holds(front, item.spec_key()) {
                let i = choose|i: int|
                    0 <= i < front.len() && (#[trigger] front[i]).spec_key() == item.spec_key();
                assert(items[i].spec_key() == item.spec_key());
            }
            if holds(items, item.spec_key()) {
                let i = choose|i: int|
                    0 <= i < items.len() && (#[trigger] items[i]).spec_key() == item.spec_key();
                assert(i < front.len());
                assert(front[i].spec_key() == item.spec_key());
            }
        }
    }
}

/// An ordered list in which every key occurs once.
#[derive(Debug, PartialEq, Eq)]
pub struct OrderedList<T: Keyed> {
    items: Vec<T>,
}

impl<T: Keyed> View for OrderedList<T> {
    type V = Seq<T>;

    closed spec fn view(&self) -> Seq<T> {
        self.items@
    }
}

impl<T: Keyed> Clone for OrderedList<T> {
    fn clone(&self) -> (copy: Self)
        ensures
            copy@ == self@,
    {
        proof {
            use_type_invariant(self);
        }
        OrderedList { items: vstd::slice::slice_to_vec(self.items.as_slice()) }
    }
}

impl<T: Keyed> OrderedList<T> {
    #[verifier::type_invariant]
    spec fn in_order(self) -> bool {
        ascending(self.items@)
    }

    /// The empty list.
    pub fn new() -> (list: Self)
        ensures
            list@ == Seq::<T>::empty(),
    {
        OrderedList { items: Vec::new() }
    }

    /// The number of items.
    pub fn len(&self) -> (count: usize)
        ensures
            count as nat == self@.len(),
    {
        self.items.len()
    }

    /// Whether there is no item.
    pub fn is_empty(&self) -> (empty: bool)
        ensures
            empty == (self@.len() == 0),
    {
        self.items.len() == 0
    }

    /// The items in order.
    pub fn as_slice(&self) -> (items: &[T])
        ensures
            items@ == self@,
            ascending(items@),
    {
        proof {
            use_type_invariant(self);
        }
        self.items.as_slice()
    }

    /// Where an item with this key is, or the number of items in front of it if there is none.
    fn position(&self, key: u128) -> (result: Result<usize, usize>)
        ensures
            match result {
                Ok(at) => at < self@.len() && self@[at as int].spec_key() == key,
                Err(at) => {
                    &&& at <= self@.len()
                    &&& forall|i: int| 0 <= i < at ==> (#[trigger] self@[i]).spec_key() < key
                    &&& forall|i: int|
                        at <= i < self@.len() ==> key < (#[trigger] self@[i]).spec_key()
                },
            },
    {
        proof {
            use_type_invariant(self);
        }
        let mut low: usize = 0;
        let mut high: usize = self.items.len();
        while low < high
            invariant
                ascending(self.items@),
                low <= high <= self.items@.len(),
                forall|i: int| 0 <= i < low ==> (#[trigger] self.items@[i]).spec_key() < key,
                forall|i: int|
                    high <= i < self.items@.len() ==> key < (#[trigger] self.items@[i]).spec_key(),
            decreases high - low,
        {
            let middle: usize = low + (high - low) / 2;
            let found: u128 = self.items[middle].key();
            if found == key {
                return Ok(middle);
            } else if found < key {
                low = middle + 1;
            } else {
                high = middle;
            }
        }
        Err(low)
    }

    /// The item with this key.
    pub fn get(&self, key: u128) -> (found: Option<&T>)
        ensures
            match found {
                Some(item) => self@.contains(*item) && item.spec_key() == key,
                None => !holds(self@, key),
            },
            ascending(self@),
    {
        proof {
            use_type_invariant(self);
        }
        match self.position(key) {
            Ok(at) => {
                let item = &self.items[at];
                assert(self@[at as int] == *item);
                Some(item)
            },
            Err(_) => None,
        }
    }

    /// Whether some item has this key.
    pub fn contains_key(&self, key: u128) -> (found: bool)
        ensures
            found == holds(self@, key),
    {
        match self.position(key) {
            Ok(_) => true,
            Err(_) => false,
        }
    }

    /// Puts an item in its place and says whether it replaces one.
    pub fn put(&mut self, item: T) -> (replaced: bool)
        ensures
            final(self)@ == placed(old(self)@, item),
            replaced == holds(old(self)@, item.spec_key()),
    {
        let at = self.position(item.key());
        let mut items: Vec<T> = Vec::new();
        proof {
            use_type_invariant(&*self);
            law_placed_keeps_order_and_items(self@, item);
        }
        std::mem::swap(&mut items, &mut self.items);
        match at {
            Ok(at) => {
                proof {
                    lemma_placed_over(items@, item, at as int);
                }
                items.set(at, item);
                self.items = items;
                true
            },
            Err(at) => {
                proof {
                    lemma_placed_between(items@, item, at as int);
                }
                items.insert(at, item);
                self.items = items;
                false
            },
        }
    }
}

} // verus!
