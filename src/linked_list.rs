//! A singly linked list of boxed nodes, viewed as the sequence of its values
//! from head to tail.

use vstd::prelude::*;

verus! {

/// A node of the list.
pub struct Node<T> {
    /// Value of this node.
    pub value: T,
    /// The next node; `None` at the tail.
    pub next: Option<Box<Node<T>>>,
}

impl<T> Node<T> {
    /// A node holding `value`, with no successor.
    pub fn new(value: T) -> (r: Self)
        ensures
            r.value == value,
            r.next is None,
    {
        Node { value, next: None }
    }
}

/// The values of the chain that starts at `link`, from first to last.
pub open spec fn values_of<T>(link: Option<Box<Node<T>>>) -> Seq<T>
    decreases link,
{
    match link {
        None => Seq::empty(),
        Some(node) => seq![node.value] + values_of(node.next),
    }
}

/// Appends `value` at the end of the chain starting at `link`.
fn push_back_link<T>(link: Option<Box<Node<T>>>, value: T) -> (r: Option<Box<Node<T>>>)
    ensures
        values_of(r) == values_of(link).push(value),
    decreases link,
{
    match link {
        None => Some(Box::new(Node::new(value))),
        Some(node) => {
            let Node { value: first, next } = *node;
            let rest = push_back_link(next, value);
            let r = Some(Box::new(Node { value: first, next: rest }));
            proof {
                assert(values_of(r) =~= values_of(Some(node)).push(value));
            }
            r
        },
    }
}

/// Detaches the last node of the chain starting at `node`: the chain
/// without it, and its value.
fn pop_back_link<T>(node: Box<Node<T>>) -> (r: (Option<Box<Node<T>>>, T))
    ensures
        values_of(Some(node)).len() > 0,
        values_of(r.0) == values_of(Some(node)).drop_last(),
        r.1 == values_of(Some(node)).last(),
    decreases node,
{
    let ghost whole = values_of(Some(node));
    let Node { value, next } = *node;
    proof {
        assert(whole == seq![value] + values_of(next));
    }
    match next {
        None => {
            proof {
                assert(values_of(None::<Box<Node<T>>>) == Seq::<T>::empty());
                assert(whole =~= seq![value]);
                assert(values_of(None::<Box<Node<T>>>) =~= whole.drop_last());
            }
            (None, value)
        },
        Some(rest) => {
            let ghost tail = values_of(Some(rest));
            let (front, last) = pop_back_link(rest);
            let r = Some(Box::new(Node { value, next: front }));
            proof {
                assert(whole =~= seq![value] + tail);
                assert(values_of(r) =~= whole.drop_last());
            }
            (r, last)
        },
    }
}

/// A singly linked list.
pub struct SinglyLinkedList<T> {
    head: Option<Box<Node<T>>>,
}

impl<T> View for SinglyLinkedList<T> {
    type V = Seq<T>;

    /// The values, from head to tail.
    closed spec fn view(&self) -> Seq<T> {
        values_of(self.head)
    }
}

impl<T> Default for SinglyLinkedList<T> {
    /// An empty list.
    fn default() -> (r: Self)
        ensures
            r@ == Seq::<T>::empty(),
    {
        Self::new()
    }
}

impl<T> SinglyLinkedList<T> {
    /// An empty list.
    pub fn new() -> (r: Self)
        ensures
            r@ == Seq::<T>::empty(),
    {
        SinglyLinkedList { head: None }
    }

    /// Adds `value` at the front.
    pub fn push_front(&mut self, value: T)
        ensures
            final(self)@ == seq![value] + old(self)@,
    {
        let next = self.head.take();
        self.head = Some(Box::new(Node { value, next }));
    }

    /// Adds `value` at the back.
    pub fn push_back(&mut self, value: T)
        ensures
            final(self)@ == old(self)@.push(value),
    {
        let head = self.head.take();
        self.head = push_back_link(head, value);
    }

    /// Removes and returns the front value; `None` on an empty list.
    pub fn pop_front(&mut self) -> (r: Option<T>)
        ensures
            old(self)@.len() == 0 ==> r is None && final(self)@ == old(self)@,
            old(self)@.len() > 0 ==> r == Some(old(self)@[0]) && final(self)@ == old(self)@.drop_first(),
    {
        match self.head.take() {
            None => None,
            Some(node) => {
                let ghost whole = values_of(Some(node));
                let Node { value, next } = *node;
                self.head = next;
                proof {
                    assert(whole.drop_first() =~= values_of(self.head));
                }
                Some(value)
            },
        }
    }

    /// Removes and returns the back value; `None` on an empty list.
    pub fn pop_back(&mut self) -> (r: Option<T>)
        ensures
            old(self)@.len() == 0 ==> r is None && final(self)@ == old(self)@,
            old(self)@.len() > 0 ==> r == Some(old(self)@.last()) && final(self)@ == old(self)@.drop_last(),
    {
        match self.head.take() {
            None => None,
            Some(node) => {
                let (front, last) = pop_back_link(node);
                self.head = front;
                Some(last)
            },
        }
    }

    /// A list holding the values of `vec`, in order.
    pub fn from_vec(vec: Vec<T>) -> (r: Self)
        ensures
            r@ == vec@,
    {
        let mut vec = vec;
        let ghost all = vec@;
        let mut list = Self::new();
        while vec.len() > 0
            invariant
                vec@ + list@ == all,
            decreases vec@.len(),
        {
            let ghost before = vec@;
            let value = vec.pop().unwrap();
            list.push_front(value);
            proof {
                assert(before =~= vec@.push(value));
            }
        }
        proof {
            assert(vec@ + list@ =~= list@);
        }
        list
    }

    /// The values of the list, in order.
    pub fn into_vec(self) -> (r: Vec<T>)
        ensures
            r@ == self@,
    {
        let mut vec: Vec<T> = Vec::new();
        let mut current = self.head;
        loop
            invariant
                vec@ + values_of(current) == self@,
            decreases values_of(current).len(),
        {
            match current {
                None => {
                    proof {
                        assert(vec@ + values_of(current) =~= vec@);
                    }
                    return vec;
                },
                Some(node) => {
                    let ghost whole = values_of(Some(node));
                    let Node { value, next } = *node;
                    vec.push(value);
                    current = next;
                    proof {
                        assert(whole =~= seq![value] + values_of(current));
                    }
                },
            }
        }
    }

    /// The number of values.
    pub fn length(&self) -> (r: usize)
        requires
            self@.len() <= usize::MAX,
        ensures
            r == self@.len(),
    {
        let mut count: usize = 0;
        let mut current = &self.head;
        while current.is_some()
            invariant
                count + values_of(*current).len() == self@.len(),
                self@.len() <= usize::MAX,
            decreases values_of(*current).len(),
        {
            let node = current.as_ref().unwrap();
            proof {
                assert(values_of(*current) == seq![node.value] + values_of(node.next));
            }
            count = count + 1;
            current = &node.next;
        }
        count
    }

    /// Applies `f` to every value, keeping the order.
    pub fn map<F: Fn(T) -> T>(self, f: F) -> (r: Self)
        requires
            forall|i: int| 0 <= i < self@.len() ==> f.requires((#[trigger] self@[i],)),
        ensures
            r@.len() == self@.len(),
            forall|i: int| 0 <= i < self@.len() ==> f.ensures((#[trigger] self@[i],), r@[i]),
    {
        let ghost all = self@;
        let mut out: Vec<T> = Vec::new();
        let mut current = self.head;
        loop
            invariant
                all == self@,
                out@.len() + values_of(current).len() == all.len(),
                values_of(current) == all.subrange(out@.len() as int, all.len() as int),
                forall|i: int| 0 <= i < all.len() ==> f.requires((#[trigger] all[i],)),
                forall|i: int| 0 <= i < out@.len() ==> f.ensures((#[trigger] all[i],), out@[i]),
            decreases values_of(current).len(),
        {
            match current {
                None => {
                    assert(values_of(current).len() == 0);
                    let r = Self::from_vec(out);
                    return r;
                },
                Some(node) => {
                    let ghost rest = values_of(Some(node));
                    let ghost k = out@.len();
                    let Node { value, next } = *node;
                    proof {
                        assert(rest == seq![value] + values_of(next));
                        assert(all[k as int] == rest[0]);
                    }
                    let mapped = f(value);
                    out.push(mapped);
                    current = next;
                    proof {
                        assert(all.subrange(k as int + 1, all.len() as int) =~= rest.drop_first());
                        assert(rest.drop_first() =~= values_of(current));
                    }
                },
            }
        }
    }

    /// Applies `f` to each adjacent pair of values, in order: the result has
    /// one value fewer than the list, and is empty for fewer than two.
    pub fn pair_map<F: Fn(T, T) -> T>(self, f: F) -> (r: Self)
        where
            T: Clone,
        requires
            forall|i: int, a: T, b: T| 0 <= i < self@.len() - 1 && cloned(#[trigger] self@[i], a)
                && cloned(self@[i + 1], b) ==> #[trigger] f.requires((a, b)),
        ensures
            r@.len() == if self@.len() == 0 { 0 } else { self@.len() - 1 },
            forall|i: int| 0 <= i < r@.len() ==> pair_image(f, self@[i], self@[i + 1], #[trigger] r@[i]),
    {
        let ghost all = self@;
        let values = self.into_vec();
        let mut out: Vec<T> = Vec::new();
        let pairs: usize = if values.len() == 0 { 0 } else { values.len() - 1 };
        let mut i: usize = 0;
        while i < pairs
            invariant
                all == self@,
                values@ == all,
                i == out@.len(),
                i <= pairs,
                pairs == if all.len() == 0 { 0 } else { all.len() - 1 },
                forall|k: int, a: T, b: T| 0 <= k < all.len() - 1 && cloned(#[trigger] all[k], a)
                    && cloned(all[k + 1], b) ==> #[trigger] f.requires((a, b)),
                forall|k: int| 0 <= k < out@.len() ==> pair_image(f, all[k], all[k + 1], #[trigger] out@[k]),
            decreases values@.len() - i,
        {
            let a = values[i].clone();
            let b = values[i + 1].clone();
            proof {
                assert(cloned(all[i as int], a));
                assert(cloned(all[i + 1], b));
            }
            let c = f(a, b);
            let ghost before = out@;
            out.push(c);
            proof {
                assert(pair_image(f, all[i as int], all[i + 1], out@[i as int]));
                assert forall|k: int| 0 <= k < out@.len() implies pair_image(f, all[k], all[k + 1], #[trigger] out@[k]) by {
                    if k < i {
                        assert(out@[k] == before[k]);
                    }
                }
            }
            i = i + 1;
        }
        Self::from_vec(out)
    }
}

/// `z` is what `f` may return on clones of `x` and `y`.
pub open spec fn pair_image<T: Clone, F: Fn(T, T) -> T>(f: F, x: T, y: T, z: T) -> bool {
    exists|a: T, b: T| cloned(x, a) && cloned(y, b) && #[trigger] f.ensures((a, b), z)
}

/// The values of the lists in `lists`, one list after another.
pub open spec fn concat<T>(lists: Seq<SinglyLinkedList<T>>) -> Seq<T>
    decreases lists.len(),
{
    if lists.len() == 0 {
        Seq::empty()
    } else {
        concat(lists.drop_last()) + lists.last()@
    }
}

impl<T> SinglyLinkedList<SinglyLinkedList<T>> {
    /// Joins the inner lists into one, in order.
    pub fn flatten(self) -> (r: SinglyLinkedList<T>)
        ensures
            r@ == concat(self@),
    {
        let ghost all = self@;
        let mut outer = self;
        let mut out: Vec<T> = Vec::new();
        let ghost mut k: int = 0;
        loop
            invariant
                all == self@,
                0 <= k <= all.len(),
                outer@ == all.subrange(k, all.len() as int),
                out@ == concat(all.subrange(0, k)),
            decreases all.len() - k,
        {
            match outer.pop_front() {
                None => {
                    proof {
                        assert(all.subrange(0, k) =~= all);
                    }
                    let r = SinglyLinkedList::from_vec(out);
                    return r;
                },
                Some(inner) => {
                    let mut items = inner.into_vec();
                    out.append(&mut items);
                    proof {
                        assert(all.subrange(0, k + 1).drop_last() =~= all.subrange(0, k));
                        k = k + 1;
                        assert(outer@ =~= all.subrange(k, all.len() as int));
                    }
                },
            }
        }
    }
}

} // verus!
