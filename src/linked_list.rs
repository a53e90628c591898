//! A singly linked list of owned nodes.

use vstd::prelude::*;

verus! {

/// A node of the list.
#[derive(Debug)]
pub struct Node<T> {
    /// The value of this node.
    pub value: T,
    /// The next node, if any.
    pub next: Option<Box<Node<T>>>,
}

/// The values from `n` to the end of its chain.
pub open spec fn node_seq<T>(n: Node<T>) -> Seq<T>
    decreases n,
{
    match n.next {
        Some(b) => seq![n.value] + node_seq(*b),
        None => seq![n.value],
    }
}

impl<T> Node<T> {
    /// A node holding `value` with no successor.
    pub fn new(value: T) -> (r: Self)
        ensures
            r.value == value,
            r.next is None,
    {
        Node { value, next: None }
    }
}

/// Appends `value` after the last node of the chain starting at `n`.
fn node_push_back<T>(n: &mut Node<T>, value: T)
    ensures
        node_seq(*final(n)) == node_seq(*old(n)).push(value),
    decreases node_seq(*old(n)).len(),
{
    let next = n.next.take();
    match next {
        None => {
            let last = Node::new(value);
            assert(node_seq(last) == seq![value]);
            n.next = Some(Box::new(last));
            assert(node_seq(*n) =~= node_seq(*old(n)).push(value));
        },
        Some(b) => {
            let mut inner = *b;
            node_push_back(&mut inner, value);
            n.next = Some(Box::new(inner));
            assert(node_seq(*n) =~= node_seq(*old(n)).push(value));
        },
    }
}

/// Removes the last node of a chain of at least two nodes, returning its
/// value.
fn node_pop_back<T>(n: &mut Node<T>) -> (r: T)
    requires
        old(n).next is Some,
    ensures
        node_seq(*final(n)) == node_seq(*old(n)).drop_last(),
        r == node_seq(*old(n)).last(),
    decreases node_seq(*old(n)).len(),
{
    let b = n.next.take().unwrap();
    let mut inner = *b;
    if inner.next.is_none() {
        assert(node_seq(*n) =~= node_seq(*old(n)).drop_last());
        inner.value
    } else {
        let r = node_pop_back(&mut inner);
        n.next = Some(Box::new(inner));
        assert(node_seq(*n) =~= node_seq(*old(n)).drop_last());
        r
    }
}

/// A singly linked list.
#[derive(Debug)]
pub struct SinglyLinkedList<T> {
    head: Option<Node<T>>,
}

impl<T> View for SinglyLinkedList<T> {
    type V = Seq<T>;

    closed spec fn view(&self) -> Seq<T> {
        match self.head {
            Some(n) => node_seq(n),
            None => seq![],
        }
    }
}

impl<T> SinglyLinkedList<T> {
    /// An empty list.
    pub fn new() -> (r: Self)
        ensures
            r@ == Seq::<T>::empty(),
    {
        SinglyLinkedList { head: None }
    }

    /// Adds `value` at the front.
    pub fn push_front(&mut self, value: T)
        ensures
            final(self)@ == seq![value] + old(self)@,
    {
        let old_head = self.head.take();
        let next = match old_head {
            Some(n) => Some(Box::new(n)),
            None => None,
        };
        self.head = Some(Node { value, next });
        assert(self@ =~= seq![value] + old(self)@);
    }

    /// Adds `value` at the back.
    pub fn push_back(&mut self, value: T)
        ensures
            final(self)@ == old(self)@.push(value),
    {
        let old_head = self.head.take();
        match old_head {
            None => {
                self.head = Some(Node::new(value));
                assert(self@ =~= old(self)@.push(value));
            },
            Some(n) => {
                let mut n = n;
                node_push_back(&mut n, value);
                self.head = Some(n);
            },
        }
    }

    /// Removes the front value, if any.
    pub fn pop_front(&mut self) -> (r: Option<T>)
        ensures
            old(self)@.len() == 0 ==> r is None && final(self)@ == old(self)@,
            old(self)@.len() > 0 ==> r == Some(old(self)@[0]) && final(self)@ == old(self)@.drop_first(),
    {
        let old_head = self.head.take();
        match old_head {
            None => None,
            Some(n) => {
                self.head = match n.next {
                    Some(b) => Some(*b),
                    None => None,
                };
                assert(self@ =~= old(self)@.drop_first());
                Some(n.value)
            },
        }
    }

    /// Removes the back value, if any.
    pub fn pop_back(&mut self) -> (r: Option<T>)
        ensures
            old(self)@.len() == 0 ==> r is None && final(self)@ == old(self)@,
            old(self)@.len() > 0 ==> r == Some(old(self)@.last()) && final(self)@ == old(self)@.drop_last(),
    {
        let old_head = self.head.take();
        match old_head {
            None => None,
            Some(n) => {
                if n.next.is_none() {
                    assert(old(self)@.drop_last() =~= Seq::<T>::empty());
                    Some(n.value)
                } else {
                    let mut n = n;
                    let r = node_pop_back(&mut n);
                    self.head = Some(n);
                    Some(r)
                }
            },
        }
    }

    /// A list holding the values of `vec` in order.
    pub fn from_vec(vec: Vec<T>) -> (r: Self)
        ensures
            r@ == vec@,
    {
        let mut vec = vec;
        let mut list = SinglyLinkedList::new();
        let ghost all = vec@;
        while vec.len() > 0
            invariant
                all == vec@ + list@,
            decreases vec.len(),
        {
            let x = vec.pop().unwrap();
            list.push_front(x);
            assert(all =~= vec@ + list@);
        }
        assert(all =~= list@);
        list
    }

    /// The values of the list in order.
    pub fn into_vec(self) -> (r: Vec<T>)
        ensures
            r@ == self@,
    {
        let mut list = self;
        let mut out: Vec<T> = Vec::new();
        let ghost all = list@;
        while list.head.is_some()
            invariant
                all == out@ + list@,
            decreases list@.len(),
        {
            let x = list.pop_front().unwrap();
            assert(all =~= out@.push(x) + list@);
            out.push(x);
        }
        assert(all =~= out@);
        out
    }

    /// The number of values; the list must have at most `usize::MAX` of them.
    pub fn length(&self) -> (r: usize)
        requires
            self@.len() <= usize::MAX,
        ensures
            r == self@.len(),
    {
        let mut count: usize = 0;
        let mut cur: Option<&Node<T>> = match &self.head {
            Some(n) => Some(n),
            None => None,
        };
        while cur.is_some()
            invariant
                self@.len() <= usize::MAX,
                match cur {
                    Some(n) => count + node_seq(*n).len() == self@.len(),
                    None => count == self@.len(),
                },
            decreases
                match cur {
                    Some(n) => node_seq(*n).len(),
                    None => 0,
                },
        {
            let n = cur.unwrap();
            count += 1;
            cur = match &n.next {
                Some(b) => Some(&**b),
                None => None,
            };
        }
        count
    }
}

impl<T> SinglyLinkedList<T> {
    /// Moves the values of `other` to the back of this list.
    pub fn append(&mut self, other: SinglyLinkedList<T>)
        ensures
            final(self)@ == old(self)@ + other@,
    {
        let mut other = other;
        let ghost target = old(self)@ + other@;
        while other.head.is_some()
            invariant
                target == self@ + other@,
            decreases other@.len(),
        {
            let x = other.pop_front().unwrap();
            let ghost before = self@;
            self.push_back(x);
            assert(target =~= self@ + other@);
        }
        assert(target =~= self@);
    }
}

impl<T> SinglyLinkedList<T> {
    /// Applies `f` to every value, keeping the order.
    pub fn map<F: Fn(T) -> T>(self, f: F) -> (r: Self)
        requires
            forall|x: T| f.requires((x,)),
        ensures
            r@.len() == self@.len(),
            forall|i: int| 0 <= i < self@.len() ==> f.ensures((self@[i],), #[trigger] r@[i]),
    {
        let mut rest = self;
        let mut out = SinglyLinkedList::new();
        let ghost all = rest@;
        while rest.head.is_some()
            invariant
                forall|x: T| f.requires((x,)),
                out@.len() + rest@.len() == all.len(),
                rest@ == all.skip(out@.len() as int),
                forall|i: int| 0 <= i < out@.len() ==> f.ensures((all[i],), #[trigger] out@[i]),
            decreases rest@.len(),
        {
            let ghost before = rest@;
            let x = rest.pop_front().unwrap();
            assert(x == all[out@.len() as int]) by {
                assert(before[0] == all.skip(out@.len() as int)[0]);
            }
            let y = f(x);
            out.push_back(y);
            assert(rest@ =~= all.skip(out@.len() as int));
        }
        out
    }

    /// Applies `f` to each pair of adjacent values, in order; a list of fewer
    /// than two values gives an empty list.
    pub fn pair_map<F: Fn(T, T) -> T>(self, f: F) -> (r: Self)
        where
            T: Copy,
        requires
            forall|x: T, y: T| f.requires((x, y)),
        ensures
            r@.len() == if self@.len() < 2 { 0 } else { self@.len() - 1 },
            forall|i: int|
                0 <= i < r@.len() ==> f.ensures((self@[i], self@[i + 1]), #[trigger] r@[i]),
    {
        let mut rest = self;
        let mut out = SinglyLinkedList::new();
        let ghost all = rest@;
        let mut prev = match rest.pop_front() {
            Some(v) => v,
            None => {
                return out;
            },
        };
        while rest.head.is_some()
            invariant
                forall|x: T, y: T| f.requires((x, y)),
                all.len() > 0,
                out@.len() + 1 + rest@.len() == all.len(),
                prev == all[out@.len() as int],
                rest@ == all.skip(out@.len() + 1int),
                forall|i: int|
                    0 <= i < out@.len() ==> f.ensures((all[i], all[i + 1]), #[trigger] out@[i]),
            decreases rest@.len(),
        {
            let ghost before = rest@;
            let cur = rest.pop_front().unwrap();
            assert(cur == all[out@.len() + 1int]) by {
                assert(before[0] == all.skip(out@.len() + 1int)[0]);
            }
            let y = f(prev, cur);
            out.push_back(y);
            prev = cur;
            assert(rest@ =~= all.skip(out@.len() + 1int));
        }
        out
    }
}

/// The values of each list.
pub open spec fn views_of<T>(lists: Seq<SinglyLinkedList<T>>) -> Seq<Seq<T>> {
    lists.map_values(|l: SinglyLinkedList<T>| l@)
}

impl<T> SinglyLinkedList<SinglyLinkedList<T>> {
    /// The values of all inner lists, one list after the other.
    pub fn flatten(self) -> (r: SinglyLinkedList<T>)
        ensures
            r@ == views_of(self@).flatten(),
    {
        let ghost views = views_of(self@);
        let mut rest = self;
        let mut out: SinglyLinkedList<T> = SinglyLinkedList::new();
        let ghost mut done: nat = 0;
        assert(views.take(0).flatten() =~= Seq::<T>::empty());
        while rest.head.is_some()
            invariant
                done <= views.len(),
                rest@.len() + done == views.len(),
                views_of(rest@) == views.skip(done as int),
                out@ == views.take(done as int).flatten(),
            decreases rest@.len(),
        {
            let ghost rest_before = rest@;
            let l = rest.pop_front().unwrap();
            proof {
                assert(l@ == views[done as int]) by {
                    assert(views_of(rest_before)[0] == views.skip(done as int)[0]);
                }
                assert(views.take(done + 1int) =~= views.take(done as int).push(views[done as int]));
                views.take(done as int).lemma_flatten_push(views[done as int]);
                assert(rest@ == rest_before.drop_first());
                assert forall|k: int| 0 <= k < rest@.len() implies views_of(rest@)[k] == views.skip(
                    done + 1int,
                )[k] by {
                    assert(views_of(rest@)[k] == views_of(rest_before)[k + 1]);
                    assert(views.skip(done as int)[k + 1] == views.skip(done + 1int)[k]);
                }
                assert(views_of(rest@) =~= views.skip(done + 1int));
            }
            out.append(l);
            proof {
                done = done + 1;
            }
        }
        proof {
            assert(views.skip(done as int).len() == 0);
            assert(views.take(done as int) =~= views);
        }
        out
    }
}

} // verus!
