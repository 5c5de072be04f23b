use vstd::prelude::*;
use vstd::std_specs::cmp::PartialEqSpec;

verus! {

#[derive(Debug)]
pub struct Node<T> {
    value: T,
    next: Option<Box<Node<T>>>,
}

/// The values along a chain of nodes, front first.
pub closed spec fn values_of<T>(link: Option<Box<Node<T>>>) -> Seq<T>
    decreases link,
{
    match link {
        None => Seq::empty(),
        Some(node) => seq![node.value] + values_of(node.next),
    }
}

impl<T> Node<T> {
    pub closed spec fn value_spec(&self) -> T {
        self.value
    }

    pub closed spec fn next_spec(&self) -> Option<Box<Node<T>>> {
        self.next
    }

    pub fn new(value: T, next: Option<Box<Node<T>>>) -> (r: Node<T>)
        ensures
            r.value_spec() == value,
            r.next_spec() == next,
    {
        Node { value: value, next: next }
    }
}

/// A singly linked list with its length kept alongside.
#[derive(Debug)]
pub struct LinkedList<T> {
    head: Option<Box<Node<T>>>,
    size: usize,
}

impl<T> View for LinkedList<T> {
    type V = Seq<T>;

    closed spec fn view(&self) -> Seq<T> {
        values_of(self.head)
    }
}

impl<T> LinkedList<T> {
    /// The stored length is the number of nodes.
    pub closed spec fn wf(&self) -> bool {
        self.size == values_of(self.head).len()
    }

    pub fn new() -> (r: LinkedList<T>)
        ensures
            r.wf(),
            r@ == Seq::<T>::empty(),
    {
        LinkedList { head: None, size: 0 }
    }

    pub fn get_size(&self) -> (r: usize)
        requires
            self.wf(),
        ensures
            r == self@.len(),
    {
        self.size
    }

    pub fn is_empty(&self) -> (r: bool)
        requires
            self.wf(),
        ensures
            r == (self@.len() == 0),
    {
        self.get_size() == 0
    }

    pub fn push_front(&mut self, value: T)
        requires
            old(self).wf(),
            old(self)@.len() < usize::MAX,
        ensures
            final(self).wf(),
            final(self)@ == seq![value] + old(self)@,
    {
        let mut head: Option<Box<Node<T>>> = None;
        std::mem::swap(&mut self.head, &mut head);
        self.head = Some(Box::new(Node::new(value, head)));
        self.size = self.size + 1;
    }

    pub fn pop_front(&mut self) -> (r: Option<T>)
        requires
            old(self).wf(),
        ensures
            final(self).wf(),
            old(self)@.len() == 0 ==> r is None && final(self)@ == old(self)@,
            old(self)@.len() > 0 ==> r == Some(old(self)@[0]) && final(self)@ == old(
                self,
            )@.drop_first(),
        opens_invariants none
        no_unwind
    {
        let mut head: Option<Box<Node<T>>> = None;
        std::mem::swap(&mut self.head, &mut head);
        match head {
            None => None,
            Some(node) => {
                let Node { value, next } = *node;
                assert(values_of(Some(node)).drop_first() =~= values_of(next));
                self.head = next;
                self.size = self.size - 1;
                Some(value)
            },
        }
    }

    /// Walks the list front to back, borrowing each value.
    pub fn iter(&self) -> (r: LinkedListIter<'_, T>)
        ensures
            r@ == self@,
    {
        LinkedListIter { current: &self.head }
    }

    /// Consumes the list into an iterator over its values, front to back.
    pub fn into_iter(self) -> (r: LinkedListIntoIter<T>)
        ensures
            r@ == self@,
    {
        let mut list = self;
        let mut head: Option<Box<Node<T>>> = None;
        std::mem::swap(&mut list.head, &mut head);
        list.size = 0;
        LinkedListIntoIter { current: head }
    }
}

impl<T: Clone> LinkedList<T> {
    /// A list of clones of the values, in the same order.
    pub fn clone(&self) -> (r: LinkedList<T>)
        requires
            self.wf(),
        ensures
            r.wf(),
            r@.len() == self@.len(),
            forall|i: int| 0 <= i < self@.len() ==> cloned(#[trigger] self@[i], r@[i]),
    {
        let mut values: Vec<T> = Vec::new();
        let mut it = self.iter();
        loop
            invariant
                values@.len() + it@.len() == self@.len(),
                it@ == self@.subrange(values@.len() as int, self@.len() as int),
                forall|i: int| 0 <= i < values@.len() ==> cloned(#[trigger] self@[i], values@[i]),
            ensures
                values@.len() == self@.len(),
                forall|i: int| 0 <= i < values@.len() ==> cloned(#[trigger] self@[i], values@[i]),
            decreases it@.len(),
        {
            match it.next() {
                Some(v) => {
                    values.push(v.clone());
                },
                None => {
                    break ;
                },
            }
        }
        let ghost copies = values@;
        let mut ret = LinkedList::new();
        while values.len() > 0
            invariant
                copies.len() == self@.len(),
                self@.len() <= usize::MAX,
                ret.wf(),
                values@.len() <= copies.len(),
                values@ == copies.subrange(0, values@.len() as int),
                ret@ == copies.subrange(values@.len() as int, copies.len() as int),
            decreases values@.len(),
        {
            let v = values.pop().unwrap();
            ret.push_front(v);
            assert(ret@ =~= copies.subrange(values@.len() as int, copies.len() as int));
        }
        ret
    }
}

impl<T: PartialEq> PartialEq for LinkedList<T> {
    /// Same length and pairwise equal values.
    fn eq(&self, other: &Self) -> (r: bool) {
        let mut it1 = self.iter();
        let mut it2 = other.iter();
        let ghost n1 = self@.len();
        let ghost n2 = other@.len();
        loop
            invariant
                n1 == self@.len(),
                n2 == other@.len(),
                n1 - it1@.len() == n2 - it2@.len(),
                it1@.len() <= n1,
                it2@.len() <= n2,
                it1@ == self@.subrange(n1 - it1@.len(), n1 as int),
                it2@ == other@.subrange(n2 - it2@.len(), n2 as int),
                T::obeys_eq_spec() ==> forall|i: int|
                    0 <= i < n1 - it1@.len() ==> (#[trigger] self@[i]).eq_spec(&other@[i]),
            decreases it1@.len(),
        {
            let ghost k = n1 - it1@.len();
            match (it1.next(), it2.next()) {
                (Some(v1), Some(v2)) => {
                    assert(*v1 == self@[k]);
                    assert(*v2 == other@[k]);
                    if *v1 != *v2 {
                        return false;
                    }
                },
                (None, None) => {
                    assert(self@.subrange(0, n1 as int) =~= self@);
                    return true;
                },
                _ => {
                    return false;
                },
            }
        }
    }
}

impl<T: PartialEq> vstd::std_specs::cmp::PartialEqSpecImpl for LinkedList<T> {
    open spec fn obeys_eq_spec() -> bool {
        <T as PartialEqSpec>::obeys_eq_spec()
    }

    open spec fn eq_spec(&self, other: &LinkedList<T>) -> bool {
        &&& self@.len() == other@.len()
        &&& forall|i: int| 0 <= i < self@.len() ==> (#[trigger] self@[i]).eq_spec(&other@[i])
    }
}

impl<T> Drop for LinkedList<T> {
    /// Frees the nodes one at a time, so that a long list does not recurse deeply.
    fn drop(&mut self)
        opens_invariants none
        no_unwind
    {
        let mut current: Option<Box<Node<T>>> = None;
        std::mem::swap(&mut self.head, &mut current);
        self.size = 0;
        loop
            decreases values_of(current).len(),
        {
            match current {
                None => break ,
                Some(node) => {
                    let Node { value, next } = *node;
                    assert(values_of(Some(node)).len() == values_of(next).len() + 1);
                    current = next;
                },
            }
        }
    }
}

/// Borrowing iterator over a list's values.
pub struct LinkedListIter<'a, T> {
    current: &'a Option<Box<Node<T>>>,
}

impl<'a, T> View for LinkedListIter<'a, T> {
    type V = Seq<T>;

    closed spec fn view(&self) -> Seq<T> {
        values_of(*self.current)
    }
}

impl<'a, T> LinkedListIter<'a, T> {
    /// The next value, if any; the rest of the sequence stays to come.
    pub fn next(&mut self) -> (r: Option<&'a T>)
        ensures
            old(self)@.len() == 0 ==> r is None && final(self)@ == old(self)@,
            old(self)@.len() > 0 ==> r == Some(&old(self)@[0]) && final(self)@ == old(
                self,
            )@.drop_first(),
    {
        match self.current {
            Some(node) => {
                assert(values_of(*self.current).drop_first() =~= values_of(node.next));
                self.current = &node.next;
                Some(&node.value)
            },
            None => None,
        }
    }
}

/// Owning iterator over a list's values.
pub struct LinkedListIntoIter<T> {
    current: Option<Box<Node<T>>>,
}

impl<T> View for LinkedListIntoIter<T> {
    type V = Seq<T>;

    closed spec fn view(&self) -> Seq<T> {
        values_of(self.current)
    }
}

impl<T> LinkedListIntoIter<T> {
    pub fn next(&mut self) -> (r: Option<T>)
        ensures
            old(self)@.len() == 0 ==> r is None && final(self)@ == old(self)@,
            old(self)@.len() > 0 ==> r == Some(old(self)@[0]) && final(self)@ == old(
                self,
            )@.drop_first(),
    {
        match self.current.take() {
            Some(node) => {
                let Node { value, next } = *node;
                assert(values_of(Some(node)).drop_first() =~= values_of(next));
                self.current = next;
                Some(value)
            },
            None => None,
        }
    }
}

} // verus!
