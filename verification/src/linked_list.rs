//! A linked list that grows and shrinks at its front.

use vstd::prelude::*;

verus! {

struct Node<T> {
    elem: T,
    next: Link<T>,
}

type Link<T> = Option<Box<Node<T>>>;

/// The elements from a link on, in their order.
spec fn elements<T>(link: Link<T>) -> Seq<T>
    decreases link,
{
    match link {
        Some(node) => seq![node.elem] + elements(node.next),
        None => seq![],
    }
}

/// The elements from a node on, in their order.
spec fn elements_from<T>(node: Option<&Node<T>>) -> Seq<T> {
    match node {
        Some(node) => seq![node.elem] + elements(node.next),
        None => seq![],
    }
}

/// A list of elements that grows and shrinks at its front.
pub struct LinkedList<T> {
    front: Link<T>,
    len: usize,
}

impl<T> View for LinkedList<T> {
    type V = Seq<T>;

    closed spec fn view(&self) -> Seq<T> {
        elements(self.front)
    }
}

impl<T> LinkedList<T> {
    /// The length that is kept is the number of elements.
    pub closed spec fn well_formed(&self) -> bool {
        self.len == elements(self.front).len()
    }

    /// The empty list.
    pub fn new() -> (list: Self)
        ensures
            list.well_formed(),
            list@ == Seq::<T>::empty(),
    {
        Self { front: None, len: 0 }
    }

    /// Puts an element before all others.
    pub fn push_front(&mut self, elem: T)
        requires
            old(self).well_formed(),
            old(self)@.len() < usize::MAX,
        ensures
            final(self).well_formed(),
            final(self)@ == seq![elem] + old(self)@,
    {
        let rest = self.front.take();
        let count = self.len;
        self.front = Some(Box::new(Node { elem, next: rest }));
        self.len = count + 1;
    }

    /// Takes the first element off, if there is one.
    pub fn pop_front(&mut self) -> (elem: Option<T>)
        requires
            old(self).well_formed(),
        ensures
            final(self).well_formed(),
            old(self)@.len() == 0 ==> elem is None && final(self)@ == old(self)@,
            old(self)@.len() > 0 ==> elem == Some(old(self)@[0]) && final(self)@ == old(
                self,
            )@.drop_first(),
    {
        match self.front.take() {
            Some(node) => {
                let Node { elem, next } = *node;
                assert((seq![elem] + elements(next)).drop_first() =~= elements(next));
                let count = self.len;
                self.front = next;
                self.len = count - 1;
                Some(elem)
            },
            None => None,
        }
    }

    /// How many elements the list holds.
    pub fn len(&self) -> (len: usize)
        requires
            self.well_formed(),
        ensures
            len == self@.len(),
    {
        self.len
    }

    /// The first element, if there is one.
    pub fn front(&self) -> (elem: Option<&T>)
        ensures
            self@.len() == 0 ==> elem is None,
            self@.len() > 0 ==> elem == Some(&self@[0]),
    {
        match &self.front {
            Some(node) => Some(&node.elem),
            None => None,
        }
    }

    /// The first element, to be changed in its place, if there is one.
    pub fn front_mut(&mut self) -> (elem: Option<&mut T>)
        requires
            old(self).well_formed(),
        ensures
            final(self).well_formed(),
            old(self)@.len() == 0 ==> elem is None && final(self)@ == old(self)@,
            old(self)@.len() > 0 ==> elem is Some && *elem.unwrap() == old(self)@[0] && final(self)@
                == old(self)@.update(0, *final(elem.unwrap())),
    {
        match &mut self.front {
            Some(node) => {
                assert(forall|changed: T|
                    (seq![changed] + elements(node.next)) =~= (seq![node.elem] + elements(
                        node.next,
                    )).update(0, changed));
                Some(&mut node.elem)
            },
            None => None,
        }
    }

    /// The elements from the first on, one after the other.
    pub fn iter(&self) -> (iter: Iter<'_, T>)
        requires
            self.well_formed(),
        ensures
            iter.well_formed(),
            iter@ == self@,
    {
        Iter {
            front: match &self.front {
                Some(node) => Some(&**node),
                None => None,
            },
            len: self.len,
        }
    }
}

/// A walk along a list: the elements that are still to come.
pub struct Iter<'a, T> {
    front: Option<&'a Node<T>>,
    len: usize,
}

impl<'a, T> View for Iter<'a, T> {
    type V = Seq<T>;

    closed spec fn view(&self) -> Seq<T> {
        elements_from(self.front)
    }
}

impl<'a, T> Iter<'a, T> {
    /// The length that is kept is the number of elements to come.
    pub closed spec fn well_formed(&self) -> bool {
        self.len == elements_from(self.front).len()
    }

    /// The next element, if one is still to come.
    pub fn next(&mut self) -> (elem: Option<&'a T>)
        requires
            old(self).well_formed(),
        ensures
            final(self).well_formed(),
            old(self)@.len() == 0 ==> elem is None && final(self)@ == old(self)@,
            old(self)@.len() > 0 ==> elem == Some(&old(self)@[0]) && final(self)@ == old(
                self,
            )@.drop_first(),
    {
        match self.front {
            Some(node) => {
                assert((seq![node.elem] + elements(node.next)).drop_first() =~= elements(node.next));
                let count = self.len;
                self.front =
                match &node.next {
                    Some(next) => Some(&**next),
                    None => None,
                };
                self.len = count - 1;
                Some(&node.elem)
            },
            None => None,
        }
    }

    /// How many elements are still to come, as the least and the most.
    pub fn size_hint(&self) -> (hint: (usize, Option<usize>))
        requires
            self.well_formed(),
        ensures
            hint.0 == self@.len(),
            hint.1 == Some(hint.0),
    {
        (self.len, Some(self.len))
    }
}

} // verus!
