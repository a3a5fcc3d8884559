//! A singly linked list used as a stack.

use vstd::prelude::*;

verus! {

struct Node<T> {
    element: T,
    next: Option<Box<Node<T>>>,
}

/// A stack of elements, the last pushed on top.
pub struct LinkedList<T> {
    head: Option<Box<Node<T>>>,
}

/// The elements of a chain of nodes, from the first node on.
spec fn chain_view<T>(link: Option<Box<Node<T>>>) -> Seq<T>
    decreases link,
{
    match link {
        None => Seq::empty(),
        Some(node) => seq![node.element] + chain_view(node.next),
    }
}

impl<T> LinkedList<T> {
    /// The elements, from the top down.
    pub closed spec fn view(&self) -> Seq<T> {
        chain_view(self.head)
    }

    /// An empty list.
    pub fn empty() -> (list: Self)
        ensures
            list.view().len() == 0,
    {
        LinkedList { head: None }
    }

    /// Puts `element` on top.
    pub fn push(&mut self, element: T)
        ensures
            final(self).view() == seq![element] + old(self).view(),
    {
        let old_head = self.head.take();
        let new_head = Box::new(Node { element, next: old_head });
        self.head = Some(new_head);
    }

    /// Takes the top element off, if there is one.
    pub fn pop(&mut self) -> (r: Option<T>)
        ensures
            old(self).view().len() == 0 ==> r is None && final(self).view() == old(self).view(),
            old(self).view().len() > 0 ==> r == Some(old(self).view()[0]) && final(self).view()
                == old(self).view().drop_first(),
    {
        match self.head.take() {
            Some(node) => {
                let node = *node;
                self.head = node.next;
                assert((seq![node.element] + chain_view(node.next)).drop_first() =~= chain_view(
                    node.next,
                ));
                Some(node.element)
            },
            None => None,
        }
    }

    /// The top element, if there is one.
    pub fn peek(&self) -> (r: Option<&T>)
        ensures
            self.view().len() == 0 ==> r is None,
            self.view().len() > 0 ==> r == Some(&self.view()[0]),
    {
        match &self.head {
            Some(node) => Some(&node.element),
            None => None,
        }
    }
}

} // verus!
