//! Intrusive linked list.
//!
//! The nodes of a list live in a vector, side by side with nodes of other lists
//! or of none, and a link is the index of a node in that vector.

use std::marker::PhantomData;
use vstd::prelude::*;

verus! {

/// A list, which knows the first and the last of its nodes.
pub struct LinkedListHandle<NodeType: LinkedListNode> {
    head: Option<usize>,
    tail: Option<usize>,
    order: Ghost<Seq<usize>>,
    nodes: PhantomData<NodeType>,
}

/// What can be a node of a list: it has a place for a link.
pub trait LinkedListNode: Sized {
    /// The link to the next node.
    spec fn link(self) -> Option<usize>;

    /// The same node with another link.
    spec fn with_link(self, link: Option<usize>) -> Self;

    /// A node has the link that it was given last, and is otherwise the same.
    proof fn law_link(self, link: Option<usize>)
        ensures
            self.with_link(link).link() == link,
            self.with_link(self.link()) == self,
    ;

    /// The place of the link to the next node.
    fn next(&mut self) -> (r: &mut Option<usize>)
        ensures
            *r == old(self).link(),
            *final(self) == old(self).with_link(*final(r)),
    ;
}

/// A node that holds a value.
pub struct Node<T> {
    pub value: T,
    pub next: Option<usize>,
}

impl<T> LinkedListNode for Node<T> {
    open spec fn link(self) -> Option<usize> {
        self.next
    }

    open spec fn with_link(self, link: Option<usize>) -> Self {
        Node { next: link, ..self }
    }

    proof fn law_link(self, link: Option<usize>) {
    }

    fn next(&mut self) -> (r: &mut Option<usize>) {
        &mut self.next
    }
}

impl<NodeType: LinkedListNode> View for LinkedListHandle<NodeType> {
    type V = Seq<usize>;

    closed spec fn view(&self) -> Seq<usize> {
        self.order@
    }
}

impl<NodeType: LinkedListNode> LinkedListHandle<NodeType> {
    /// The list leads through its nodes in order, each of them once.
    pub closed spec fn wf(&self, nodes: Seq<NodeType>) -> bool {
        let order = self.order@;
        &&& order.no_duplicates()
        &&& forall|i: int| 0 <= i < order.len() ==> #[trigger] order[i] < nodes.len()
        &&& forall|i: int|
            0 <= i < order.len() - 1 ==> nodes[#[trigger] order[i] as int].link() == Some(order[i + 1])
        &&& self.head == (if order.len() == 0 {
            None
        } else {
            Some(order.first())
        })
        &&& self.tail == (if order.len() == 0 {
            None
        } else {
            Some(order.last())
        })
    }

    /// The node that is popped next.
    pub closed spec fn head(&self) -> Option<usize> {
        self.head
    }

    /// The node that the next one is linked to.
    pub closed spec fn tail(&self) -> Option<usize> {
        self.tail
    }

    /// The nodes of a list are in the vector, each of them once; each but the last
    /// is linked to the next; and the list knows the first and the last.
    pub proof fn law_list(&self, nodes: Seq<NodeType>)
        requires
            self.wf(nodes),
        ensures
            self@.no_duplicates(),
            forall|i: int| 0 <= i < self@.len() ==> #[trigger] self@[i] < nodes.len(),
            forall|i: int|
                0 <= i < self@.len() - 1 ==> nodes[#[trigger] self@[i] as int].link() == Some(
                    self@[i + 1],
                ),
            self.head() == (if self@.len() == 0 {
                None
            } else {
                Some(self@.first())
            }),
            self.tail() == (if self@.len() == 0 {
                None
            } else {
                Some(self@.last())
            }),
    {
    }

    /// A list does not depend on nodes that are not in it, nor on what its own
    /// nodes hold besides their links.
    pub proof fn law_other_nodes(&self, nodes: Seq<NodeType>, changed: Seq<NodeType>)
        requires
            self.wf(nodes),
            changed.len() >= nodes.len(),
            forall|i: int|
                0 <= i < nodes.len() && self@.contains(i as usize) ==> (#[trigger] changed[i]).link()
                    == nodes[i].link(),
        ensures
            self.wf(changed),
    {
        let order = self.order@;
        assert forall|i: int| 0 <= i < order.len() - 1 implies changed[(
        #[trigger] order[i]) as int].link() == Some(order[i + 1]) by {
            assert(order.contains(order[i]));
        }
    }

    /// A list without nodes.
    pub fn new() -> (r: Self)
        ensures
            r@ == Seq::<usize>::empty(),
            r.head() == None::<usize>,
            r.tail() == None::<usize>,
            forall|nodes: Seq<NodeType>| r.wf(nodes),
    {
        Self { head: None, tail: None, order: Ghost(Seq::empty()), nodes: PhantomData }
    }

    /// Appends a node, which must not be in the list.
    pub fn push_back(&mut self, nodes: &mut Vec<NodeType>, node: usize)
        requires
            old(self).wf(old(nodes)@),
            node < old(nodes)@.len(),
            !old(self)@.contains(node),
        ensures
            final(self).wf(final(nodes)@),
            final(self)@ == old(self)@.push(node),
            final(nodes)@ == (if old(self)@.len() == 0 {
                old(nodes)@
            } else {
                let last = old(self)@.last() as int;
                old(nodes)@.update(last, old(nodes)@[last].with_link(Some(node)))
            }),
    {
        let new_tail: Option<usize> = Some(node);
        match self.tail {
            Some(cur_tail) => {
                proof {
                    let last = self.order@.len() - 1;
                    assert(self.order@[last] == cur_tail);
                    nodes@[cur_tail as int].law_link(new_tail);
                }
                *nodes[cur_tail].next() = new_tail;
                self.tail = new_tail;
            },
            None => {
                self.head = new_tail;
                self.tail = new_tail;
            },
        }
        proof {
            let order = self.order@;
            self.order@ = order.push(node);
            assert forall|i: int| 0 <= i < order.push(node).len() - 1 implies nodes@[(
            #[trigger] order.push(node)[i]) as int].link() == Some(order.push(node)[i + 1]) by {
                if i < order.len() - 1 {
                    assert(order[i] != order.last());
                }
            }
        }
    }

    /// Removes the first node.
    pub fn pop_front(&mut self, nodes: &mut Vec<NodeType>) -> (r: Option<usize>)
        requires
            old(self).wf(old(nodes)@),
        ensures
            final(self).wf(final(nodes)@),
            final(nodes)@ == old(nodes)@,
            r == (if old(self)@.len() == 0 {
                None
            } else {
                Some(old(self)@.first())
            }),
            final(self)@ == (if old(self)@.len() == 0 {
                old(self)@
            } else {
                old(self)@.drop_first()
            }),
    {
        let ghost order = self.order@;
        let cur_head: usize = match self.head {
            Some(cur_head) => cur_head,
            None => {
                return None;
            },
        };
        if self.tail == Some(cur_head) {
            self.head = None;
            self.tail = None;
            proof {
                assert(order[0] == order[order.len() - 1]);
                assert(order.len() == 1);
                self.order@ = Seq::empty();
                assert(order.drop_first() =~= Seq::empty());
            }
        } else {
            proof {
                assert(order[0] == cur_head);
                nodes@[cur_head as int].law_link(None);
            }
            let next: Option<usize> = *nodes[cur_head].next();
            self.head = next;
            proof {
                assert(nodes@ =~= old(nodes)@);
                self.order@ = order.drop_first();
                assert forall|i: int| 0 <= i < order.drop_first().len() - 1 implies nodes@[(
                #[trigger] order.drop_first()[i]) as int].link() == Some(order.drop_first()[i + 1]) by {
                    assert(order[i + 1] == order.drop_first()[i]);
                }
            }
        }
        Some(cur_head)
    }
}

} // verus!
