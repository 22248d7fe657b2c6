use vstd::prelude::*;

verus! {

/// A node of a singly linked list of integers; the node itself holds the
/// first value.
pub struct Node {
    pub value: i32,
    pub next: Option<Box<Node>>,
}

impl Node {
    /// The values of the list that starts at this node, in order.
    pub open spec fn values(self) -> Seq<i32>
        decreases self,
    {
        match self.next {
            Some(n) => seq![self.value] + n.values(),
            None => seq![self.value],
        }
    }

    /// Appends `node`, with whatever follows it, at the end of the list.
    pub fn insert(&mut self, node: Node)
        ensures
            final(self).values() == old(self).values() + node.values(),
        decreases old(self).values().len(),
    {
        match &mut self.next {
            None => {
                self.next = Some(Box::new(node));
            },
            Some(n) => {
                n.insert(node);
            },
        }
    }

    /// Unlinks the node after this one, provided a node follows it in turn;
    /// where the node after this one is the last, the list is left as it is.
    pub fn delete_next(&mut self)
        requires
            old(self).next is Some,
        ensures
            old(self).values().len() > 2 ==> final(self).values() == seq![old(self).value]
                + old(self).values().subrange(2, old(self).values().len() as int),
            old(self).values().len() <= 2 ==> final(self).values() == old(self).values(),
    {
        let ghost v = old(self).values();
        let next = self.next.take().unwrap();
        assert(v == seq![old(self).value] + next.values());
        match next.next {
            Some(n) => {
                assert(next.values() == seq![next.value] + n.values());
                assert(n.values().len() > 0) by {
                    reveal_with_fuel(Node::values, 1);
                }
                assert(v.subrange(2, v.len() as int) =~= n.values());
                self.next = Some(n);
            },
            None => {
                self.next = Some(next);
            },
        }
    }
}

} // verus!
