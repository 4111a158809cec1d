//! Facts about how the list operations combine, stated over `Node::seq_of`, the view
//! that the operations' own contracts use.
use vstd::prelude::*;
use crate::node::Node;

verus! {

/// Reversing a list twice gives back the list it started from: `reverse` maps the
/// payloads `s` to `s.reverse()`, and reversing that again yields `s`, order included.
pub proof fn reverse_twice_is_identity(head: Option<Box<Node>>)
    ensures
        Node::seq_of(head).reverse().reverse() == Node::seq_of(head),
{
    let s = Node::seq_of(head);
    assert(s.reverse().reverse() =~= s);
}

/// Inserting at the head and then deleting at the head leaves the original list: the
/// payloads `[data] + s` lose their first element and become `s` again.
pub proof fn head_insert_then_delete(head: Option<Box<Node>>, data: i32)
    ensures
        seq![data].add(Node::seq_of(head)).len() > 0,
        seq![data].add(Node::seq_of(head)).drop_first() == Node::seq_of(head),
{
    assert(seq![data].add(Node::seq_of(head)).drop_first() =~= Node::seq_of(head));
}

/// Inserting at the tail of a list of length n gives length n + 1 with the new value
/// last, and deleting at the tail afterwards gives back the original payloads.
pub proof fn tail_insert_then_delete(head: Option<Box<Node>>, data: i32)
    ensures
        Node::seq_of(head).push(data).len() == Node::seq_of(head).len() + 1,
        Node::seq_of(head).push(data).last() == data,
        Node::seq_of(head).push(data).drop_last() == Node::seq_of(head),
{
    assert(Node::seq_of(head).push(data).drop_last() =~= Node::seq_of(head));
}

/// Inserting `data` at a position `k` no greater than the length gives a list one longer
/// whose element at `k` is `data`, whose elements before `k` are those of the original,
/// and whose elements after `k` are the original's from `k` on, shifted by one.
pub proof fn insert_at_index_layout(head: Option<Box<Node>>, data: i32, k: int)
    requires
        0 <= k <= Node::seq_of(head).len(),
    ensures
        Node::seq_of(head).insert(k, data).len() == Node::seq_of(head).len() + 1,
        Node::seq_of(head).insert(k, data)[k] == data,
        forall|j: int| 0 <= j < k ==> #[trigger] Node::seq_of(head).insert(k, data)[j] == Node::seq_of(head)[j],
        forall|j: int|
            k < j <= Node::seq_of(head).len() ==> #[trigger] Node::seq_of(head).insert(k, data)[j]
                == Node::seq_of(head)[j - 1],
{
}

} // verus!
