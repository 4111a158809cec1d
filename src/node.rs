use vstd::prelude::*;

verus! {

/// One element of the list: a payload and exclusive ownership of its successor.
#[derive(Debug)]
pub struct Node {
    pub data: i32,
    pub next: Option<Box<Node>>,
}

/// Returned by the positional operations when the index lies past the valid range.
/// It hands the list back exactly as it was received.
#[derive(Debug)]
pub struct IndexOutOfBounds {
    pub head: Option<Box<Node>>,
}

impl Node {
    /// The payloads of the chain starting at `l`, from head to tail.
    pub open spec fn seq_of(l: Option<Box<Node>>) -> Seq<i32>
        decreases l,
    {
        match l {
            None => Seq::empty(),
            Some(n) => seq![n.data].add(Node::seq_of(n.next)),
        }
    }

    /// The chain that starts with the payloads of `p` and continues with `tail`.
    pub open spec fn prepend(p: Seq<i32>, tail: Option<Box<Node>>) -> Option<Box<Node>>
        decreases p.len(),
    {
        if p.len() == 0 {
            tail
        } else {
            Node::prepend(p.drop_last(), Some(Box::new(Node { data: p.last(), next: tail })))
        }
    }

    /// Reading the payloads of `prepend(p, tail)` gives `p` followed by those of `tail`.
    pub proof fn lemma_seq_of_prepend(p: Seq<i32>, tail: Option<Box<Node>>)
        ensures
            Node::seq_of(Node::prepend(p, tail)) == p.add(Node::seq_of(tail)),
        decreases p.len(),
    {
        if p.len() > 0 {
            let t2 = Some(Box::new(Node { data: p.last(), next: tail }));
            Node::lemma_seq_of_prepend(p.drop_last(), t2);
            assert(p.drop_last().add(Node::seq_of(t2)) =~= p.add(Node::seq_of(tail)));
        } else {
            assert(p.add(Node::seq_of(tail)) =~= Node::seq_of(tail));
        }
    }

    /// Moving one more payload into the prefix leaves the chain unchanged.
    pub proof fn lemma_prepend_push(p: Seq<i32>, d: i32, tail: Option<Box<Node>>)
        ensures
            Node::prepend(p.push(d), tail) == Node::prepend(
                p,
                Some(Box::new(Node { data: d, next: tail })),
            ),
    {
        assert(p.push(d).drop_last() =~= p);
    }

    /// A fresh node with no successor.
    pub fn new(data: i32) -> (r: Box<Node>)
        ensures
            r.data == data,
            r.next is None,
    {
        Box::new(Node { data, next: None })
    }

    /// Puts a new node holding `data` in front of `head`.
    pub fn insert_at_head(head: Option<Box<Node>>, data: i32) -> (r: Option<Box<Node>>)
        ensures
            r == Some(Box::new(Node { data, next: head })),
            Node::seq_of(r) == seq![data].add(Node::seq_of(head)),
    {
        Some(Box::new(Node { data, next: head }))
    }

    /// The node at position `index`, counting from zero at the head, or `None` when the
    /// list is not that long.
    pub fn get(head: &Option<Box<Node>>, index: usize) -> (r: Option<&Node>)
        ensures
            index < Node::seq_of(*head).len() ==> (r matches Some(n) && n.data == Node::seq_of(
                *head,
            )[index as int] && Node::seq_of(n.next) == Node::seq_of(*head).skip(index + 1)),
            index >= Node::seq_of(*head).len() ==> r is None,
    {
        let ghost orig = Node::seq_of(*head);
        let mut cur = head;
        let mut i: usize = 0;
        loop
            invariant
                i <= index,
                i <= orig.len(),
                orig == Node::seq_of(*head),
                Node::seq_of(*cur) == orig.skip(i as int),
            decreases orig.len() - i,
        {
            match cur {
                Some(node) => {
                    assert(orig.skip(i as int).len() == Node::seq_of(node.next).len() + 1);
                    assert(orig[i as int] == orig.skip(i as int)[0]);
                    assert(Node::seq_of(node.next) =~= orig.skip(i as int).skip(1));
                    assert(Node::seq_of(node.next) =~= orig.skip(i + 1));
                    if i == index {
                        return Some(&**node);
                    }
                    cur = &node.next;
                    i += 1;
                },
                None => {
                    assert(orig.skip(i as int).len() == 0);
                    return None;
                },
            }
        }
    }

    /// Puts a new node holding `data` at position `index`: the node that stood there, if
    /// any, becomes its successor. Past the end of the list the list is handed back
    /// untouched inside the error.
    pub fn insert_at_index(head: Option<Box<Node>>, data: i32, index: usize) -> (r: Result<
        Option<Box<Node>>,
        IndexOutOfBounds,
    >)
        ensures
            index <= Node::seq_of(head).len() ==> (r matches Ok(h) && Node::seq_of(h)
                == Node::seq_of(head).insert(index as int, data)),
            index > Node::seq_of(head).len() ==> (r matches Err(e) && e.head == head),
    {
        if index == 0 {
            assert(seq![data].add(Node::seq_of(head)) =~= Node::seq_of(head).insert(0, data));
            return Ok(Node::insert_at_head(head, data));
        }
        if Node::get(&head, index - 1).is_none() {
            return Err(IndexOutOfBounds { head });
        }
        let ghost orig = Node::seq_of(head);
        let mut head = head;
        let mut cur = &mut head;
        let ghost mut prefix: Seq<i32> = Seq::empty();
        let mut i: usize = 0;
        while i < index
            invariant
                i <= index <= orig.len(),
                prefix.len() == i,
                after_borrow(head) == Node::prepend(prefix, *final(cur)),
                prefix.add(Node::seq_of(*cur)) == orig,
            decreases index - i,
        {
            match cur {
                Some(node) => {
                    let ghost d = node.data;
                    cur = &mut node.next;
                    proof {
                        Node::lemma_prepend_push(prefix, d, *final(cur));
                        assert(prefix.push(d).add(Node::seq_of(*cur)) =~= orig);
                        prefix = prefix.push(d);
                    }
                },
                None => {
                    assert(prefix.add(Node::seq_of(*cur)) =~= prefix);
                },
            }
            i += 1;
        }
        let rest = cur.take();
        let ghost rest_seq = Node::seq_of(rest);
        *cur = Some(Box::new(Node { data, next: rest }));
        proof {
            Node::lemma_seq_of_prepend(prefix, *cur);
            assert(prefix.add(Node::seq_of(*cur)) =~= orig.insert(index as int, data));
        }
        Ok(head)
    }

    /// Appends a new node holding `data` after the last node.
    pub fn insert_at_tail(head: Option<Box<Node>>, data: i32) -> (r: Option<Box<Node>>)
        ensures
            Node::seq_of(r) == Node::seq_of(head).push(data),
    {
        let ghost orig = Node::seq_of(head);
        let mut head = head;
        let mut cur = &mut head;
        let ghost mut prefix: Seq<i32> = Seq::empty();
        loop
            invariant
                after_borrow(head) == Node::prepend(prefix, *final(cur)),
                prefix.add(Node::seq_of(*cur)) == orig,
            ensures
                after_borrow(head) == Node::prepend(prefix, *final(cur)),
                prefix == orig,
            decreases Node::seq_of(*cur).len(),
        {
            match cur {
                Some(node) => {
                    let ghost d = node.data;
                    cur = &mut node.next;
                    proof {
                        Node::lemma_prepend_push(prefix, d, *final(cur));
                        assert(prefix.push(d).add(Node::seq_of(*cur)) =~= orig);
                        prefix = prefix.push(d);
                    }
                },
                None => {
                    assert(Node::seq_of(*cur) =~= Seq::<i32>::empty());
                    assert(prefix =~= orig);
                    break;
                },
            }
        }
        *cur = Some(Node::new(data));
        proof {
            Node::lemma_seq_of_prepend(prefix, *cur);
            assert(Node::seq_of(*cur) =~= seq![data]);
        }
        head
    }
    /// Removes the first node. On an empty list there is nothing to remove and the
    /// empty list comes back.
    pub fn delete_at_head(head: Option<Box<Node>>) -> (r: Option<Box<Node>>)
        ensures
            head matches Some(n) ==> r == n.next,
            head is None ==> r is None,
            Node::seq_of(r) == if Node::seq_of(head).len() == 0 {
                Seq::empty()
            } else {
                Node::seq_of(head).drop_first()
            },
    {
        match head {
            None => None,
            Some(node) => node.next,
        }
    }

    /// Removes the last node. On an empty list there is nothing to remove and the
    /// empty list comes back.
    pub fn delete_at_tail(head: Option<Box<Node>>) -> (r: Option<Box<Node>>)
        ensures
            head is None ==> r is None,
            Node::seq_of(r) == if Node::seq_of(head).len() == 0 {
                Seq::empty()
            } else {
                Node::seq_of(head).drop_last()
            },
    {
        if head.is_none() {
            return None;
        }
        let ghost orig = Node::seq_of(head);
        let mut head = head;
        let mut cur = &mut head;
        let ghost mut prefix: Seq<i32> = Seq::empty();
        loop
            invariant_except_break
                cur.is_some(),
                prefix.add(Node::seq_of(*cur)) == orig,
            invariant
                after_borrow(head) == Node::prepend(prefix, *final(cur)),
            ensures
                after_borrow(head) == Node::prepend(prefix, *final(cur)),
                prefix == orig.drop_last(),
                orig.len() > 0,
                *cur is None,
            decreases Node::seq_of(*cur).len(),
        {
            let last = match &*cur {
                Some(node) => node.next.is_none(),
                None => true,
            };
            if last {
                proof {
                    assert(Node::seq_of(cur.unwrap().next) =~= Seq::<i32>::empty());
                    assert(Node::seq_of(*cur) =~= seq![cur.unwrap().data]);
                    assert(prefix =~= orig.drop_last());
                }
                *cur = None;
                break;
            }
            match cur {
                Some(node) => {
                    let ghost d = node.data;
                    cur = &mut node.next;
                    proof {
                        Node::lemma_prepend_push(prefix, d, *final(cur));
                        assert(prefix.push(d).add(Node::seq_of(*cur)) =~= orig);
                        prefix = prefix.push(d);
                    }
                },
                None => {},
            }
        }
        proof {
            Node::lemma_seq_of_prepend(prefix, *cur);
            assert(prefix.add(Node::seq_of(*cur)) =~= prefix);
        }
        head
    }

    /// Removes the node at position `index`, splicing its successor into its place.
    /// An empty list comes back empty. Past the last node of a non-empty list, the list
    /// is handed back untouched inside the error.
    pub fn delete_at_index(head: Option<Box<Node>>, index: usize) -> (r: Result<
        Option<Box<Node>>,
        IndexOutOfBounds,
    >)
        ensures
            Node::seq_of(head).len() == 0 ==> (r matches Ok(h) && h is None),
            index < Node::seq_of(head).len() ==> (r matches Ok(h) && Node::seq_of(h)
                == Node::seq_of(head).remove(index as int)),
            0 < Node::seq_of(head).len() <= index ==> (r matches Err(e) && e.head == head),
    {
        if head.is_none() {
            return Ok(None);
        }
        if Node::get(&head, index).is_none() {
            return Err(IndexOutOfBounds { head });
        }
        let ghost orig = Node::seq_of(head);
        let mut head = head;
        let mut cur = &mut head;
        let ghost mut prefix: Seq<i32> = Seq::empty();
        let mut i: usize = 0;
        while i < index
            invariant
                i <= index < orig.len(),
                prefix.len() == i,
                after_borrow(head) == Node::prepend(prefix, *final(cur)),
                prefix.add(Node::seq_of(*cur)) == orig,
            decreases index - i,
        {
            match cur {
                Some(node) => {
                    let ghost d = node.data;
                    cur = &mut node.next;
                    proof {
                        Node::lemma_prepend_push(prefix, d, *final(cur));
                        assert(prefix.push(d).add(Node::seq_of(*cur)) =~= orig);
                        prefix = prefix.push(d);
                    }
                },
                None => {
                    assert(prefix.add(Node::seq_of(*cur)) =~= prefix);
                },
            }
            i += 1;
        }
        let target = cur.take();
        match target {
            Some(t) => {
                *cur = t.next;
            },
            None => {
                assert(prefix.add(Node::seq_of(target)) =~= prefix);
            },
        }
        proof {
            Node::lemma_seq_of_prepend(prefix, *cur);
            assert(prefix.add(Node::seq_of(*cur)) =~= orig.remove(index as int));
        }
        Ok(head)
    }

    /// Relinks every node so that the chain runs the other way; no node is allocated.
    pub fn reverse(head: Option<Box<Node>>) -> (r: Option<Box<Node>>)
        ensures
            Node::seq_of(r) == Node::seq_of(head).reverse(),
    {
        let ghost orig = Node::seq_of(head);
        let mut prev: Option<Box<Node>> = None;
        let mut curr = head;
        loop
            invariant
                Node::seq_of(prev).reverse().add(Node::seq_of(curr)) == orig,
            ensures
                Node::seq_of(prev).reverse() == orig,
            decreases Node::seq_of(curr).len(),
        {
            match curr {
                Some(mut node) => {
                    let ghost d = node.data;
                    let ghost before = Node::seq_of(prev);
                    let next = node.next.take();
                    node.next = prev;
                    prev = Some(node);
                    curr = next;
                    assert(Node::seq_of(prev) == seq![d].add(before));
                    assert(Node::seq_of(prev).reverse().add(Node::seq_of(curr)) =~= orig);
                },
                None => {
                    assert(Node::seq_of(prev).reverse().add(Node::seq_of(curr)) =~= Node::seq_of(
                        prev,
                    ).reverse());
                    break;
                },
            }
        }
        assert(Node::seq_of(prev) =~= orig.reverse());
        prev
    }

    /// Calls `visitor` once on each payload, from head to tail, and stores what it
    /// returns in place of that payload. The links are left as they are.
    pub fn traverse_apply<F: Fn(i32) -> i32>(head: &mut Option<Box<Node>>, visitor: F)
        requires
            forall|i: int|
                0 <= i < Node::seq_of(*old(head)).len() ==> call_requires(
                    visitor,
                    (#[trigger] Node::seq_of(*old(head))[i],),
                ),
        ensures
            Node::seq_of(*final(head)).len() == Node::seq_of(*old(head)).len(),
            forall|i: int|
                0 <= i < Node::seq_of(*old(head)).len() ==> call_ensures(
                    visitor,
                    (Node::seq_of(*old(head))[i],),
                    #[trigger] Node::seq_of(*final(head))[i],
                ),
    {
        let ghost orig = Node::seq_of(*head);
        let mut cur = head;
        let ghost mut done: Seq<i32> = Seq::empty();
        loop
            invariant
                done.len() <= orig.len(),
                forall|i: int| 0 <= i < orig.len() ==> call_requires(visitor, (#[trigger] orig[i],)),
                forall|i: int|
                    0 <= i < done.len() ==> call_ensures(visitor, (orig[i],), #[trigger] done[i]),
                Node::seq_of(*cur) == orig.skip(done.len() as int),
                *final(head) == Node::prepend(done, *final(cur)),
            ensures
                done.len() == orig.len(),
                forall|i: int|
                    0 <= i < done.len() ==> call_ensures(visitor, (orig[i],), #[trigger] done[i]),
                *final(head) == Node::prepend(done, *final(cur)),
                *cur is None,
            decreases orig.len() - done.len(),
        {
            match cur {
                Some(node) => {
                    proof {
                        assert(orig.skip(done.len() as int).len() == Node::seq_of(node.next).len()
                            + 1);
                        assert(orig[done.len() as int] == orig.skip(done.len() as int)[0]);
                        assert(Node::seq_of(node.next) =~= orig.skip(done.len() as int).skip(1));
                        assert(Node::seq_of(node.next) =~= orig.skip(done.len() as int + 1));
                    }
                    let v = visitor(node.data);
                    node.data = v;
                    cur = &mut node.next;
                    proof {
                        Node::lemma_prepend_push(done, v, *final(cur));
                        done = done.push(v);
                    }
                },
                None => {
                    assert(orig.skip(done.len() as int).len() == 0);
                    break;
                },
            }
        }
        proof {
            Node::lemma_seq_of_prepend(done, *cur);
            assert(done.add(Node::seq_of(*cur)) =~= done);
        }
    }

    /// The payloads of the list, from head to tail.
    pub fn to_vec(head: &Option<Box<Node>>) -> (r: Vec<i32>)
        ensures
            r@ == Node::seq_of(*head),
    {
        let ghost orig = Node::seq_of(*head);
        let mut out: Vec<i32> = Vec::new();
        let mut cur = head;
        loop
            invariant
                out@.add(Node::seq_of(*cur)) == orig,
            ensures
                out@ == orig,
            decreases Node::seq_of(*cur).len(),
        {
            match cur {
                Some(node) => {
                    assert(out@.push(node.data).add(Node::seq_of(node.next)) =~= orig);
                    out.push(node.data);
                    cur = &node.next;
                },
                None => {
                    assert(out@.add(Node::seq_of(*cur)) =~= out@);
                    break;
                },
            }
        }
        out
    }
}

} // verus!
