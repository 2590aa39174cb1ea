//! A singly linked list of cell keys.
use vstd::prelude::*;

verus! {

/// A list node holding one key.
#[derive(Debug)]
pub struct Node {
    pub key: i32,
    pub next: Option<Box<Node>>,
}

/// The keys of a list, from its head.
pub open spec fn keys_of(list: Option<Box<Node>>) -> Seq<i32>
    decreases list,
{
    match list {
        None => Seq::empty(),
        Some(node) => seq![node.key] + keys_of(node.next),
    }
}

/// `s` without the first occurrence of `k` (unchanged if `k` does not occur).
pub open spec fn without_first(s: Seq<i32>, k: i32) -> Seq<i32>
    decreases s.len(),
{
    if s.len() == 0 {
        s
    } else if s[0] == k {
        s.subrange(1, s.len() as int)
    } else {
        seq![s[0]] + without_first(s.subrange(1, s.len() as int), k)
    }
}

impl Node {
    /// The keys of the list that starts at this node.
    pub open spec fn view(&self) -> Seq<i32> {
        seq![self.key] + keys_of(self.next)
    }

    /// A list of one node.
    pub fn new(key: i32) -> (n: Self)
        ensures
            n.key == key,
            n.next is None,
            n.view() == seq![key],
    {
        let n = Node { key, next: None };
        proof {
            assert(n.view() =~= seq![key]);
        }
        n
    }

    /// The list with `key` put in front.
    pub fn prepend(list: Option<Box<Node>>, key: i32) -> (r: Option<Box<Node>>)
        ensures
            keys_of(r) == seq![key] + keys_of(list),
    {
        Some(Box::new(Node { key, next: list }))
    }

    /// Puts `key` at the end of the list.
    pub fn append(head: &mut Option<Box<Node>>, key: i32)
        ensures
            keys_of(*final(head)) == keys_of(*old(head)).push(key),
        decreases *old(head),
    {
        let taken = head.take();
        match taken {
            None => {
                *head = Some(Box::new(Node::new(key)));
                proof {
                    assert(keys_of(*head) =~= seq![key]);
                }
            },
            Some(mut node) => {
                Node::append(&mut node.next, key);
                proof {
                    assert(keys_of(Some(node)) =~= keys_of(*old(head)).push(key));
                }
                *head = Some(node);
            },
        }
    }

    /// Removes the first node holding `key`; whether there was one.
    pub fn remove(head: &mut Option<Box<Node>>, key: i32) -> (found: bool)
        ensures
            found == keys_of(*old(head)).contains(key),
            keys_of(*final(head)) == without_first(keys_of(*old(head)), key),
        decreases *old(head),
    {
        let taken = head.take();
        match taken {
            None => {
                proof {
                    assert(!keys_of(*old(head)).contains(key));
                }
                false
            },
            Some(mut node) => {
                let ghost s = keys_of(Some(node));
                proof {
                    assert(s.subrange(1, s.len() as int) =~= keys_of(node.next));
                }
                if node.key == key {
                    *head = node.next.take();
                    proof {
                        assert(s[0] == key);
                    }
                    true
                } else {
                    let found = Node::remove(&mut node.next, key);
                    proof {
                        assert(s.contains(key) == keys_of(*old(head)).subrange(1, s.len() as int).contains(key)) by {
                            if s.contains(key) {
                                let i = choose|i: int| 0 <= i < s.len() && s[i] == key;
                                assert(s.subrange(1, s.len() as int)[i - 1] == key);
                            }
                            if s.subrange(1, s.len() as int).contains(key) {
                                let i = choose|i: int| 0 <= i < s.len() - 1 && s.subrange(1, s.len() as int)[i] == key;
                                assert(s[i + 1] == key);
                            }
                        }
                        assert(keys_of(Some(node)) =~= seq![s[0]] + keys_of(node.next));
                    }
                    *head = Some(node);
                    found
                }
            },
        }
    }

    /// Whether some node of the list holds `key`.
    pub fn contains(head: &Option<Box<Node>>, key: i32) -> (b: bool)
        ensures
            b == keys_of(*head).contains(key),
        decreases *head,
    {
        match head {
            None => false,
            Some(node) => {
                let ghost s = keys_of(*head);
                proof {
                    assert(s.subrange(1, s.len() as int) =~= keys_of(node.next));
                    assert(s[0] == node.key);
                    assert(s.contains(key) == (s[0] == key || s.subrange(1, s.len() as int).contains(key))) by {
                        if s.contains(key) && s[0] != key {
                            let i = choose|i: int| 0 <= i < s.len() && s[i] == key;
                            assert(s.subrange(1, s.len() as int)[i - 1] == key);
                        }
                        if s.subrange(1, s.len() as int).contains(key) {
                            let i = choose|i: int| 0 <= i < s.len() - 1 && s.subrange(1, s.len() as int)[i] == key;
                            assert(s[i + 1] == key);
                        }
                    }
                }
                if node.key == key {
                    true
                } else {
                    Node::contains(&node.next, key)
                }
            },
        }
    }

    /// The first node holding `key`, if any: the rest of the list from there.
    pub fn find(head: &Option<Box<Node>>, key: i32) -> (r: Option<&Node>)
        ensures
            r is Some <==> keys_of(*head).contains(key),
            r matches Some(n) ==> n.key == key && exists|i: int|
                0 <= i < keys_of(*head).len() && #[trigger] keys_of(*head).subrange(i, keys_of(*head).len() as int) == n.view()
                    && forall|j: int| 0 <= j < i ==> keys_of(*head)[j] != key,
        decreases *head,
    {
        match head {
            None => None,
            Some(node) => {
                let ghost s = keys_of(*head);
                proof {
                    assert(s.subrange(1, s.len() as int) =~= keys_of(node.next));
                    assert(s[0] == node.key);
                }
                if node.key == key {
                    proof {
                        assert(s.subrange(0, s.len() as int) =~= node.view());
                    }
                    Some(node)
                } else {
                    let r = Node::find(&node.next, key);
                    proof {
                        let t = s.subrange(1, s.len() as int);
                        assert(s.contains(key) == t.contains(key)) by {
                            if s.contains(key) {
                                let i = choose|i: int| 0 <= i < s.len() && s[i] == key;
                                assert(t[i - 1] == key);
                            }
                            if t.contains(key) {
                                let i = choose|i: int| 0 <= i < t.len() && t[i] == key;
                                assert(s[i + 1] == key);
                            }
                        }
                        if let Some(n) = r {
                            let i = choose|i: int|
                                0 <= i < t.len() && #[trigger] t.subrange(i, t.len() as int) == n.view() && forall|j: int|
                                    0 <= j < i ==> t[j] != key;
                            assert(s.subrange(i + 1, s.len() as int) =~= t.subrange(i, t.len() as int));
                            assert forall|j: int| 0 <= j < i + 1 implies s[j] != key by {
                                if j > 0 {
                                    assert(s[j] == t[j - 1]);
                                }
                            }
                        }
                    }
                    r
                }
            },
        }
    }

    /// The keys of the list that starts at this node, in order.
    pub fn to_vec(&self) -> (v: Vec<i32>)
        ensures
            v@ == self.view(),
    {
        let mut v: Vec<i32> = Vec::new();
        v.push(self.key);
        Node::push_keys(&self.next, &mut v);
        proof {
            assert(v@ =~= self.view());
        }
        v
    }

    /// Appends the keys of the list to `v`.
    fn push_keys(head: &Option<Box<Node>>, v: &mut Vec<i32>)
        ensures
            final(v)@ == old(v)@ + keys_of(*head),
        decreases *head,
    {
        match head {
            None => {
                proof {
                    assert(old(v)@ + keys_of(*head) =~= old(v)@);
                }
            },
            Some(node) => {
                v.push(node.key);
                Node::push_keys(&node.next, v);
                proof {
                    assert(final(v)@ =~= old(v)@ + keys_of(*head));
                }
            },
        }
    }

    /// The number of nodes in the list.
    pub fn len(head: &Option<Box<Node>>) -> (n: usize)
        requires
            keys_of(*head).len() <= usize::MAX,
        ensures
            n == keys_of(*head).len(),
        decreases *head,
    {
        match head {
            None => 0,
            Some(node) => 1 + Node::len(&node.next),
        }
    }

    /// The list holding the keys of `values`, in order.
    pub fn from_vec(values: &[i32]) -> (r: Option<Box<Node>>)
        ensures
            keys_of(r) == values@,
    {
        let mut r: Option<Box<Node>> = None;
        let mut i = values.len();
        while i > 0
            invariant
                0 <= i <= values@.len(),
                keys_of(r) == values@.subrange(i as int, values@.len() as int),
            decreases i,
        {
            i -= 1;
            r = Node::prepend(r, values[i]);
            proof {
                assert(keys_of(r) =~= values@.subrange(i as int, values@.len() as int));
            }
        }
        proof {
            assert(values@.subrange(0, values@.len() as int) =~= values@);
        }
        r
    }
}

} // verus!
