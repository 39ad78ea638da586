//! A trie over keys of small letters (`0..26`), answering whether a key is stored,
//! is only the beginning of stored keys, or neither.

use vstd::prelude::*;

verus! {

/// Number of letters: each node has one child slot per letter.
pub const R: usize = 26;

/// What a trie knows about a key.
#[derive(Debug, Eq, PartialEq, Copy, Clone, PartialOrd, Ord, Structural)]
pub enum Presence {
    /// neither the key nor any longer variants of the key are present in the trie
    Missing,
    /// key is a prefix for one or more values which are in the trie
    Prefix,
    /// key is present in the trie
    Present,
}

#[derive(Debug)]
struct Node {
    is_present: bool,
    next: Vec<Option<Box<Node>>>,
}

/// `k` is a prefix of `key` (possibly all of it).
pub open spec fn is_prefix_of(k: Seq<u8>, key: Seq<u8>) -> bool {
    k.len() <= key.len() && key.subrange(0, k.len() as int) == k
}

/// Every letter of `key` has a child slot.
pub open spec fn letters_in_range(key: Seq<u8>) -> bool {
    forall|i: int| 0 <= i < key.len() ==> #[trigger] key[i] < R
}

impl Node {
    /// The node reached from this one along `key`, if any.
    spec fn node_at(self, key: Seq<u8>) -> Option<Node>
        decreases key.len(),
    {
        if key.len() == 0 {
            Some(self)
        } else if (key[0] as int) < self.next@.len() {
            match self.next@[key[0] as int] {
                Some(child) => (*child).node_at(key.drop_first()),
                None => None,
            }
        } else {
            None
        }
    }

    /// Every node below this one has a slot for each letter.
    spec fn wf(self) -> bool {
        forall|k: Seq<u8>| #[trigger] has_slots(self.node_at(k))
    }

    fn empty() -> (r: Node)
        ensures
            r.wf(),
            r.is_present == false,
            forall|c: int| 0 <= c < R ==> r.next@[c] is None,
            r.next@.len() == R,
    {
        let mut next: Vec<Option<Box<Node>>> = Vec::with_capacity(R);
        let mut i: usize = 0;
        while i < R
            invariant
                i <= R,
                next@.len() == i,
                forall|c: int| 0 <= c < i ==> next@[c] is None,
            decreases R - i,
        {
            next.push(None);
            i += 1;
        }
        let r = Node { is_present: false, next };
        assert forall|k: Seq<u8>| true implies #[trigger] has_slots(r.node_at(k)) by {
            if k.len() > 0 {
                if (k[0] as int) < r.next@.len() {
                    assert(r.next@[k[0] as int] is None);
                }
            }
        }
        r
    }

    /// The node reached from this one along `key[d..]`, if any.
    fn get<'n>(&'n self, key: &[u8], d: usize) -> (r: Option<&'n Node>)
        requires
            d <= key@.len(),
        ensures
            match r {
                Some(n) => self.node_at(key@.subrange(d as int, key@.len() as int)) == Some(*n),
                None => self.node_at(key@.subrange(d as int, key@.len() as int)) is None,
            },
        decreases key@.len() - d,
    {
        let ghost rest = key@.subrange(d as int, key@.len() as int);
        if key.len() == d {
            Some(self)
        } else {
            let c = key[d] as usize;
            assert(rest[0] == c);
            assert(rest.drop_first() =~= key@.subrange(d + 1, key@.len() as int));
            if c < self.next.len() {
                match &self.next[c] {
                    Some(next_node) => next_node.get(key, d + 1),
                    None => None,
                }
            } else {
                None
            }
        }
    }
}

/// The node in a box, if any.
spec fn boxed_node(o: Option<Box<Node>>) -> Option<Node> {
    match o {
        Some(b) => Some(*b),
        None => None,
    }
}

/// What `existing` says of `k`, with no node saying `Missing`.
spec fn presence_before(existing: Option<Box<Node>>, k: Seq<u8>) -> Presence {
    match boxed_node(existing) {
        Some(n) => presence_of(n.node_at(k)),
        None => Presence::Missing,
    }
}

/// What is said of `k` once `rest` is stored where `before` was said of it.
pub open spec fn stored_after(before: Presence, k: Seq<u8>, rest: Seq<u8>) -> Presence {
    if k == rest {
        Presence::Present
    } else if is_prefix_of(k, rest) {
        if before == Presence::Present {
            Presence::Present
        } else {
            Presence::Prefix
        }
    } else {
        before
    }
}

/// The node, if any, has a slot for each letter.
spec fn has_slots(n: Option<Node>) -> bool {
    match n {
        Some(x) => x.next@.len() == R,
        None => true,
    }
}

/// What the node (if any) that a key leads to says of it.
spec fn presence_of(n: Option<Node>) -> Presence {
    match n {
        None => Presence::Missing,
        Some(n) => if n.is_present {
            Presence::Present
        } else {
            Presence::Prefix
        },
    }
}

/// A trie of byte keys whose letters are below `R`.
#[derive(Debug)]
pub struct Trie {
    root: Option<Box<Node>>,
}

impl Trie {
    /// What the trie says of `key`.
    pub closed spec fn presence(&self, key: Seq<u8>) -> Presence {
        match self.root {
            None => Presence::Missing,
            Some(r) => presence_of((*r).node_at(key)),
        }
    }

    /// Every node has a slot for each letter.
    pub closed spec fn wf(&self) -> bool {
        self.root matches Some(r) ==> (*r).wf()
    }

    /// An empty trie.
    pub fn new() -> (r: Trie)
        ensures
            r.wf(),
            forall|k: Seq<u8>| #[trigger] r.presence(k) == Presence::Missing,
    {
        Trie { root: None }
    }

    /// Whether `key` is stored, only begins stored keys, or neither.
    pub fn contains(&self, key: &[u8]) -> (r: Presence)
        ensures
            r == self.presence(key@),
    {
        assert(key@.subrange(0, key@.len() as int) =~= key@);
        match &self.root {
            None => Presence::Missing,
            Some(r) => match r.get(key, 0) {
                Some(x) => if x.is_present {
                    Presence::Present
                } else {
                    Presence::Prefix
                },
                None => Presence::Missing,
            },
        }
    }

    /// Stores `key`: afterwards it is present, each shorter prefix of it is at least a
    /// prefix, and every other key is as before.
    pub fn add(&mut self, key: &[u8])
        requires
            old(self).wf(),
            letters_in_range(key@),
        ensures
            final(self).wf(),
            forall|k: Seq<u8>| #[trigger] final(self).presence(k) == stored_after(old(self).presence(k), k, key@),
    {
        let old_root = self.root.take();
        assert(key@.subrange(0, key@.len() as int) =~= key@);
        let node = Trie::add_node(old_root, key, 0);
        self.root = Some(Box::new(node));
        proof {
            assert forall|k: Seq<u8>| true implies #[trigger] self.presence(k) == stored_after(
                old(self).presence(k),
                k,
                key@,
            ) by {
                assert(self.presence(k) == presence_of(node.node_at(k)));
                assert(old(self).presence(k) == presence_before(old_root, k));
            }
        }
    }

    /// `existing` (or an empty node) with `key[d..]` stored below it.
    fn add_node(existing: Option<Box<Node>>, key: &[u8], d: usize) -> (r: Node)
        requires
            d <= key@.len(),
            letters_in_range(key@),
            boxed_node(existing) matches Some(n) ==> n.wf(),
        ensures
            r.wf(),
            forall|k: Seq<u8>|
                #[trigger] presence_of(r.node_at(k)) == stored_after(
                    presence_before(existing, k),
                    k,
                    key@.subrange(d as int, key@.len() as int),
                ),
        decreases key@.len() - d,
    {
        let ghost rest = key@.subrange(d as int, key@.len() as int);
        let ghost had = existing is Some;
        let ghost before = existing;
        let mut real_x = match existing {
            Some(b) => *b,
            None => Node::empty(),
        };
        let ghost e = real_x;
        proof {
            assert(had ==> boxed_node(before) == Some(e));
            assert(e.wf());
            assert(has_slots(e.node_at(Seq::empty())));
            assert(e.next@.len() == R);
            assert forall|k: Seq<u8>| k.len() > 0 implies #[trigger] presence_of(e.node_at(k)) == presence_before(before, k) by {
                if !had {
                    if (k[0] as int) < e.next@.len() {
                        assert(e.next@[k[0] as int] is None);
                    }
                }
            }
            assert(e.is_present == (presence_before(before, Seq::empty()) == Presence::Present));
        }
        if key.len() == d {
            real_x.is_present = true;
            proof {
                assert forall|k: Seq<u8>| k.len() > 0 implies #[trigger] real_x.node_at(k) == e.node_at(k) by {}
                assert forall|k: Seq<u8>| true implies #[trigger] has_slots(real_x.node_at(k)) by {
                    if k.len() > 0 {
                        assert(real_x.node_at(k) == e.node_at(k));
                        assert(has_slots(e.node_at(k)));
                    } else {
                        assert(real_x.node_at(k) == Some(real_x));
                    }
                }
                assert forall|k: Seq<u8>| true implies #[trigger] presence_of(real_x.node_at(k)) == stored_after(
                    presence_before(before, k),
                    k,
                    rest,
                ) by {
                    if k.len() == 0 {
                        assert(k =~= rest);
                        assert(real_x.node_at(k) == Some(real_x));
                    } else {
                        assert(real_x.node_at(k) == e.node_at(k));
                    }
                }
            }
        } else {
            let c = key[d] as usize;
            let mut child: Option<Box<Node>> = None;
            std::mem::swap(&mut child, &mut real_x.next[c]);
            proof {
                assert(child == e.next@[c as int]);
                assert forall|k: Seq<u8>| k.len() > 0 && k[0] == c as u8 implies #[trigger] e.node_at(k) == match boxed_node(child) {
                    Some(b) => b.node_at(k.drop_first()),
                    None => None::<Node>,
                } by {}
                if boxed_node(child) is Some {
                    let b = boxed_node(child)->Some_0;
                    assert forall|k: Seq<u8>| true implies #[trigger] has_slots(b.node_at(k)) by {
                        let k2 = seq![c as u8] + k;
                        assert(k2.drop_first() =~= k);
                        assert(e.node_at(k2) == b.node_at(k));
                        assert(has_slots(e.node_at(k2)));
                    }
                }
            }
            let new_child = Trie::add_node(child, key, d + 1);
            real_x.next.set(c, Some(Box::new(new_child)));
            proof {
                let rest2 = key@.subrange(d + 1, key@.len() as int);
                assert(rest[0] == c as u8);
                assert(rest.drop_first() =~= rest2);
                assert forall|k: Seq<u8>| k.len() > 0 && k[0] != c as u8 implies #[trigger] real_x.node_at(k) == e.node_at(k) by {}
                assert forall|k: Seq<u8>| k.len() > 0 && k[0] == c as u8 implies #[trigger] real_x.node_at(k) == new_child.node_at(k.drop_first()) by {}
                assert forall|k: Seq<u8>| true implies #[trigger] has_slots(real_x.node_at(k)) by {
                    if k.len() > 0 {
                        if k[0] == c as u8 {
                            assert(real_x.node_at(k) == new_child.node_at(k.drop_first()));
                            assert(has_slots(new_child.node_at(k.drop_first())));
                        } else {
                            assert(real_x.node_at(k) == e.node_at(k));
                            assert(has_slots(e.node_at(k)));
                        }
                    } else {
                        assert(real_x.node_at(k) == Some(real_x));
                    }
                }
                assert forall|k: Seq<u8>| true implies #[trigger] presence_of(real_x.node_at(k)) == stored_after(
                    presence_before(before, k),
                    k,
                    rest,
                ) by {
                    if k.len() == 0 {
                        assert(real_x.node_at(k) == Some(real_x));
                        assert(rest.subrange(0, 0) =~= k);
                        assert(is_prefix_of(k, rest));
                        assert(k != rest);
                    } else if k[0] == c as u8 {
                        let k1 = k.drop_first();
                        assert(real_x.node_at(k) == new_child.node_at(k1));
                        assert(presence_before(child, k1) == presence_before(before, k));
                        assert(presence_of(new_child.node_at(k1)) == stored_after(presence_before(child, k1), k1, rest2));
                        assert(k == rest <==> k1 == rest2) by {
                            if k1 == rest2 {
                                assert(k =~= seq![k[0]] + k1);
                                assert(rest =~= seq![rest[0]] + rest2);
                            }
                        }
                        assert(is_prefix_of(k, rest) <==> is_prefix_of(k1, rest2)) by {
                            if is_prefix_of(k1, rest2) {
                                assert(rest.subrange(0, k.len() as int) =~= seq![rest[0]] + rest2.subrange(0, k1.len() as int));
                                assert(k =~= seq![k[0]] + k1);
                            }
                            if is_prefix_of(k, rest) {
                                assert(rest2.subrange(0, k1.len() as int) =~= rest.subrange(0, k.len() as int).drop_first());
                            }
                        }
                    } else {
                        assert(real_x.node_at(k) == e.node_at(k));
                        assert(!is_prefix_of(k, rest)) by {
                            if is_prefix_of(k, rest) {
                                assert(rest.subrange(0, k.len() as int)[0] == k[0]);
                            }
                        }
                    }
                }
            }
        }
        real_x
    }
}

impl Node {
    /// A key that leads to a node of a well-formed node has only letters below `R`.
    proof fn lemma_node_letters(self, k: Seq<u8>)
        requires
            self.wf(),
            self.node_at(k) is Some,
        ensures
            letters_in_range(k),
        decreases k.len(),
    {
        if k.len() > 0 {
            assert(has_slots(self.node_at(Seq::empty())));
            let c = k[0];
            let child = self.next@[c as int]->Some_0;
            assert forall|k2: Seq<u8>| true implies #[trigger] has_slots((*child).node_at(k2)) by {
                let k3 = seq![c] + k2;
                assert(k3.drop_first() =~= k2);
                assert(self.node_at(k3) == (*child).node_at(k2));
                assert(has_slots(self.node_at(k3)));
            }
            (*child).lemma_node_letters(k.drop_first());
            assert forall|i: int| 0 <= i < k.len() implies #[trigger] k[i] < R by {
                if i > 0 {
                    assert(k.drop_first()[i - 1] == k[i]);
                }
            }
        }
    }
}

impl Trie {
    /// Only keys of letters below `R` can be stored or begin stored keys.
    pub proof fn lemma_known_letters(&self, k: Seq<u8>)
        requires
            self.wf(),
            self.presence(k) != Presence::Missing,
        ensures
            letters_in_range(k),
    {
        let r = self.root->Some_0;
        (*r).lemma_node_letters(k);
    }
}

impl Node {
    /// A key that leads nowhere has no longer key leading anywhere.
    proof fn lemma_node_missing_extends(self, k: Seq<u8>, k2: Seq<u8>)
        requires
            self.node_at(k) is None,
            is_prefix_of(k, k2),
        ensures
            self.node_at(k2) is None,
        decreases k.len(),
    {
        assert(k.len() > 0);
        assert(k2[0] == k[0]) by {
            assert(k2.subrange(0, k.len() as int)[0] == k[0]);
        }
        if (k[0] as int) < self.next@.len() {
            match self.next@[k[0] as int] {
                Some(child) => {
                    assert(k2.drop_first().subrange(0, k.drop_first().len() as int) =~= k2.subrange(0, k.len() as int).drop_first());
                    (*child).lemma_node_missing_extends(k.drop_first(), k2.drop_first());
                },
                None => {},
            }
        }
    }
}

impl Trie {
    /// Neither a missing key nor anything that begins with it is stored.
    pub proof fn lemma_missing_extends(&self, k: Seq<u8>, k2: Seq<u8>)
        requires
            self.presence(k) == Presence::Missing,
            is_prefix_of(k, k2),
        ensures
            self.presence(k2) == Presence::Missing,
    {
        if self.root is Some {
            let r = self.root->Some_0;
            (*r).lemma_node_missing_extends(k, k2);
        }
    }
}

} // verus!
