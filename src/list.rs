use vstd::prelude::*;

use crate::arena::{Arena, Index};

verus! {

/// A list node as stored in the arena.
#[derive(Clone, Copy)]
pub struct Node<T> {
    pub value: T,
    pub prev: Option<Index>,
    pub next: Option<Index>,
}

impl<T> Node<T> {
    pub fn new(value: T) -> (r: Node<T>)
        ensures
            r.value == value,
            r.prev is None,
            r.next is None,
    {
        Node { value, prev: None, next: None }
    }
}

/// Doubly-linked list whose nodes live in an arena owned by the caller; the list holds only
/// its two ends.
#[derive(Clone, Copy)]
pub struct List {
    pub head: Option<Index>,
    pub tail: Option<Index>,
    /// The nodes from head to tail.
    pub nodes: Ghost<Seq<Index>>,
}

/// The link that position `k` of `n` holds towards its predecessor.
pub open spec fn prev_link(n: Seq<Index>, k: int) -> Option<Index> {
    if k == 0 {
        None
    } else {
        Some(n[k - 1])
    }
}

/// The link that position `k` of `n` holds towards its successor.
pub open spec fn next_link(n: Seq<Index>, k: int) -> Option<Index> {
    if k + 1 >= n.len() {
        None
    } else {
        Some(n[k + 1])
    }
}

/// Whether index sequences are free of repeated slots (two handles with one slot number are one).
pub open spec fn distinct_slots(n: Seq<Index>) -> bool {
    forall|a: int, b: int| 0 <= a < n.len() && 0 <= b < n.len() && a != b ==> n[a]@ != n[b]@
}

/// Whether `n` is a chain of distinct occupied slots of `m`, each linked to its neighbours.
pub open spec fn chain_ok<T>(n: Seq<Index>, m: Map<nat, Node<T>>) -> bool {
    &&& distinct_slots(n)
    &&& forall|k: int| 0 <= k < n.len() ==> #[trigger] m.contains_key(n[k]@)
    &&& forall|k: int| 0 <= k < n.len() ==> (#[trigger] m[n[k]@]).prev == prev_link(n, k)
    &&& forall|k: int| 0 <= k < n.len() ==> (#[trigger] m[n[k]@]).next == next_link(n, k)
}

/// The slots after node `k` of the chain `n` is cut out of `m`: its neighbours link to each
/// other and its slot is gone.
pub open spec fn unlinked<T>(n: Seq<Index>, k: int, m: Map<nat, Node<T>>) -> Map<nat, Node<T>> {
    let p = prev_link(n, k);
    let q = next_link(n, k);
    let m1 = if k > 0 {
        m.insert(n[k - 1]@, Node { next: q, ..m[n[k - 1]@] })
    } else {
        m
    };
    let m2 = if k + 1 < n.len() {
        m1.insert(n[k + 1]@, Node { prev: p, ..m1[n[k + 1]@] })
    } else {
        m1
    };
    m2.remove(n[k]@)
}

proof fn lemma_unlink<T>(n: Seq<Index>, k: int, m: Map<nat, Node<T>>)
    requires
        chain_ok(n, m),
        0 <= k < n.len(),
    ensures
        chain_ok(n.remove(k), unlinked(n, k, m)),
        n.remove(k).map_values(|i: Index| unlinked(n, k, m)[i@].value) == n.map_values(
            |i: Index| m[i@].value,
        ).remove(k),
        unlinked(n, k, m).dom() == m.dom().remove(n[k]@),
{
    let nn = n.remove(k);
    let u = unlinked(n, k, m);
    assert forall|j: int| 0 <= j < nn.len() implies nn[j] == if j < k { n[j] } else { n[j + 1] } by {}
    assert forall|j: int| 0 <= j < n.len() && j != k implies u.contains_key(n[j]@) && u[n[j]@] == if j == k - 1 {
        Node { next: next_link(n, k), ..m[n[j]@] }
    } else if j == k + 1 {
        Node { prev: prev_link(n, k), ..m[n[j]@] }
    } else {
        m[n[j]@]
    } by {
        assert(n[j]@ != n[k]@);
        if k > 0 && j != k - 1 {
            assert(n[j]@ != n[k - 1]@);
        }
        if k + 1 < n.len() && j != k + 1 {
            assert(n[j]@ != n[k + 1]@);
        }
        if k > 0 && k + 1 < n.len() {
            assert(n[k - 1]@ != n[k + 1]@);
        }
    }
    assert forall|j: int| 0 <= j < nn.len() implies #[trigger] u.contains_key(nn[j]@) by {
        if j >= k {
            assert(nn[j] == n[j + 1]);
        }
    }
    assert forall|j: int| 0 <= j < nn.len() implies (#[trigger] u[nn[j]@]).prev == prev_link(nn, j) by {
        if j >= k {
            assert(nn[j] == n[j + 1]);
        }
    }
    assert forall|j: int| 0 <= j < nn.len() implies (#[trigger] u[nn[j]@]).next == next_link(nn, j) by {
        if j >= k {
            assert(nn[j] == n[j + 1]);
        }
    }
    assert(distinct_slots(nn)) by {
        assert forall|a: int, b: int| 0 <= a < nn.len() && 0 <= b < nn.len() && a != b implies nn[a]@ != nn[b]@ by {
            let a2 = if a < k { a } else { a + 1 };
            let b2 = if b < k { b } else { b + 1 };
            assert(nn[a] == n[a2]);
            assert(nn[b] == n[b2]);
        }
    }
    assert(nn.map_values(|i: Index| u[i@].value) =~= n.map_values(|i: Index| m[i@].value).remove(k));
    assert(u.dom() =~= m.dom().remove(n[k]@));
}

impl List {
    pub open spec fn node_seq(&self) -> Seq<Index> {
        self.nodes@
    }

    /// The list is well formed in `m`, the occupied slots of its arena: the ends match the node
    /// sequence, every node is occupied, and each node links to its neighbours both ways.
    pub open spec fn wf_in<T>(&self, m: Map<nat, Node<T>>) -> bool {
        let n = self.nodes@;
        &&& chain_ok(n, m)
        &&& (n.len() == 0 ==> self.head is None && self.tail is None)
        &&& (n.len() > 0 ==> self.head == Some(n[0]) && self.tail == Some(n[n.len() - 1]))
    }

    /// The values from head to tail.
    pub open spec fn values<T>(&self, m: Map<nat, Node<T>>) -> Seq<T> {
        self.nodes@.map_values(|i: Index| m[i@].value)
    }

    /// Whether slot `i` is one of this list's nodes.
    pub open spec fn owns(&self, i: nat) -> bool {
        exists|k: int| 0 <= k < self.nodes@.len() && self.nodes@[k]@ == i
    }

    pub fn new() -> (r: List)
        ensures
            r.node_seq() == Seq::<Index>::empty(),
            r.head is None,
            r.tail is None,
    {
        List { head: None, tail: None, nodes: Ghost(Seq::empty()) }
    }

    /// An empty list is well formed in any arena.
    pub proof fn lemma_empty_wf<T>(&self, m: Map<nat, Node<T>>)
        requires
            self.node_seq().len() == 0,
            self.head is None,
            self.tail is None,
        ensures
            self.wf_in(m),
    {
    }

    /// Appends `value` at the tail and returns its handle.
    pub fn push_back<T>(&mut self, arena: &mut Arena<Node<T>>, value: T) -> (r: Index)
        requires
            old(arena).wf(),
            old(arena).can_alloc(),
            old(self).wf_in(old(arena)@),
        ensures
            final(arena).wf(),
            final(self).wf_in(final(arena)@),
            !old(arena)@.contains_key(r@),
            final(self).node_seq() == old(self).node_seq().push(r),
            final(self).values(final(arena)@) == old(self).values(old(arena)@).push(value),
            final(arena)@.dom() == old(arena)@.dom().insert(r@),
            forall|i: nat| i != r@ && !old(self).owns(i) ==> final(arena)@[i] == old(arena)@[i],
            forall|i: nat| i != r@ && old(arena)@.contains_key(i) ==> final(arena)@[i].value == old(arena)@[i].value,
            final(arena)@[r@].value == value,
            old(arena).free_list().len() > 0 ==> final(arena).free_list() == old(arena).free_list().drop_first(),
    {
        let ghost n = self.nodes@;
        let ghost m0 = arena@;
        let mut node = Node::new(value);
        node.prev = self.tail;
        node.next = None;
        let idx = arena.insert(node);
        let ghost m1 = arena@;
        proof {
            assert forall|k: int| 0 <= k < n.len() implies n[k]@ != idx@ by {
                assert(m0.contains_key(n[k]@));
            }
        }
        match self.tail {
            Some(tail) => {
                let t = arena.get_mut(tail);
                match t {
                    Some(tn) => {
                        tn.next = Some(idx);
                    },
                    None => {},
                }
            },
            None => {
                self.head = Some(idx);
            },
        }
        self.tail = Some(idx);
        self.nodes = Ghost(n.push(idx));
        proof {
            let nn = n.push(idx);
            let m = arena@;
            assert forall|k: int| 0 <= k < nn.len() implies #[trigger] m.contains_key(nn[k]@) by {
                if k < n.len() {
                    assert(m0.contains_key(n[k]@));
                }
            }
            assert forall|k: int| 0 <= k < nn.len() implies (#[trigger] m[nn[k]@]).prev == prev_link(nn, k) by {
                if k < n.len() {
                    assert(m0[n[k]@].prev == prev_link(n, k));
                }
            }
            assert forall|k: int| 0 <= k < nn.len() implies (#[trigger] m[nn[k]@]).next == next_link(nn, k) by {
                if k + 1 < n.len() {
                    assert(n[k]@ != n[n.len() - 1]@);
                    assert(m0[n[k]@].next == next_link(n, k));
                }
            }
            assert(distinct_slots(nn));
            assert forall|i: nat| i != idx@ && !old(self).owns(i) implies m[i] == m0[i] by {
                if n.len() > 0 {
                    if i == n[n.len() - 1]@ {
                        assert(old(self).owns(i));
                    }
                }
            }
            assert(self.values(m) =~= old(self).values(m0).push(value)) by {
                assert forall|k: int| 0 <= k < n.len() implies m[n[k]@].value == m0[n[k]@].value by {}
            }
            assert(m.dom() =~= m0.dom().insert(idx@));
        }
        idx
    }

    /// Prepends `value` at the head and returns its handle.
    pub fn push_front<T>(&mut self, arena: &mut Arena<Node<T>>, value: T) -> (r: Index)
        requires
            old(arena).wf(),
            old(arena).can_alloc(),
            old(self).wf_in(old(arena)@),
        ensures
            final(arena).wf(),
            final(self).wf_in(final(arena)@),
            !old(arena)@.contains_key(r@),
            final(self).node_seq() == seq![r] + old(self).node_seq(),
            final(self).values(final(arena)@) == seq![value] + old(self).values(old(arena)@),
            final(arena)@.dom() == old(arena)@.dom().insert(r@),
            forall|i: nat| i != r@ && !old(self).owns(i) ==> final(arena)@[i] == old(arena)@[i],
    {
        let ghost n = self.nodes@;
        let ghost m0 = arena@;
        let mut node = Node::new(value);
        node.prev = None;
        node.next = self.head;
        let idx = arena.insert(node);
        proof {
            assert forall|k: int| 0 <= k < n.len() implies n[k]@ != idx@ by {
                assert(m0.contains_key(n[k]@));
            }
        }
        match self.head {
            Some(head) => {
                let h = arena.get_mut(head);
                match h {
                    Some(hn) => {
                        hn.prev = Some(idx);
                    },
                    None => {},
                }
            },
            None => {
                self.tail = Some(idx);
            },
        }
        self.head = Some(idx);
        self.nodes = Ghost(seq![idx] + n);
        proof {
            let nn = seq![idx] + n;
            let m = arena@;
            assert forall|k: int| 0 <= k < nn.len() implies #[trigger] m.contains_key(nn[k]@) by {
                if k > 0 {
                    assert(nn[k] == n[k - 1]);
                    assert(m0.contains_key(n[k - 1]@));
                }
            }
            assert forall|k: int| 0 <= k < nn.len() implies (#[trigger] m[nn[k]@]).prev == prev_link(nn, k) by {
                if k > 1 {
                    assert(nn[k] == n[k - 1]);
                    assert(n[k - 1]@ != n[0]@);
                    assert(m0[n[k - 1]@].prev == prev_link(n, k - 1));
                }
            }
            assert forall|k: int| 0 <= k < nn.len() implies (#[trigger] m[nn[k]@]).next == next_link(nn, k) by {
                if k > 0 {
                    assert(nn[k] == n[k - 1]);
                    assert(m0[n[k - 1]@].next == next_link(n, k - 1));
                }
            }
            assert(distinct_slots(nn)) by {
                assert forall|a: int, b: int| 0 <= a < nn.len() && 0 <= b < nn.len() && a != b implies nn[a]@ != nn[b]@ by {
                    if a > 0 && b > 0 {
                        assert(nn[a] == n[a - 1]);
                        assert(nn[b] == n[b - 1]);
                    } else if a == 0 {
                        assert(nn[b] == n[b - 1]);
                    } else {
                        assert(nn[a] == n[a - 1]);
                    }
                }
            }
            assert forall|i: nat| i != idx@ && !old(self).owns(i) implies m[i] == m0[i] by {
                if n.len() > 0 {
                    if i == n[0]@ {
                        assert(old(self).owns(i));
                    }
                }
            }
            assert(self.values(m) =~= seq![value] + old(self).values(m0)) by {
                assert forall|k: int| 0 <= k < n.len() implies m[n[k]@].value == m0[n[k]@].value by {}
            }
            assert(m.dom() =~= m0.dom().insert(idx@));
        }
        idx
    }

    pub fn peek_front<'a, T>(&self, arena: &'a Arena<Node<T>>) -> (r: Option<&'a T>)
        requires
            arena.wf(),
            self.wf_in(arena@),
        ensures
            r is Some <==> self.node_seq().len() > 0,
            r matches Some(v) ==> *v == self.values(arena@)[0],
    {
        match self.head {
            Some(h) => match arena.get(h) {
                Some(n) => Some(&n.value),
                None => None,
            },
            None => None,
        }
    }

    pub fn peek_back<'a, T>(&self, arena: &'a Arena<Node<T>>) -> (r: Option<&'a T>)
        requires
            arena.wf(),
            self.wf_in(arena@),
        ensures
            r is Some <==> self.node_seq().len() > 0,
            r matches Some(v) ==> *v == self.values(arena@).last(),
    {
        match self.tail {
            Some(t) => match arena.get(t) {
                Some(n) => Some(&n.value),
                None => None,
            },
            None => None,
        }
    }

    /// Removes the node `idx`, which belongs to this list, or, where its slot is free, does
    /// nothing and returns `None`.
    pub fn remove<T>(&mut self, arena: &mut Arena<Node<T>>, idx: Index) -> (r: Option<T>)
        requires
            old(arena).wf(),
            old(self).wf_in(old(arena)@),
            old(self).owns(idx@) || !old(arena)@.contains_key(idx@),
        ensures
            final(arena).wf(),
            final(self).wf_in(final(arena)@),
            r is Some <==> old(self).owns(idx@),
            r is None ==> *final(self) == *old(self) && *final(arena) == *old(arena),
            r is Some ==> {
                let k = old(self).position_of(idx@);
                &&& 0 <= k < old(self).node_seq().len()
                &&& old(self).node_seq()[k]@ == idx@
                &&& r->Some_0 == old(self).values(old(arena)@)[k]
                &&& final(self).node_seq() == old(self).node_seq().remove(k)
                &&& final(self).values(final(arena)@) == old(self).values(old(arena)@).remove(k)
                &&& final(arena)@.dom() == old(arena)@.dom().remove(idx@)
                &&& final(arena).free_list() == seq![idx@] + old(arena).free_list()
            },
            forall|i: nat| !old(self).owns(i) ==> final(arena)@[i] == old(arena)@[i],
            forall|i: nat| final(arena)@.contains_key(i) ==> final(arena)@[i].value == old(arena)@[i].value,
    {
        let ghost n = self.nodes@;
        let ghost m0 = arena@;
        let (prev, next) = match arena.get(idx) {
            Some(node) => (node.prev, node.next),
            None => {
                return None;
            },
        };
        let ghost k = self.position_of(idx@);
        proof {
            self.lemma_position_of(idx@);
            if n.len() > 1 {
                assert(prev is Some ==> prev->Some_0@ != idx@ && m0.contains_key(prev->Some_0@));
                assert(next is Some ==> next->Some_0@ != idx@ && m0.contains_key(next->Some_0@));
                assert(prev is Some && next is Some ==> prev->Some_0@ != next->Some_0@);
            }
        }
        match prev {
            Some(p) => {
                match arena.get_mut(p) {
                    Some(pn) => {
                        pn.next = next;
                    },
                    None => {},
                }
            },
            None => {
                self.head = next;
            },
        }
        match next {
            Some(nx) => {
                match arena.get_mut(nx) {
                    Some(nn) => {
                        nn.prev = prev;
                    },
                    None => {},
                }
            },
            None => {
                self.tail = prev;
            },
        }
        let ghost m1 = arena@;
        let removed = arena.remove(idx);
        self.nodes = Ghost(n.remove(k));
        proof {
            let m = arena@;
            assert(m1 =~= unlinked(n, k, m0).insert(idx@, m0[idx@]));
            assert(m =~= unlinked(n, k, m0));
            lemma_unlink(n, k, m0);
            assert forall|i: nat| !old(self).owns(i) implies m[i] == m0[i] by {
                if k > 0 && i == n[k - 1]@ {
                    assert(old(self).owns(i));
                }
                if k + 1 < n.len() && i == n[k + 1]@ {
                    assert(old(self).owns(i));
                }
            }
        }
        match removed {
            Some(node) => Some(node.value),
            None => None,
        }
    }

    /// Position of slot `i` in the node sequence.
    pub open spec fn position_of(&self, i: nat) -> int {
        choose|k: int| 0 <= k < self.nodes@.len() && self.nodes@[k]@ == i
    }

    pub proof fn lemma_position_of(&self, i: nat)
        requires
            self.owns(i),
        ensures
            0 <= self.position_of(i) < self.node_seq().len(),
            self.node_seq()[self.position_of(i)]@ == i,
    {
    }

    /// Removes and returns the head value.
    pub fn pop_front<T>(&mut self, arena: &mut Arena<Node<T>>) -> (r: Option<T>)
        requires
            old(arena).wf(),
            old(self).wf_in(old(arena)@),
        ensures
            final(arena).wf(),
            final(self).wf_in(final(arena)@),
            r is Some <==> old(self).node_seq().len() > 0,
            r is None ==> *final(self) == *old(self) && *final(arena) == *old(arena),
            r is Some ==> {
                &&& r->Some_0 == old(self).values(old(arena)@)[0]
                &&& final(self).node_seq() == old(self).node_seq().drop_first()
                &&& final(self).values(final(arena)@) == old(self).values(old(arena)@).drop_first()
                &&& final(arena)@.dom() == old(arena)@.dom().remove(old(self).node_seq()[0]@)
            },
            forall|i: nat| !old(self).owns(i) ==> final(arena)@[i] == old(arena)@[i],
    {
        match self.head {
            Some(h) => {
                proof {
                    assert(self.owns(h@)) by {
                        assert(self.nodes@[0] == h);
                    }
                    self.lemma_position_of(h@);
                    let k = self.position_of(h@);
                    if k != 0 {
                        assert(self.nodes@[k]@ != self.nodes@[0]@);
                    }
                    assert(self.node_seq().remove(0) =~= self.node_seq().drop_first());
                    assert(self.values(arena@).remove(0) =~= self.values(arena@).drop_first());
                }
                self.remove(arena, h)
            },
            None => None,
        }
    }

    /// Removes and returns the tail value.
    pub fn pop_back<T>(&mut self, arena: &mut Arena<Node<T>>) -> (r: Option<T>)
        requires
            old(arena).wf(),
            old(self).wf_in(old(arena)@),
        ensures
            final(arena).wf(),
            final(self).wf_in(final(arena)@),
            r is Some <==> old(self).node_seq().len() > 0,
            r is None ==> *final(self) == *old(self) && *final(arena) == *old(arena),
            r is Some ==> {
                &&& r->Some_0 == old(self).values(old(arena)@).last()
                &&& final(self).node_seq() == old(self).node_seq().drop_last()
                &&& final(self).values(final(arena)@) == old(self).values(old(arena)@).drop_last()
                &&& final(arena)@.dom() == old(arena)@.dom().remove(old(self).node_seq().last()@)
            },
            forall|i: nat| !old(self).owns(i) ==> final(arena)@[i] == old(arena)@[i],
    {
        match self.tail {
            Some(t) => {
                proof {
                    let n = self.nodes@;
                    let last = n.len() - 1;
                    assert(self.owns(t@)) by {
                        assert(n[last] == t);
                    }
                    self.lemma_position_of(t@);
                    let k = self.position_of(t@);
                    if k != last {
                        assert(n[k]@ != n[last]@);
                    }
                    assert(self.node_seq().remove(last) =~= self.node_seq().drop_last());
                    assert(self.values(arena@).remove(last) =~= self.values(arena@).drop_last());
                }
                self.remove(arena, t)
            },
            None => None,
        }
    }
}

} // verus!
