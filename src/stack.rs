use vstd::multiset::Multiset;
use vstd::prelude::*;

verus! {

broadcast use vstd::seq_lib::group_to_multiset_ensures;

/// One cell of the arena: a value (moved out when the cell is popped) and the
/// link to the next cell of whichever chain holds it.
struct Node<T> {
    value: Option<T>,
    next: Option<usize>,
}

/// Who owns an arena cell at a moment between two steps of the protocol.
enum Place {
    /// Reachable from the top of the stack.
    Stack,
    /// Queued on the garbage chain, waiting for a quiescent point.
    Garbage,
    /// On the free list, ready to be handed out again by `push`.
    Free,
    /// Detached and owned by the popper that is running a step.
    Held,
}

/// A LIFO stack over an arena of nodes, with the popper-counted deferred
/// reclamation protocol.
///
/// A node unlinked from the top goes back to the free list at once when its
/// popper is the only one in flight; otherwise it is queued on the garbage
/// chain, and the chain is drained by a popper that sees itself move the count
/// of active pops from one to zero.
///
/// Handles are reused through the free list, so a node must never reach the
/// free list while some pop in flight may still hold a handle to it that it
/// read before the node was unlinked: such nodes are tracked as `exposed`.
pub struct Stack<T> {
    nodes: Vec<Node<T>>,
    free: Vec<usize>,
    top: Option<usize>,
    pops: usize,
    garbage: Option<usize>,
    /// Handles of the stack's nodes, bottom first (the last one is `top`).
    top_chain: Ghost<Seq<usize>>,
    /// Handles of the garbage chain, head first.
    garbage_chain: Ghost<Seq<usize>>,
    /// The owner of each cell of the arena.
    owner: Ghost<Seq<Place>>,
    /// Nodes unlinked while another pop was in flight.
    exposed: Ghost<Set<usize>>,
    /// Every value ever pushed.
    pushed: Ghost<Multiset<T>>,
    /// Every value ever returned by a pop.
    popped: Ghost<Multiset<T>>,
}

/// `chain` lists, head first, the cells reached from `head` by following
/// `next`, and the last of them ends the chain.
spec fn linked<T>(nodes: Seq<Node<T>>, head: Option<usize>, chain: Seq<usize>) -> bool {
    &&& head == (if chain.len() == 0 { None } else { Some(chain[0]) })
    &&& forall|i: int| 0 <= i < chain.len() ==> (#[trigger] chain[i] as int) < nodes.len()
    &&& forall|i: int|
        0 <= i < chain.len() ==> (#[trigger] nodes[chain[i] as int]).next == (if i + 1
            < chain.len() {
            Some(chain[i + 1])
        } else {
            None
        })
}

/// Every handle of `chain` is owned as `p`.
spec fn owned_as(owner: Seq<Place>, chain: Seq<usize>, p: Place) -> bool {
    forall|i: int|
        0 <= i < chain.len() ==> (chain[i] as int) < owner.len() && #[trigger] owner[chain[i]
            as int] == p
}

/// Two sequences without repeats and without a common element concatenate
/// into one without repeats.
proof fn lemma_concat_no_duplicates(a: Seq<usize>, b: Seq<usize>)
    requires
        a.no_duplicates(),
        b.no_duplicates(),
        forall|i: int, j: int| 0 <= i < a.len() && 0 <= j < b.len() ==> a[i] != b[j],
    ensures
        (a + b).no_duplicates(),
{
    assert forall|i: int, j: int|
        0 <= i < (a + b).len() && 0 <= j < (a + b).len() && i != j implies (a + b)[i] != (a
            + b)[j] by {
        if i < a.len() && j >= a.len() {
            assert(a[i] != b[j - a.len()]);
        } else if j < a.len() && i >= a.len() {
            assert(a[j] != b[i - a.len()]);
        }
    }
}

impl<T> View for Stack<T> {
    type V = Seq<T>;

    /// The values on the stack, bottom first: the last one is popped next.
    closed spec fn view(&self) -> Seq<T> {
        self.top_chain@.map_values(|h: usize| self.nodes@[h as int].value->Some_0)
    }
}

impl<T> Stack<T> {
    /// The stack's links, bottom first: the first node ends the chain and
    /// each other node links to the one below it.
    spec fn stack_linked(&self) -> bool {
        let tc = self.top_chain@;
        &&& self.top == (if tc.len() == 0 { None } else { Some(tc.last()) })
        &&& forall|i: int| 0 <= i < tc.len() ==> (#[trigger] tc[i] as int) < self.nodes@.len()
        &&& forall|i: int|
            0 <= i < tc.len() ==> (#[trigger] self.nodes@[tc[i] as int]).next == (if i == 0 {
                None
            } else {
                Some(tc[i - 1])
            })
    }

    /// The invariant of the arena while the cells of `held` are detached and
    /// owned by the popper that runs the current step.
    spec fn inv(&self, held: Seq<usize>) -> bool {
        let n = self.nodes@.len();
        let tc = self.top_chain@;
        let gc = self.garbage_chain@;
        let fr = self.free@;
        &&& self.owner@.len() == n
        &&& self.stack_linked()
        &&& linked(self.nodes@, self.garbage, gc)
        &&& owned_as(self.owner@, tc, Place::Stack)
        &&& owned_as(self.owner@, gc, Place::Garbage)
        &&& owned_as(self.owner@, fr, Place::Free)
        &&& owned_as(self.owner@, held, Place::Held)
        &&& tc.no_duplicates()
        &&& gc.no_duplicates()
        &&& fr.no_duplicates()
        &&& held.no_duplicates()
        &&& n == tc.len() + gc.len() + fr.len() + held.len()
        &&& forall|h: int|
            0 <= h < n ==> ((#[trigger] self.owner@[h] == Place::Stack) <==> self.nodes@[h].value
                is Some)
        &&& forall|h: usize|
            #[trigger] self.exposed@.contains(h) ==> (h as int) < n && (self.owner@[h as int]
                == Place::Garbage || self.owner@[h as int] == Place::Held)
        &&& self.pops == 0 ==> self.exposed@ =~= Set::<usize>::empty()
        &&& self.pushed@ == self.popped@.add(self@.to_multiset())
    }

    /// The stack is well formed: every cell of the arena is on the stack, on
    /// the garbage chain or on the free list, and no exposed node is free.
    pub closed spec fn wf(&self) -> bool {
        self.inv(Seq::empty())
    }

    /// The number of pops in flight.
    pub closed spec fn pops(&self) -> nat {
        self.pops as nat
    }

    /// The number of nodes allocated and not yet freed.
    pub closed spec fn live(&self) -> nat {
        (self.nodes@.len() - self.free@.len()) as nat
    }

    /// The number of nodes waiting on the garbage chain.
    pub closed spec fn deferred(&self) -> nat {
        self.garbage_chain@.len()
    }

    /// The handles of the stack's nodes, bottom first.
    pub closed spec fn stack_handles(&self) -> Seq<usize> {
        self.top_chain@
    }

    /// The handles on the garbage chain, head first.
    pub closed spec fn garbage_handles(&self) -> Seq<usize> {
        self.garbage_chain@
    }

    /// The handles on the free list.
    pub closed spec fn free_handles(&self) -> Seq<usize> {
        self.free@
    }

    /// The nodes that a pop in flight may still reference.
    pub closed spec fn exposed(&self) -> Set<usize> {
        self.exposed@
    }

    /// Every value ever pushed.
    pub closed spec fn pushed(&self) -> Multiset<T> {
        self.pushed@
    }

    /// Every value ever returned by a pop.
    pub closed spec fn popped(&self) -> Multiset<T> {
        self.popped@
    }

    /// Creates an empty stack with no pop in flight.
    pub fn new() -> (s: Self)
        ensures
            s.wf(),
            s@ == Seq::<T>::empty(),
            s.pops() == 0,
            s.live() == 0,
            s.deferred() == 0,
            s.pushed() == Multiset::<T>::empty(),
            s.popped() == Multiset::<T>::empty(),
    {
        let s = Stack {
            nodes: Vec::new(),
            free: Vec::new(),
            top: None,
            pops: 0,
            garbage: None,
            top_chain: Ghost(Seq::empty()),
            garbage_chain: Ghost(Seq::empty()),
            owner: Ghost(Seq::empty()),
            exposed: Ghost(Set::empty()),
            pushed: Ghost(Multiset::empty()),
            popped: Ghost(Multiset::empty()),
        };
        proof {
            broadcast use vstd::multiset::lemma_multiset_empty_len;

            assert(s@ =~= Seq::<T>::empty());
            assert(s.pushed@ =~= s.popped@.add(s@.to_multiset()));
        }
        s
    }

    /// Pushes `value` on top of the stack, in a node taken from the free list
    /// or, when that is empty, newly added to the arena.
    pub fn push(&mut self, value: T)
        requires
            old(self).wf(),
        ensures
            final(self).wf(),
            final(self)@ == old(self)@.push(value),
            final(self).pops() == old(self).pops(),
            final(self).deferred() == old(self).deferred(),
            final(self).live() == old(self).live() + 1,
            final(self).exposed() == old(self).exposed(),
            final(self).pushed() == old(self).pushed().insert(value),
            final(self).popped() == old(self).popped(),
    {
        let ghost v = value;
        let ghost old_view = self@;
        let ghost tc = self.top_chain@;
        let node = Node { value: Some(value), next: self.top };
        let h: usize;
        match self.free.pop() {
            Some(f) => {
                proof {
                    assert(self.free@ == old(self).free@.drop_last());
                    assert(old(self).free@[old(self).free@.len() - 1] == f);
                    let last = old(self).free@[old(self).free@.len() - 1];
                    assert(old(self).owner@[last as int] == Place::Free);
                    assert(forall|i: int|
                        0 <= i < self.free@.len() ==>
                            self.free@[i] != f
                            && old(self).free@[i] == self.free@[i]);
                }
                self.nodes.set(f, node);
                h = f;
                proof {
                    self.owner@ = self.owner@.update(h as int, Place::Stack);
                }
            },
            None => {
                self.nodes.push(node);
                h = self.nodes.len() - 1;
                proof {
                    self.owner@ = self.owner@.push(Place::Stack);
                }
            },
        }
        self.top = Some(h);
        proof {
            assert(forall|i: int|
                0 <= i < tc.len() ==> old(self).owner@[tc[i] as int] == Place::Stack);
            assert(forall|i: int|
                0 <= i < self.garbage_chain@.len() ==> old(self).owner@[self.garbage_chain@[i]
                    as int] == Place::Garbage);
            self.top_chain@ = tc.push(h);
            self.pushed@ = self.pushed@.insert(v);
            assert(forall|i: int| 0 <= i < tc.len() ==> tc[i] != h);
            assert(self@ =~= old_view.push(v)) by {
                assert(forall|i: int|
                    0 <= i < tc.len() ==>
                        self.nodes@[tc[i] as int] == old(self).nodes@[tc[i] as int]);
            }
            assert(self.pushed@ =~= self.popped@.add(self@.to_multiset()));
            assert(forall|i: int|
                0 <= i < self.free@.len() ==> old(self).free@[i] == self.free@[i] && old(
                    self,
                ).owner@[old(self).free@[i] as int] == Place::Free);
        }
    }

    /// Unlinks the top node: the caller then holds it, with its value moved
    /// out and its link cleared. Returns `None` on an empty stack.
    fn unlink(&mut self) -> (r: Option<(usize, T)>)
        requires
            old(self).wf(),
        ensures
            old(self)@.len() == 0 ==> r is None && *final(self) == *old(self),
            old(self)@.len() > 0 ==> ({
                let h = r->Some_0.0;
                &&& r is Some
                &&& r->Some_0.1 == old(self)@.last()
                &&& final(self).inv(seq![h])
                &&& final(self).nodes@[h as int].next is None
                &&& !final(self).exposed@.contains(h)
                &&& final(self)@ == old(self)@.drop_last()
                &&& final(self).garbage_chain@ == old(self).garbage_chain@
                &&& final(self).nodes@.len() == old(self).nodes@.len()
                &&& final(self).garbage == old(self).garbage
                &&& final(self).free@ == old(self).free@
                &&& final(self).pops == old(self).pops
                &&& final(self).exposed@ == old(self).exposed@
                &&& final(self).pushed@ == old(self).pushed@
                &&& final(self).popped@ == old(self).popped@.insert(old(self)@.last())
            }),
    {
        match self.top {
            None => None,
            Some(h) => {
                let ghost tc = self.top_chain@;
                let ghost old_view = self@;
                proof {
                    assert(tc[tc.len() - 1] == h);
                    assert(self.owner@[tc[tc.len() - 1] as int] == Place::Stack);
                }
                let mut cell = Node { value: None, next: None };
                self.nodes.set_and_swap(h, &mut cell);
                self.top = cell.next;
                let v = cell.value.unwrap();
                proof {
                    let ntc = tc.drop_last();
                    assert(forall|i: int| 0 <= i < ntc.len() ==> ntc[i] != h && ntc[i] == tc[i]);
                    assert(forall|i: int|
                        0 <= i < ntc.len() ==>
                            self.nodes@[ntc[i] as int] == old(self).nodes@[ntc[i] as int]);
                    let gc = self.garbage_chain@;
                    assert(forall|i: int|
                        0 <= i < gc.len() ==> old(self).owner@[gc[i] as int] == Place::Garbage);
                    assert(forall|i: int| 0 <= i < gc.len() ==> gc[i] != h);
                    let fr = self.free@;
                    assert(forall|i: int|
                        0 <= i < fr.len() ==> old(self).owner@[fr[i] as int] == Place::Free);
                    assert(forall|i: int| 0 <= i < fr.len() ==> fr[i] != h);
                    self.top_chain@ = ntc;
                    self.owner@ = self.owner@.update(h as int, Place::Held);
                    self.popped@ = self.popped@.insert(v);
                    assert(self@ =~= old_view.drop_last());
                    assert(old_view =~= self@.push(v));
                    assert(self.pushed@ =~= self.popped@.add(self@.to_multiset()));
                    assert(seq![h].no_duplicates());
                    assert(!self.exposed@.contains(h));
                }
                Some((h, v))
            },
        }
    }

    /// Frees the held node `h`: its handle goes back to the free list.
    fn release(&mut self, h: usize, Ghost(rest): Ghost<Seq<usize>>)
        requires
            old(self).inv(seq![h] + rest),
            !old(self).exposed@.contains(h),
        ensures
            final(self).inv(rest),
            final(self).free@ == old(self).free@.push(h),
            final(self).nodes@ == old(self).nodes@,
            final(self).top == old(self).top,
            final(self).top_chain@ == old(self).top_chain@,
            final(self).garbage == old(self).garbage,
            final(self).garbage_chain@ == old(self).garbage_chain@,
            final(self).pops == old(self).pops,
            final(self).exposed@ == old(self).exposed@,
            final(self).pushed@ == old(self).pushed@,
            final(self).popped@ == old(self).popped@,
            final(self)@ == old(self)@,
    {
        let ghost held = seq![h] + rest;
        proof {
            assert(held[0] == h);
            assert(self.owner@[held[0] as int] == Place::Held);
            let fr = self.free@;
            assert(forall|i: int| 0 <= i < fr.len() ==> self.owner@[fr[i] as int] == Place::Free);
            assert(forall|i: int|
                0 <= i < rest.len() ==>
                    rest[i] == held[i + 1]
                    && self.owner@[held[i + 1] as int] == Place::Held);
            assert(forall|i: int| 0 <= i < rest.len() ==> rest[i] != h);
        }
        self.free.push(h);
        proof {
            let tc = self.top_chain@;
            let gc = self.garbage_chain@;
            assert(forall|i: int|
                0 <= i < tc.len() ==> old(self).owner@[tc[i] as int] == Place::Stack);
            assert(forall|i: int|
                0 <= i < gc.len() ==> old(self).owner@[gc[i] as int] == Place::Garbage);
            self.owner@ = self.owner@.update(h as int, Place::Free);
            assert(self@ =~= old(self)@);
            assert(forall|i: int|
                0 <= i < self.free@.len() - 1 ==> self.free@[i] == old(self).free@[i]);
        }
    }

    /// Frees every node of the held chain that starts at `head`.
    fn release_chain(&mut self, head: Option<usize>, Ghost(chain): Ghost<Seq<usize>>)
        requires
            old(self).inv(chain),
            linked(old(self).nodes@, head, chain),
            forall|i: int|
                0 <= i < chain.len() ==> !old(self).exposed@.contains(#[trigger] chain[i]),
        ensures
            final(self).inv(Seq::empty()),
            final(self).free@ == old(self).free@ + chain,
            final(self).nodes@ == old(self).nodes@,
            final(self).top == old(self).top,
            final(self).top_chain@ == old(self).top_chain@,
            final(self).garbage == old(self).garbage,
            final(self).garbage_chain@ == old(self).garbage_chain@,
            final(self).pops == old(self).pops,
            final(self).exposed@ == old(self).exposed@,
            final(self).pushed@ == old(self).pushed@,
            final(self).popped@ == old(self).popped@,
            final(self)@ == old(self)@,
    {
        let mut cur = head;
        let ghost mut k: int = 0;
        loop
            invariant
                0 <= k <= chain.len(),
                cur == (if k < chain.len() { Some(chain[k]) } else { None }),
                self.inv(chain.skip(k)),
                linked(old(self).nodes@, head, chain),
                forall|i: int|
                    0 <= i < chain.len() ==> !old(self).exposed@.contains(#[trigger] chain[i]),
                self.free@ == old(self).free@ + chain.take(k),
                self.nodes@ == old(self).nodes@,
                self.top == old(self).top,
                self.top_chain@ == old(self).top_chain@,
                self.garbage == old(self).garbage,
                self.garbage_chain@ == old(self).garbage_chain@,
                self.pops == old(self).pops,
                self.exposed@ == old(self).exposed@,
                self.pushed@ == old(self).pushed@,
                self.popped@ == old(self).popped@,
                self@ == old(self)@,
            ensures
                k == chain.len(),
                self.inv(chain.skip(k)),
                self.free@ == old(self).free@ + chain.take(k),
            decreases chain.len() - k,
        {
            match cur {
                None => {
                    proof {
                        assert(chain.skip(k) =~= Seq::<usize>::empty());
                        assert(chain.take(k) =~= chain);
                    }
                    break;
                },
                Some(h) => {
                    proof {
                        assert((chain[k] as int) < self.nodes@.len());
                    }
                    let next = self.nodes[h].next;
                    proof {
                        assert(chain.skip(k) =~= seq![h] + chain.skip(k + 1));
                        assert(!old(self).exposed@.contains(chain[k]));
                    }
                    self.release(h, Ghost(chain.skip(k + 1)));
                    cur = next;
                    proof {
                        assert(chain.take(k + 1) =~= chain.take(k).push(h));
                        k = k + 1;
                    }
                },
            }
        }
        proof {
            assert(chain.skip(k) =~= Seq::<usize>::empty());
            assert(chain.take(k) =~= chain);
        }
    }

    /// Puts the held chain that starts at `list` in front of the garbage
    /// chain.
    #[verifier::rlimit(30)]
    fn tie(&mut self, list: usize, Ghost(chain): Ghost<Seq<usize>>)
        requires
            old(self).inv(chain),
            linked(old(self).nodes@, Some(list), chain),
        ensures
            final(self).inv(Seq::empty()),
            final(self).garbage_chain@ == chain + old(self).garbage_chain@,
            final(self).nodes@.len() == old(self).nodes@.len(),
            final(self).free@ == old(self).free@,
            final(self).top == old(self).top,
            final(self).top_chain@ == old(self).top_chain@,
            final(self).pops == old(self).pops,
            final(self).exposed@ == old(self).exposed@,
            final(self).pushed@ == old(self).pushed@,
            final(self).popped@ == old(self).popped@,
            final(self)@ == old(self)@,
    {
        let mut last = list;
        let ghost mut k: int = 0;
        while self.nodes[last].next.is_some()
            invariant
                0 <= k < chain.len(),
                last == chain[k],
                self.inv(chain),
                linked(self.nodes@, Some(list), chain),
                *self == *old(self),
            decreases chain.len() - k,
        {
            last = self.nodes[last].next.unwrap();
            proof {
                k = k + 1;
            }
        }
        let ghost gc = self.garbage_chain@;
        let ghost tc = self.top_chain@;
        proof {
            assert(k == chain.len() - 1);
            assert(self.owner@[chain[k] as int] == Place::Held);
            assert(forall|i: int| 0 <= i < tc.len() ==> self.owner@[tc[i] as int] == Place::Stack);
            assert(forall|i: int|
                0 <= i < gc.len() ==> self.owner@[gc[i] as int] == Place::Garbage);
            assert(forall|i: int|
                0 <= i < chain.len() ==> self.owner@[chain[i] as int] == Place::Held);
            assert(forall|i: int|
                0 <= i < self.free@.len() ==> self.owner@[self.free@[i] as int] == Place::Free);
            assert(forall|i: int, j: int|
                0 <= i < chain.len() && 0 <= j < gc.len() ==> chain[i] != gc[j]);
            lemma_concat_no_duplicates(chain, gc);
        }
        let mut cell = Node { value: None, next: None };
        self.nodes.set_and_swap(last, &mut cell);
        cell.next = self.garbage;
        self.nodes.set(last, cell);
        self.garbage = Some(list);
        proof {
            self.garbage_chain@ = chain + gc;
            assert(self.nodes@.len() == old(self).nodes@.len());
            self.owner@ = self.owner@.map_values(
                |p: Place|
                    if p == Place::Held {
                        Place::Garbage
                    } else {
                        p
                    },
            );
            assert(forall|i: int| 0 <= i < tc.len() ==> tc[i] != last);
            assert(forall|i: int|
                0 <= i < tc.len() ==> self.nodes@[tc[i] as int] == old(self).nodes@[tc[i] as int]);
            assert(forall|i: int| 0 <= i < gc.len() ==> gc[i] != last);
            assert(forall|i: int| 0 <= i < chain.len() - 1 ==> chain[i] != last);
            assert(self@ =~= old(self)@);
            let ngc = self.garbage_chain@;
            assert(forall|i: int|
                0 <= i < ngc.len() ==>
                    ngc[i] == (if i < chain.len() { chain[i] } else { gc[i - chain.len()] }));
            assert(linked(self.nodes@, self.garbage, ngc));
        }
    }

    /// Decides what becomes of `node`, just unlinked by a pop in flight, from
    /// the count of pops in flight; `arrivals` pops enter while it decides.
    ///
    /// When this pop is the only one in flight it captures the garbage chain
    /// and gives back its count. If the count it gave back was one, nobody
    /// entered since the capture and the whole chain is freed; otherwise the
    /// chain goes back to be drained later. Either way `node` is freed: no
    /// other pop was in flight to read it before it was unlinked. When other
    /// pops are in flight, `node` is queued on the garbage chain instead.
    fn reclaim(&mut self, node: usize, arrivals: usize)
        requires
            old(self).inv(seq![node]),
            old(self).nodes@[node as int].next is None,
            !old(self).exposed@.contains(node),
            old(self).pops >= 1,
            old(self).pops + arrivals <= usize::MAX,
        ensures
            final(self).wf(),
            final(self)@ == old(self)@,
            final(self).nodes@.len() == old(self).nodes@.len(),
            final(self).pops == old(self).pops - 1 + arrivals,
            final(self).pushed@ == old(self).pushed@,
            final(self).popped@ == old(self).popped@,
            old(self).pops == 1 && arrivals == 0 ==> final(self).deferred() == 0
                && final(self).free@ == old(self).free@.push(node) + old(self).garbage_chain@,
            old(self).pops == 1 && arrivals > 0 ==> final(self).garbage_chain@
                == old(self).garbage_chain@ && final(self).free@ == old(self).free@.push(node),
            old(self).pops > 1 ==> final(self).garbage_chain@ == seq![node]
                + old(self).garbage_chain@ && final(self).free@ == old(self).free@
                && final(self).exposed@ == old(self).exposed@.insert(node),
    {
        let pops = self.pops;
        if pops == 1 {
            let captured = self.garbage;
            self.garbage = None;
            let ghost cap = self.garbage_chain@;
            proof {
                let tc = self.top_chain@;
                let fr = self.free@;
                assert(seq![node][0] == node);
                assert(self.owner@[seq![node][0] as int] == Place::Held);
                assert(forall|i: int|
                    0 <= i < tc.len() ==> self.owner@[tc[i] as int] == Place::Stack);
                assert(forall|i: int|
                    0 <= i < cap.len() ==> self.owner@[cap[i] as int] == Place::Garbage);
                assert(forall|i: int|
                    0 <= i < fr.len() ==> self.owner@[fr[i] as int] == Place::Free);
                lemma_concat_no_duplicates(seq![node], cap);
                self.garbage_chain@ = Seq::empty();
                self.owner@ = self.owner@.map_values(
                    |p: Place|
                        if p == Place::Garbage {
                            Place::Held
                        } else {
                            p
                        },
                );
                assert(self@ =~= old(self)@);
                let held = seq![node] + cap;
                assert(forall|i: int|
                    0 <= i < held.len() ==> held[i] == (if i == 0 { node } else { cap[i - 1] }));
                assert(owned_as(self.owner@, held, Place::Held));
                assert(self.inv(held));
            }
            // Pops that enter between the capture and the release of the count.
            self.pops = self.pops + arrivals;
            let prev = self.pops;
            self.pops = self.pops - 1;
            if prev == 1 {
                proof {
                    self.exposed@ = Set::empty();
                }
                self.release(node, Ghost(cap));
                self.release_chain(captured, Ghost(cap));
            } else {
                self.release(node, Ghost(cap));
                match captured {
                    Some(list) => {
                        self.tie(list, Ghost(cap));
                    },
                    None => {
                        proof {
                            assert(cap =~= Seq::<usize>::empty());
                        }
                    },
                }
                proof {
                    assert(cap + Seq::<usize>::empty() =~= cap);
                }
            }
        } else {
            let ghost single = seq![node];
            proof {
                assert(single[0] == node);
                assert(self.owner@[single[0] as int] == Place::Held);
                assert(linked(self.nodes@, Some(node), single));
            }
            self.tie(node, Ghost(single));
            proof {
                self.exposed@ = self.exposed@.insert(node);
                assert(self.owner@[seq![node][0] as int] == Place::Garbage);
            }
            self.pops = self.pops - 1;
            self.pops = self.pops + arrivals;
        }
    }

    /// A pop enters: the count of pops in flight grows by one. Until it
    /// finishes, no node unlinked meanwhile is freed before a quiescent point.
    pub fn begin_pop(&mut self)
        requires
            old(self).wf(),
            old(self).pops() < usize::MAX,
        ensures
            final(self).wf(),
            final(self).pops() == old(self).pops() + 1,
            final(self)@ == old(self)@,
            final(self).live() == old(self).live(),
            final(self).deferred() == old(self).deferred(),
            final(self).exposed() == old(self).exposed(),
            final(self).pushed() == old(self).pushed(),
            final(self).popped() == old(self).popped(),
    {
        self.pops = self.pops + 1;
    }

    /// One pop in flight finishes: it unlinks the top node and hands it to
    /// reclamation, or finds the stack empty and leaves. `arrivals` pops enter
    /// meanwhile, between its capture of the garbage chain and its release of
    /// the count.
    pub fn finish_pop(&mut self, arrivals: usize) -> (r: Option<T>)
        requires
            old(self).wf(),
            old(self).pops() >= 1,
            old(self).pops() + arrivals <= usize::MAX,
        ensures
            final(self).wf(),
            final(self).pops() == old(self).pops() - 1 + arrivals,
            final(self).pushed() == old(self).pushed(),
            old(self)@.len() == 0 ==> {
                &&& r is None
                &&& final(self)@ == old(self)@
                &&& final(self).popped() == old(self).popped()
                &&& final(self).live() == old(self).live()
                &&& final(self).deferred() == old(self).deferred()
            },
            old(self)@.len() > 0 ==> {
                &&& r == Some(old(self)@.last())
                &&& final(self)@ == old(self)@.drop_last()
                &&& final(self).popped() == old(self).popped().insert(old(self)@.last())
            },
            old(self)@.len() > 0 && old(self).pops() == 1 && arrivals == 0 ==> {
                &&& final(self).deferred() == 0
                &&& final(self).live() == final(self)@.len()
            },
            old(self)@.len() > 0 && old(self).pops() == 1 && arrivals > 0 ==> {
                &&& final(self).deferred() == old(self).deferred()
                &&& final(self).live() + 1 == old(self).live()
            },
            old(self)@.len() > 0 && old(self).pops() > 1 ==> {
                &&& final(self).deferred() == old(self).deferred() + 1
                &&& final(self).live() == old(self).live()
            },
    {
        match self.unlink() {
            None => {
                self.pops = self.pops - 1;
                if self.pops == 0 {
                    proof {
                        self.exposed@ = Set::empty();
                    }
                }
                self.pops = self.pops + arrivals;
                None
            },
            Some((node, value)) => {
                let ghost before = self.garbage_chain@;
                self.reclaim(node, arrivals);
                proof {
                    if old(self).pops > 1 {
                        assert(self.garbage_chain@.len() == before.len() + 1);
                    }
                }
                Some(value)
            },
        }
    }

    /// Pops the most recently pushed value still on the stack, or returns
    /// `None` on an empty stack, running the whole reclamation protocol.
    pub fn pop(&mut self) -> (r: Option<T>)
        requires
            old(self).wf(),
            old(self).pops() < usize::MAX,
        ensures
            final(self).wf(),
            final(self).pops() == old(self).pops(),
            final(self).pushed() == old(self).pushed(),
            old(self)@.len() == 0 ==> {
                &&& r is None
                &&& final(self)@ == old(self)@
                &&& final(self).popped() == old(self).popped()
                &&& final(self).live() == old(self).live()
                &&& final(self).deferred() == old(self).deferred()
            },
            old(self)@.len() > 0 ==> {
                &&& r == Some(old(self)@.last())
                &&& final(self)@ == old(self)@.drop_last()
                &&& final(self).popped() == old(self).popped().insert(old(self)@.last())
            },
            old(self)@.len() > 0 && old(self).pops() == 0 ==> {
                &&& final(self).deferred() == 0
                &&& final(self).live() == final(self)@.len()
            },
            old(self)@.len() > 0 && old(self).pops() > 0 ==> {
                &&& final(self).deferred() == old(self).deferred() + 1
                &&& final(self).live() == old(self).live()
            },
    {
        self.begin_pop();
        self.finish_pop(0)
    }

    /// The number of pops in flight.
    pub fn pops_in_flight(&self) -> (r: usize)
        ensures
            r == self.pops(),
    {
        self.pops
    }

    /// The number of nodes allocated and not yet freed.
    pub fn live_nodes(&self) -> (r: usize)
        requires
            self.wf(),
        ensures
            r == self.live(),
    {
        self.nodes.len() - self.free.len()
    }

    /// The number of nodes waiting on the garbage chain, counted by walking
    /// it.
    pub fn deferred_nodes(&self) -> (r: usize)
        requires
            self.wf(),
        ensures
            r == self.deferred(),
    {
        let ghost gc = self.garbage_chain@;
        let mut cur = self.garbage;
        let mut count: usize = 0;
        let n = self.nodes.len();
        while cur.is_some()
            invariant
                self.wf(),
                gc.len() <= n,
                gc == self.garbage_chain@,
                linked(self.nodes@, self.garbage, gc),
                count <= gc.len(),
                cur == (if count < gc.len() { Some(gc[count as int]) } else { None }),
            decreases gc.len() - count,
        {
            let h = cur.unwrap();
            cur = self.nodes[h].next;
            count = count + 1;
        }
        count
    }

    /// Every value ever pushed is either still on the stack or was returned
    /// by exactly one pop: none is lost and none is returned twice.
    pub proof fn lemma_accounting(&self)
        requires
            self.wf(),
        ensures
            self.pushed() == self.popped().add(self@.to_multiset()),
    {
    }

    /// Once the stack is drained, the values popped are, with their
    /// multiplicities, exactly the values pushed.
    pub proof fn lemma_conservation(&self)
        requires
            self.wf(),
            self@.len() == 0,
        ensures
            self.popped() == self.pushed(),
    {
        broadcast use vstd::multiset::lemma_multiset_empty_len;

        assert(self@.to_multiset() =~= Multiset::<T>::empty());
        assert(self.popped().add(self@.to_multiset()) =~= self.popped());
    }

    /// No node is freed twice, no node on the stack or on the garbage chain is
    /// free, and no node that a pop in flight may still reference is free.
    pub proof fn lemma_no_double_free(&self)
        requires
            self.wf(),
        ensures
            self.free_handles().no_duplicates(),
            forall|i: int, j: int|
                0 <= i < self.free_handles().len() && 0 <= j < self.stack_handles().len()
                    ==> self.free_handles()[i] != self.stack_handles()[j],
            forall|i: int, j: int|
                0 <= i < self.free_handles().len() && 0 <= j < self.garbage_handles().len()
                    ==> self.free_handles()[i] != self.garbage_handles()[j],
            forall|i: int|
                0 <= i < self.free_handles().len() ==> !self.exposed().contains(
                    #[trigger] self.free_handles()[i],
                ),
    {
        let fr = self.free@;
        let tc = self.top_chain@;
        let gc = self.garbage_chain@;
        assert(forall|i: int| 0 <= i < fr.len() ==> self.owner@[fr[i] as int] == Place::Free);
        assert(forall|j: int| 0 <= j < tc.len() ==> self.owner@[tc[j] as int] == Place::Stack);
        assert(forall|j: int| 0 <= j < gc.len() ==> self.owner@[gc[j] as int] == Place::Garbage);
    }

    /// With the stack empty and the garbage chain drained, every node ever
    /// allocated has been freed.
    pub proof fn lemma_all_freed(&self)
        requires
            self.wf(),
            self@.len() == 0,
            self.deferred() == 0,
        ensures
            self.live() == 0,
    {
    }
}

} // verus!
