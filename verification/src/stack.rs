//! The shared stack state, the hazard registry, and the per-handle
//! operations: push, pop, gc, duplicate, release.

use vstd::prelude::*;

verus! {

broadcast use vstd::seq_lib::lemma_seq_contains_after_push;

/// One stack cell: a value and the slot index of the node beneath it,
/// or `None` at the bottom of the stack.
pub struct Node<T> {
    pub data: T,
    pub tail: Option<usize>,
}

/// The state of one arena slot.
///
/// A `Full` slot holds a node reachable from the stack head. A `Retired`
/// slot is an unlinked node whose value has been moved out but whose
/// storage is still held back until no hazard record protects it. A
/// `Vacant` slot is reclaimed storage, available for reuse.
pub enum Slot<T> {
    Vacant,
    Full(Node<T>),
    Retired,
}

/// A per-handle publication record: whether the owning handle is still
/// alive, and which slot it currently protects from reclamation.
pub struct Hazard {
    pub alive: bool,
    pub published: Option<usize>,
}

impl Hazard {
    /// A fresh record for a newly created or recycled registry entry:
    /// alive, protecting nothing.
    pub fn new() -> (h: Hazard)
        ensures
            h.alive,
            h.published is None,
    {
        Hazard { alive: true, published: None }
    }
}

/// The shared stack state: the slot arena, the list of vacant slots, the
/// head of the chain, and the append-only registry of hazard records.
///
/// The ghost `chain` mirrors the slot indices reachable from `head` in
/// order; the ghost counters witness that completed pushes always equal
/// completed pops plus the nodes still reachable from `head`.
pub struct Stack<T> {
    pub slots: Vec<Slot<T>>,
    pub free: Vec<usize>,
    pub head: Option<usize>,
    pub registry: Vec<Hazard>,
    pub chain: Ghost<Seq<usize>>,
    pub pushes: Ghost<nat>,
    pub pops: Ghost<nat>,
}

impl<T> Stack<T> {
    /// Slot `i` holds a node still linked into the chain.
    pub open spec fn slot_full(self, i: usize) -> bool {
        i < self.slots@.len() && self.slots@[i as int] is Full
    }

    /// Slot `i` holds storage not yet reclaimed: a linked node or a
    /// retired one.
    pub open spec fn slot_allocated(self, i: usize) -> bool {
        i < self.slots@.len() && !(self.slots@[i as int] is Vacant)
    }

    /// The node stored in slot `i`.
    pub open spec fn node_at(self, i: usize) -> Node<T>
        recommends
            self.slot_full(i),
    {
        match self.slots@[i as int] {
            Slot::Full(n) => n,
            _ => arbitrary(),
        }
    }

    /// The ghost chain lists exactly the slots reachable from `head`,
    /// top first, each linked to the next by its `tail`.
    pub open spec fn chain_wf(self) -> bool {
        &&& match self.head {
            Some(h) => self.chain@.len() > 0 && self.chain@[0] == h,
            None => self.chain@.len() == 0,
        }
        &&& forall|k: int|
            0 <= k < self.chain@.len() ==> self.slot_full(#[trigger] self.chain@[k])
        &&& forall|k: int|
            0 <= k < self.chain@.len() ==> self.node_at(#[trigger] self.chain@[k]).tail == (if k
                + 1 < self.chain@.len() {
                Some(self.chain@[k + 1])
            } else {
                None::<usize>
            })
        &&& self.chain@.no_duplicates()
    }

    /// The free list names exactly vacant slots, each at most once.
    pub open spec fn free_wf(self) -> bool {
        &&& forall|k: int|
            0 <= k < self.free@.len() ==> (#[trigger] self.free@[k]) < self.slots@.len()
                && self.slots@[self.free@[k] as int] is Vacant
        &&& self.free@.no_duplicates()
    }

    /// Well-formedness of the shared state. The last clause is the
    /// conservation invariant: every completed push is either matched by
    /// a completed pop or still reachable from `head`.
    pub open spec fn wf(self) -> bool {
        &&& self.chain_wf()
        &&& self.free_wf()
        &&& self.pushes@ == self.pops@ + self.chain@.len()
    }

    /// The values on the stack, top first.
    pub open spec fn contents(self) -> Seq<T> {
        self.chain@.map_values(|i: usize| self.node_at(i).data)
    }

    /// Some alive hazard record currently publishes slot `i`.
    pub open spec fn protected(self, i: usize) -> bool {
        published_in(self.registry@, i, self.registry@.len() as int)
    }

    /// No alive record publishes anything; between operations of this
    /// sequential model every publication has been cleared.
    pub open spec fn no_publications(self) -> bool {
        forall|r: int|
            0 <= r < self.registry@.len() ==> (#[trigger] self.registry@[r]).published is None
    }

    /// Stores a node into a vacant slot, recycling one from the free
    /// list when possible. Only the chosen slot and the free list change;
    /// the chain, head, registry and counters stay as they were.
    fn claim_slot(&mut self, node: Node<T>) -> (idx: usize)
        requires
            old(self).free_wf(),
        ensures
            final(self).free_wf(),
            final(self).head == old(self).head,
            final(self).chain@ == old(self).chain@,
            final(self).registry@ == old(self).registry@,
            final(self).pushes@ == old(self).pushes@,
            final(self).pops@ == old(self).pops@,
            !old(self).slot_allocated(idx),
            final(self).slot_full(idx),
            final(self).node_at(idx) == node,
            old(self).slots@.len() <= final(self).slots@.len(),
            forall|i: usize|
                i < old(self).slots@.len() && i != idx ==> final(self).slots@[i as int] == old(self).slots@[i as int],
            forall|i: usize| old(self).slot_full(i) ==> final(self).slot_full(i) && i != idx,
            forall|i: usize|
                old(self).slot_full(i) ==> final(self).node_at(i) == old(self).node_at(i),
            forall|i: usize|
                old(self).slot_allocated(i) ==> final(self).slot_allocated(i) && i != idx,
    {
        let reused = self.free.pop();
        match reused {
            Some(f) => {
                self.slots[f] = Slot::Full(node);
                f
            },
            None => {
                let idx = self.slots.len();
                self.slots.push(Slot::Full(node));
                idx
            },
        }
    }

    /// The state left behind once the last handle has been released:
    /// every slot, the free list and the whole registry torn down.
    pub open spec fn torn_down(self) -> bool {
        &&& self.slots@.len() == 0
        &&& self.free@.len() == 0
        &&& self.head is None
        &&& self.registry@.len() == 0
        &&& self.chain@.len() == 0
        &&& self.pushes@ == 0
        &&& self.pops@ == 0
    }
}

/// Some alive record of `reg` publishes slot `i`.
pub open spec fn published_in(reg: Seq<Hazard>, i: usize, n: int) -> bool {
    exists|r: int|
        0 <= r < n && (#[trigger] reg[r]).alive && reg[r].published == Some(i)
}

/// A retire list against a stack, apart from any registry claim: distinct
/// slots, each still holding retired storage.
pub open spec fn retired_wf<T>(s: Stack<T>, retired: Seq<usize>) -> bool {
    &&& forall|k: int|
        0 <= k < retired.len() ==> (#[trigger] retired[k]) < s.slots@.len()
            && s.slots@[retired[k] as int] is Retired
    &&& retired.no_duplicates()
}

/// Whether `v` holds `x`.
fn contains_usize(v: &Vec<usize>, x: usize) -> (r: bool)
    ensures
        r == v@.contains(x),
{
    let mut j: usize = 0;
    while j < v.len()
        invariant
            j <= v@.len(),
            forall|t: int| 0 <= t < j ==> v@[t] != x,
        decreases v@.len() - j,
    {
        if v[j] == x {
            return true;
        }
        j += 1;
    }
    false
}

/// A record alive below `n1` is still alive below any larger bound.
proof fn lemma_published_in_widen(reg: Seq<Hazard>, i: usize, n1: int, n2: int)
    requires
        published_in(reg, i, n1),
        n1 <= n2,
    ensures
        published_in(reg, i, n2),
{
    let r = choose|r: int| 0 <= r < n1 && (#[trigger] reg[r]).alive && reg[r].published == Some(i);
    assert(0 <= r < n2 && reg[r].alive && reg[r].published == Some(i));
}

/// One registry snapshot: the addresses published by records that are
/// alive at the moment each is read.
fn collect_protected(registry: &Vec<Hazard>) -> (snap: Vec<usize>)
    ensures
        forall|a: usize|
            #[trigger] snap@.contains(a) ==> published_in(registry@, a, registry@.len() as int),
        forall|a: usize|
            #[trigger] published_in(registry@, a, registry@.len() as int) ==> snap@.contains(a),
{
    let mut snap: Vec<usize> = Vec::new();
    let mut j: usize = 0;
    while j < registry.len()
        invariant
            j <= registry@.len(),
            forall|r: int|
                0 <= r < j && (#[trigger] registry@[r]).alive && registry@[r].published is Some
                    ==> snap@.contains(registry@[r].published.unwrap()),
            forall|t: int|
                0 <= t < snap@.len() ==> published_in(registry@, #[trigger] snap@[t], j as int),
        decreases registry@.len() - j,
    {
        let ghost prev = snap@;
        if registry[j].alive {
            match registry[j].published {
                Some(a) => {
                    snap.push(a);
                    proof {
                        assert(registry@[j as int].alive && registry@[j as int].published == Some(
                            a,
                        ));
                    }
                },
                None => {},
            }
        }
        j += 1;
        proof {
            assert forall|t: int| 0 <= t < snap@.len() implies published_in(
                registry@,
                #[trigger] snap@[t],
                j as int,
            ) by {
                if t < prev.len() {
                    lemma_published_in_widen(registry@, prev[t], j - 1, j as int);
                } else {
                    assert(published_in(registry@, snap@[t], j as int));
                }
            }
        }
    }
    proof {
        assert forall|a: usize| #[trigger] snap@.contains(a) implies published_in(
            registry@,
            a,
            registry@.len() as int,
        ) by {
            let t = choose|t: int| 0 <= t < snap@.len() && snap@[t] == a;
            assert(published_in(registry@, snap@[t], registry@.len() as int));
        }
        assert forall|a: usize|
            published_in(registry@, a, registry@.len() as int) implies snap@.contains(a) by {
            let r = choose|r: int|
                0 <= r < registry@.len() && (#[trigger] registry@[r]).alive
                    && registry@[r].published == Some(a);
            assert(snap@.contains(registry@[r].published.unwrap()));
        }
    }
    snap
}


/// The index of some record marked dead, or `None` when every record
/// is alive.
fn find_dead(registry: &Vec<Hazard>) -> (r: Option<usize>)
    ensures
        match r {
            Some(j) => j < registry@.len() && !registry@[j as int].alive,
            None => forall|t: int| 0 <= t < registry@.len() ==> (#[trigger] registry@[t]).alive,
        },
{
    let n = registry.len();
    let mut j: usize = 0;
    while j < n
        invariant
            j <= n,
            n == registry@.len(),
            forall|t: int| 0 <= t < j ==> (#[trigger] registry@[t]).alive,
        decreases n - j,
    {
        if !registry[j].alive {
            return Some(j);
        }
        j += 1;
    }
    None
}

/// Whether every record of `registry` is marked dead.
fn registry_all_dead(registry: &Vec<Hazard>) -> (r: bool)
    ensures
        r <==> (forall|t: int| 0 <= t < registry@.len() ==> !(#[trigger] registry@[t]).alive),
{
    let n = registry.len();
    let mut all_dead_now = true;
    let mut j: usize = 0;
    while j < n
        invariant
            j <= n,
            n == registry@.len(),
            all_dead_now <==> (forall|t: int| 0 <= t < j ==> !(#[trigger] registry@[t]).alive),
        decreases n - j,
    {
        if registry[j].alive {
            all_dead_now = false;
        }
        j += 1;
    }
    all_dead_now
}

/// A registry in which no record publishes anything protects nothing.
proof fn lemma_no_pub_unprotected(reg: Seq<Hazard>, i: usize)
    requires
        forall|r: int| 0 <= r < reg.len() ==> (#[trigger] reg[r]).published is None,
    ensures
        !published_in(reg, i, reg.len() as int),
{
    if published_in(reg, i, reg.len() as int) {
        let r = choose|r: int|
            0 <= r < reg.len() && (#[trigger] reg[r]).alive && reg[r].published == Some(i);
        assert(reg[r].published is None);
    }
}

/// A sequence stays duplicate-free when an element it lacks is pushed.
proof fn lemma_push_no_duplicates<A>(s: Seq<A>, x: A)
    requires
        s.no_duplicates(),
        !s.contains(x),
    ensures
        s.push(x).no_duplicates(),
{
    assert forall|p: int, q: int|
        0 <= p < s.push(x).len() && 0 <= q < s.push(x).len() && p != q implies s.push(x)[p] != s
        .push(x)[q] by {
        if p < s.len() && q == s.len() {
            if s[p] == x {
                assert(s.contains(x));
            }
        }
        if q < s.len() && p == s.len() {
            if s[q] == x {
                assert(s.contains(x));
            }
        }
    }
}

/// `filter` over a sequence grown by one element.
proof fn lemma_filter_push<A>(s: Seq<A>, x: A, pred: spec_fn(A) -> bool)
    ensures
        s.push(x).filter(pred) == (if pred(x) {
            s.filter(pred).push(x)
        } else {
            s.filter(pred)
        }),
{
    reveal(Seq::filter);
    assert(s.push(x).drop_last() =~= s);
    assert(s.push(x).last() == x);
}

/// Frees one retired slot: its storage becomes vacant and rejoins the
/// free list. Nothing else in the arena moves.
fn free_slot<T>(stack: &mut Stack<T>, i: usize)
    requires
        old(stack).free_wf(),
        i < old(stack).slots@.len(),
        old(stack).slots@[i as int] is Retired,
    ensures
        final(stack).free_wf(),
        final(stack).head == old(stack).head,
        final(stack).chain@ == old(stack).chain@,
        final(stack).registry@ == old(stack).registry@,
        final(stack).pushes@ == old(stack).pushes@,
        final(stack).pops@ == old(stack).pops@,
        final(stack).slots@ == old(stack).slots@.update(i as int, Slot::<T>::Vacant),
{
    stack.slots[i] = Slot::Vacant;
    stack.free.push(i);
    proof {
        assert forall|t: int| 0 <= t < stack.free@.len() - 1 implies (#[trigger] stack.free@[t])
            != i by {
            assert(old(stack).slots@[stack.free@[t] as int] is Vacant);
        }
    }
}

/// What `filter` keeps: exactly the elements of the sequence on which
/// the predicate holds.
proof fn lemma_filter_membership<A>(s: Seq<A>, pred: spec_fn(A) -> bool)
    ensures
        forall|x: A| #[trigger] s.filter(pred).contains(x) ==> s.contains(x) && pred(x),
        forall|x: A| s.contains(x) && pred(x) ==> #[trigger] s.filter(pred).contains(x),
        forall|t: int|
            0 <= t < s.filter(pred).len() ==> pred(#[trigger] s.filter(pred)[t]) && s.contains(
                s.filter(pred)[t],
            ),
{
    assert forall|x: A| #[trigger] s.filter(pred).contains(x) implies s.contains(x) && pred(
        x,
    ) by {
        s.lemma_filter_contains_rev(pred, x);
        let t = choose|t: int| 0 <= t < s.filter(pred).len() && s.filter(pred)[t] == x;
        s.lemma_filter_pred(pred, t);
    }
    assert forall|x: A| s.contains(x) && pred(x) implies #[trigger] s.filter(pred).contains(
        x,
    ) by {
        let t = choose|t: int| 0 <= t < s.len() && s[t] == x;
        s.lemma_filter_contains(pred, t);
    }
    assert forall|t: int| 0 <= t < s.filter(pred).len() implies pred(
        #[trigger] s.filter(pred)[t],
    ) && s.contains(s.filter(pred)[t]) by {
        s.lemma_filter_pred(pred, t);
        assert(s.filter(pred).contains(s.filter(pred)[t]));
        s.lemma_filter_contains_rev(pred, s.filter(pred)[t]);
    }
}

/// What a finished reclamation pass guarantees: the kept entries are
/// exactly the protected ones, still retired, and every unprotected
/// entry's slot is vacant.
proof fn lemma_sweep_finish<T>(
    o: Stack<T>,
    s: Stack<T>,
    orig: Seq<usize>,
    newr: Seq<usize>,
    pred: spec_fn(usize) -> bool,
)
    requires
        o.wf(),
        retired_wf(o, orig),
        forall|a: usize| #[trigger] pred(a) <==> o.protected(a),
        s.slots@.len() == o.slots@.len(),
        newr == orig.filter(pred),
        newr.no_duplicates(),
        forall|i: usize|
            i < o.slots@.len() && !orig.contains(i) ==> #[trigger] s.slots@[i as int]
                == o.slots@[i as int],
        forall|t: int|
            0 <= t < orig.len() && pred(orig[t]) ==> s.slots@[(#[trigger] orig[t]) as int]
                == o.slots@[orig[t] as int],
        forall|t: int|
            0 <= t < orig.len() && !pred(orig[t]) ==> s.slots@[(#[trigger] orig[t]) as int]
                is Vacant,
    ensures
        retired_wf(s, newr),
        forall|i: usize| #[trigger] newr.contains(i) ==> orig.contains(i) && o.protected(i),
        forall|i: usize|
            o.protected(i) && orig.contains(i) ==> newr.contains(i) && s.slot_allocated(i),
        forall|i: usize| orig.contains(i) && !o.protected(i) ==> s.slots@[i as int] is Vacant,
{
    lemma_filter_membership(orig, pred);
    assert forall|t: int| 0 <= t < newr.len() implies (#[trigger] newr[t]) < s.slots@.len()
        && s.slots@[newr[t] as int] is Retired by {
        let u = choose|u: int| 0 <= u < orig.len() && orig[u] == newr[t];
        assert(pred(orig[u]));
        assert(s.slots@[orig[u] as int] == o.slots@[orig[u] as int]);
    }
    assert forall|i: usize|
        o.protected(i) && orig.contains(i) implies newr.contains(i) && s.slot_allocated(i) by {
        let u = choose|u: int| 0 <= u < orig.len() && orig[u] == i;
        assert(pred(orig[u]));
        assert(s.slots@[orig[u] as int] == o.slots@[orig[u] as int]);
    }
    assert forall|i: usize| orig.contains(i) && !o.protected(i) implies s.slots@[i as int]
        is Vacant by {
        let t = choose|t: int| 0 <= t < orig.len() && orig[t] == i;
        assert(!pred(orig[t]));
    }
}

/// The predicate a reclamation pass filters by: whether the stack's
/// registry currently protects a slot.
pub open spec fn is_protected_by<T>(s: Stack<T>) -> spec_fn(usize) -> bool {
    |i: usize| s.protected(i)
}

/// The scan-and-free loop of a reclamation pass, against one fixed
/// snapshot: protected entries of `work` go to `kept` in order, the
/// slots of the rest become vacant.
#[verifier::rlimit(100)]
fn partition_loop<T>(
    stack: &mut Stack<T>,
    work: &Vec<usize>,
    snap: &Vec<usize>,
    kept: &mut Vec<usize>,
)
    requires
        old(stack).wf(),
        retired_wf(*old(stack), work@),
        old(kept)@.len() == 0,
        forall|a: usize| #[trigger] snap@.contains(a) ==> old(stack).protected(a),
        forall|a: usize| #[trigger] old(stack).protected(a) ==> snap@.contains(a),
    ensures
        final(stack).head == old(stack).head,
        final(stack).chain@ == old(stack).chain@,
        final(stack).registry@ == old(stack).registry@,
        final(stack).pushes@ == old(stack).pushes@,
        final(stack).pops@ == old(stack).pops@,
        final(stack).slots@.len() == old(stack).slots@.len(),
        final(stack).free_wf(),
        final(kept)@ == work@.filter(is_protected_by(*old(stack))),
        final(kept)@.no_duplicates(),
        forall|i: usize|
            i < old(stack).slots@.len() && !work@.contains(i)
                ==> final(stack).slots@[i as int] == old(stack).slots@[i as int],
        forall|t: int|
            0 <= t < work@.len() && old(stack).protected(work@[t])
                ==> final(stack).slots@[(#[trigger] work@[t]) as int] == old(stack).slots@[work@[t] as int],
        forall|t: int|
            0 <= t < work@.len() && !old(stack).protected(work@[t])
                ==> final(stack).slots@[(#[trigger] work@[t]) as int] is Vacant,
{
    let ghost pred = is_protected_by(*old(stack));
    let ghost orig = work@;
    proof {
        assert(orig.subrange(0, 0).filter(pred) =~= Seq::<usize>::empty()) by {
            reveal(Seq::filter);
        }
        assert(kept@ =~= Seq::<usize>::empty());
    }
    let mut k: usize = 0;
    while k < work.len()
        invariant
            k <= work@.len(),
            work@ == orig,
            retired_wf(*old(stack), orig),
            forall|a: usize| #[trigger] snap@.contains(a) ==> old(stack).protected(a),
            forall|a: usize| #[trigger] old(stack).protected(a) ==> snap@.contains(a),
            pred == is_protected_by(*old(stack)),
            stack.head == old(stack).head,
            stack.chain@ == old(stack).chain@,
            stack.registry@ == old(stack).registry@,
            stack.pushes@ == old(stack).pushes@,
            stack.pops@ == old(stack).pops@,
            stack.slots@.len() == old(stack).slots@.len(),
            stack.free_wf(),
            kept@ == orig.subrange(0, k as int).filter(pred),
            kept@.no_duplicates(),
            forall|i: usize|
                i < old(stack).slots@.len() && !orig.contains(i)
                    ==> #[trigger] stack.slots@[i as int] == old(stack).slots@[i as int],
            forall|t: int|
                k <= t < orig.len() ==> stack.slots@[(#[trigger] orig[t]) as int] == old(stack).slots@[orig[t] as int],
            forall|t: int|
                0 <= t < k && old(stack).protected(orig[t]) ==> stack.slots@[(#[trigger] orig[t]) as int] == old(stack).slots@[orig[t] as int],
            forall|t: int|
                0 <= t < k && !old(stack).protected(orig[t]) ==> stack.slots@[(#[trigger] orig[t]) as int]
                    is Vacant,
        decreases work@.len() - k,
    {
        let ghost done = orig.subrange(0, k as int);
        let i = work[k];
        proof {
            assert(orig.subrange(0, k as int + 1) =~= done.push(i));
            lemma_filter_push(done, i, pred);
            assert(!done.contains(i)) by {
                if done.contains(i) {
                    let t = choose|t: int| 0 <= t < done.len() && done[t] == i;
                    assert(orig[t] == orig[k as int]);
                }
            }
            assert(stack.slots@[i as int] == old(stack).slots@[i as int]);
            assert(stack.slots@[i as int] is Retired);
        }
        if contains_usize(&snap, i) {
            proof {
                assert(pred(i));
                if kept@.contains(i) {
                    done.lemma_filter_contains_rev(pred, i);
                }
                lemma_push_no_duplicates(kept@, i);
            }
            kept.push(i);
        } else {
            proof {
                assert(!pred(i));
            }
            free_slot(stack, i);
        }
        proof {
            assert(orig[k as int] == i);
            assert(orig.contains(i));
        }
        k += 1;
        proof {
            assert(kept@ == orig.subrange(0, k as int).filter(pred));
        }
    }
    proof {
        assert(orig.subrange(0, orig.len() as int) =~= orig);
    }
}

/// One registry snapshot, then the partition of a retire list against
/// it: the protected entries are returned in order, the slots of the
/// rest are freed.
#[verifier::rlimit(100)]
fn partition_retired<T>(stack: &mut Stack<T>, work: &Vec<usize>) -> (kept: Vec<usize>)
    requires
        old(stack).wf(),
        retired_wf(*old(stack), work@),
    ensures
        final(stack).wf(),
        final(stack).head == old(stack).head,
        final(stack).chain@ == old(stack).chain@,
        final(stack).registry@ == old(stack).registry@,
        final(stack).pushes@ == old(stack).pushes@,
        final(stack).pops@ == old(stack).pops@,
        final(stack).contents() == old(stack).contents(),
        final(stack).slots@.len() == old(stack).slots@.len(),
        kept@ == work@.filter(is_protected_by(*old(stack))),
        kept@.no_duplicates(),
        forall|i: usize|
            i < old(stack).slots@.len() && !work@.contains(i)
                ==> final(stack).slots@[i as int] == old(stack).slots@[i as int],
        forall|t: int|
            0 <= t < work@.len() && old(stack).protected(work@[t])
                ==> final(stack).slots@[(#[trigger] work@[t]) as int] == old(stack).slots@[work@[t] as int],
        forall|t: int|
            0 <= t < work@.len() && !old(stack).protected(work@[t])
                ==> final(stack).slots@[(#[trigger] work@[t]) as int] is Vacant,
{
    let snap = collect_protected(&stack.registry);
    let mut kept: Vec<usize> = Vec::new();
    partition_loop(stack, work, &snap, &mut kept);
    proof {
        assert forall|q: int| 0 <= q < stack.chain@.len() implies stack.slot_full(
            #[trigger] stack.chain@[q],
        ) && stack.node_at(stack.chain@[q]) == old(stack).node_at(stack.chain@[q]) by {
            assert(old(stack).slot_full(stack.chain@[q]));
            assert(!work@.contains(stack.chain@[q])) by {
                if work@.contains(stack.chain@[q]) {
                    let u = choose|u: int| 0 <= u < work@.len() && work@[u] == stack.chain@[q];
                    assert(old(stack).slots@[work@[u] as int] is Retired);
                }
            }
            assert(stack.slots@[stack.chain@[q] as int] == old(stack).slots@[stack.chain@[q] as int]);
        }
        assert(stack.contents() =~= old(stack).contents());
    }
    kept
}

/// The reclamation pass shared by gc and release: takes one registry
/// snapshot, then frees exactly the retired slots the snapshot does not
/// protect, keeping the rest in order.
#[verifier::rlimit(50)]
fn sweep<T>(stack: &mut Stack<T>, retired: &mut Vec<usize>)
    requires
        old(stack).wf(),
        retired_wf(*old(stack), old(retired)@),
    ensures
        final(stack).wf(),
        retired_wf(*final(stack), final(retired)@),
        final(stack).head == old(stack).head,
        final(stack).chain@ == old(stack).chain@,
        final(stack).registry@ == old(stack).registry@,
        final(stack).pushes@ == old(stack).pushes@,
        final(stack).pops@ == old(stack).pops@,
        final(stack).contents() == old(stack).contents(),
        final(stack).slots@.len() == old(stack).slots@.len(),
        final(retired)@ == old(retired)@.filter(is_protected_by(*old(stack))),
        forall|i: usize|
            #[trigger] final(retired)@.contains(i) ==> old(retired)@.contains(i) && old(stack).protected(i),
        forall|i: usize|
            old(stack).protected(i) && old(retired)@.contains(i) ==> final(retired)@.contains(i)
                && final(stack).slot_allocated(i),
        forall|i: usize|
            old(retired)@.contains(i) && !old(stack).protected(i) ==> final(stack).slots@[i as int]
                is Vacant,
        forall|i: usize|
            i < old(stack).slots@.len() && !old(retired)@.contains(i)
                ==> final(stack).slots@[i as int] == old(stack).slots@[i as int],
{
    let mut work: Vec<usize> = Vec::new();
    core::mem::swap(retired, &mut work);
    let mut kept = partition_retired(stack, &work);
    core::mem::swap(retired, &mut kept);
    proof {
        lemma_sweep_finish(*old(stack), *stack, work@, retired@, is_protected_by(*old(stack)));
    }
}

/// The drain run by a releasing handle: reclamation passes repeat until
/// the retire list is empty or a pass frees nothing. A slot chronically
/// protected by another live handle is left behind rather than spun on
/// forever. When no record publishes anything, one pass drains the list
/// completely.
#[verifier::rlimit(100)]
fn drain_retired<T>(stack: &mut Stack<T>, retired: &mut Vec<usize>)
    requires
        old(stack).wf(),
        retired_wf(*old(stack), old(retired)@),
    ensures
        final(stack).wf(),
        retired_wf(*final(stack), final(retired)@),
        final(stack).head == old(stack).head,
        final(stack).chain@ == old(stack).chain@,
        final(stack).registry@ == old(stack).registry@,
        final(stack).pushes@ == old(stack).pushes@,
        final(stack).pops@ == old(stack).pops@,
        final(stack).contents() == old(stack).contents(),
        final(stack).slots@.len() == old(stack).slots@.len(),
        forall|i: usize| #[trigger] final(retired)@.contains(i) ==> old(retired)@.contains(i),
        forall|i: usize|
            i < old(stack).slots@.len() && !old(retired)@.contains(i)
                ==> final(stack).slots@[i as int] == old(stack).slots@[i as int],
        forall|i: usize|
            old(retired)@.contains(i) && !final(retired)@.contains(i) ==> !final(stack).slot_allocated(i),
        old(stack).no_publications() ==> final(retired)@.len() == 0,
{
    let mut progress = true;
    while progress && retired.len() > 0
        invariant
            old(stack).wf(),
            retired_wf(*old(stack), old(retired)@),
            stack.registry@ == old(stack).registry@,
            stack.head == old(stack).head,
            stack.chain@ == old(stack).chain@,
            stack.pushes@ == old(stack).pushes@,
            stack.pops@ == old(stack).pops@,
            stack.contents() == old(stack).contents(),
            stack.slots@.len() == old(stack).slots@.len(),
            stack.chain_wf(),
            stack.free_wf(),
            retired_wf(*stack, retired@),
            forall|i: usize| #[trigger] retired@.contains(i) ==> old(retired)@.contains(i),
            forall|i: usize|
                i < old(stack).slots@.len() && !old(retired)@.contains(i)
                    ==> stack.slots@[i as int] == old(stack).slots@[i as int],
            forall|i: usize|
                old(retired)@.contains(i) && !retired@.contains(i) ==> !stack.slot_allocated(i),
            old(stack).no_publications() && !progress ==> retired@.len() == 0,
        decreases retired@.len() + (if progress {
            1int
        } else {
            0int
        }),
    {
        let before = retired.len();
        let ghost prevr = retired@;
        let ghost prestack = *stack;
        sweep(stack, retired);
        progress = retired.len() < before;
        proof {
            assert forall|i: usize|
                i < old(stack).slots@.len() && !old(retired)@.contains(i) implies stack
                .slots@[i as int] == old(stack).slots@[i as int] by {
                if prevr.contains(i) {
                    assert(old(retired)@.contains(i));
                }
                assert(stack.slots@[i as int] == prestack.slots@[i as int]);
            }
            assert forall|i: usize|
                old(retired)@.contains(i) && !retired@.contains(i) implies !stack.slot_allocated(
                i,
            ) by {
                if prevr.contains(i) {
                    assert(!prestack.protected(i));
                    assert(stack.slots@[i as int] is Vacant);
                } else {
                    assert(stack.slots@[i as int] == prestack.slots@[i as int]);
                }
            }
            if old(stack).no_publications() && retired@.len() > 0 {
                let x = retired@[0];
                assert(retired@.contains(x));
                lemma_no_pub_unprotected(old(stack).registry@, x);
                assert(false);
            }
        }
    }
}

/// What a finished push guarantees: with a fresh slot holding the new
/// node linked in front of the old chain, the stack is well formed, its
/// contents gain the new value on top, and every handle stays well
/// formed.
proof fn lemma_push_finish<T>(o: Stack<T>, s: Stack<T>, idx: usize, node: Node<T>)
    requires
        o.wf(),
        node.tail == o.head,
        s.head == Some(idx),
        s.chain@ == seq![idx] + o.chain@,
        s.registry@ == o.registry@,
        s.pushes@ == o.pushes@ + 1,
        s.pops@ == o.pops@,
        s.free_wf(),
        !o.slot_allocated(idx),
        s.slot_full(idx),
        s.node_at(idx) == node,
        o.slots@.len() <= s.slots@.len(),
        forall|i: usize|
            i < o.slots@.len() && i != idx ==> s.slots@[i as int] == o.slots@[i as int],
        forall|i: usize| o.slot_full(i) ==> s.slot_full(i) && i != idx,
        forall|i: usize| o.slot_full(i) ==> s.node_at(i) == o.node_at(i),
        forall|i: usize| o.slot_allocated(i) ==> s.slot_allocated(i) && i != idx,
    ensures
        s.wf(),
        s.contents() == seq![node.data] + o.contents(),
        forall|h: StackHandle| h.wf(o) ==> h.wf(s),
{
    assert forall|k: int| 0 <= k < s.chain@.len() implies s.slot_full(
        #[trigger] s.chain@[k],
    ) by {
        if k > 0 {
            assert(o.slot_full(o.chain@[k - 1]));
        }
    }
    assert forall|k: int| 0 <= k < s.chain@.len() implies s.node_at(
        #[trigger] s.chain@[k],
    ).tail == (if k + 1 < s.chain@.len() {
        Some(s.chain@[k + 1])
    } else {
        None::<usize>
    }) by {
        if k > 0 {
            assert(o.slot_full(o.chain@[k - 1]));
            assert(s.node_at(o.chain@[k - 1]) == o.node_at(o.chain@[k - 1]));
        }
    }
    assert forall|p: int, q: int|
        0 <= p < s.chain@.len() && 0 <= q < s.chain@.len() && p != q implies s.chain@[p] != s
        .chain@[q] by {
        if p == 0 && q > 0 {
            assert(o.slot_full(o.chain@[q - 1]));
        }
        if q == 0 && p > 0 {
            assert(o.slot_full(o.chain@[p - 1]));
        }
    }
    assert(s.contents() =~= seq![node.data] + o.contents());
    assert forall|h: StackHandle| h.wf(o) implies h.wf(s) by {
        assert forall|k: int| 0 <= k < h.retired@.len() implies (#[trigger] h.retired@[k])
            < s.slots@.len() && s.slots@[h.retired@[k] as int] is Retired by {
            assert(o.slots@[h.retired@[k] as int] is Retired);
            assert(o.slot_allocated(h.retired@[k]));
        }
    }
}

/// A per-owner view into one shared stack: the index of the hazard record
/// it owns, and the slots it has unlinked but not yet reclaimed.
pub struct StackHandle {
    pub hid: usize,
    pub retired: Vec<usize>,
}

impl StackHandle {
    /// A handle is well formed against a stack when its hazard record is
    /// alive and its retire list names distinct retired slots.
    pub open spec fn wf<T>(self, s: Stack<T>) -> bool {
        &&& self.hid < s.registry@.len()
        &&& s.registry@[self.hid as int].alive
        &&& forall|k: int|
            0 <= k < self.retired@.len() ==> (#[trigger] self.retired@[k]) < s.slots@.len()
                && s.slots@[self.retired@[k] as int] is Retired
        &&& self.retired@.no_duplicates()
    }

    /// Creates a fresh shared stack and its first handle: an empty chain,
    /// an empty arena, and a registry holding that handle's one record.
    pub fn new<T>() -> (r: (Stack<T>, StackHandle))
        ensures
            r.0.wf(),
            r.1.wf(r.0),
            r.0.contents() == Seq::<T>::empty(),
            r.0.registry@.len() == 1,
            r.0.no_publications(),
            r.0.slots@.len() == 0,
            r.1.retired@.len() == 0,
    {
        let mut registry: Vec<Hazard> = Vec::new();
        registry.push(Hazard::new());
        let stack = (Stack::<T> {
            slots: Vec::new(),
            free: Vec::new(),
            head: None,
            registry,
            chain: Ghost(Seq::empty()),
            pushes: Ghost(0),
            pops: Ghost(0),
        });
        let handle = (StackHandle { hid: 0, retired: Vec::new() });
        proof {
            assert(stack.contents() =~= Seq::<T>::empty());
        }
        (stack, handle)
    }

    /// Pushes `value` on top of the shared stack. The new node goes into
    /// a recycled vacant slot when one exists, else into a fresh slot at
    /// the end of the arena. Every handle that was well formed before
    /// stays well formed.
    #[verifier::rlimit(50)]
    pub fn push<T>(&self, stack: &mut Stack<T>, value: T)
        requires
            old(stack).wf(),
            self.wf(*old(stack)),
        ensures
            final(stack).wf(),
            self.wf(*final(stack)),
            final(stack).contents() == seq![value] + old(stack).contents(),
            final(stack).registry@ == old(stack).registry@,
            final(stack).pushes@ == old(stack).pushes@ + 1,
            final(stack).pops@ == old(stack).pops@,
            forall|h: StackHandle| h.wf(*old(stack)) ==> h.wf(*final(stack)),
    {
        let tail = stack.head;
        let node = (Node { data: value, tail });
        let idx = stack.claim_slot(node);
        stack.head = Some(idx);
        proof {
            stack.chain@ = seq![idx] + stack.chain@;
            stack.pushes@ = stack.pushes@ + 1;
            lemma_push_finish(*old(stack), *stack, idx, node);
        }
    }
    /// Pops the top value, or returns `None` when the stack is empty.
    /// The popped node's slot is published in this handle's hazard record
    /// for the duration of the unlink, then only retired — never freed
    /// here — because reclamation is gc's job. The publication is cleared
    /// again before returning.
    #[verifier::rlimit(50)]
    pub fn pop<T>(&mut self, stack: &mut Stack<T>) -> (r: Option<T>)
        requires
            old(stack).wf(),
            old(self).wf(*old(stack)),
        ensures
            final(stack).wf(),
            final(self).wf(*final(stack)),
            final(self).hid == old(self).hid,
            old(stack).contents().len() == 0 ==> r is None && *final(stack) == *old(stack)
                && *final(self) == *old(self),
            old(stack).contents().len() > 0 ==> ({
                &&& r == Some(old(stack).contents().first())
                &&& final(stack).contents() == old(stack).contents().drop_first()
                &&& final(self).retired@ == old(self).retired@.push(old(stack).chain@.first())
                &&& final(stack).registry@ == old(stack).registry@.update(
                    old(self).hid as int,
                    (Hazard { alive: true, published: None }),
                )
                &&& final(stack).pops@ == old(stack).pops@ + 1
            }),
            final(stack).pushes@ == old(stack).pushes@,
            final(stack).slots@.len() == old(stack).slots@.len(),
            forall|h: StackHandle| h.wf(*old(stack)) ==> h.wf(*final(stack)),
    {
        let hid = self.hid;
        match stack.head {
            None => None,
            Some(top) => {
                // Publish the just-read address before acting on it.
                stack.registry[hid] = Hazard { alive: true, published: Some(top) };
                proof {
                    assert(old(stack).slot_full(top));
                }
                let mut taken: Slot<T> = Slot::Retired;
                core::mem::swap(&mut stack.slots[top], &mut taken);
                match taken {
                    Slot::Full(node) => {
                        stack.head = node.tail;
                        self.retired.push(top);
                        stack.registry[hid] = Hazard { alive: true, published: None };
                        proof {
                            stack.chain@ = stack.chain@.drop_first();
                            stack.pops@ = stack.pops@ + 1;
                        }
                        proof {
                            assert(!old(stack).chain@.drop_first().contains(top));
                            lemma_push_no_duplicates(old(self).retired@, top);
                            assert(stack.contents() =~= old(stack).contents().drop_first());
                            assert forall|h: StackHandle| h.wf(*old(stack)) implies h.wf(
                                *stack,
                            ) by {
                                assert forall|k: int| 0 <= k < h.retired@.len() implies (
                                #[trigger] h.retired@[k]) < stack.slots@.len()
                                    && stack.slots@[h.retired@[k] as int] is Retired by {
                                    assert(old(stack).slots@[h.retired@[k] as int] is Retired);
                                }
                            }
                        }
                        Some(node.data)
                    },
                    _ => {
                        proof {
                            assert(false);
                        }
                        None
                    },
                }
            },
        }
    }

    /// Reclaims what it safely can of this handle's retire list. One
    /// snapshot of every alive record's publication is taken; exactly
    /// the retired slots the snapshot does not protect are freed, and
    /// the protected ones stay retired, in order, for a later pass.
    pub fn gc<T>(&mut self, stack: &mut Stack<T>)
        requires
            old(stack).wf(),
            old(self).wf(*old(stack)),
        ensures
            final(stack).wf(),
            final(self).wf(*final(stack)),
            final(self).hid == old(self).hid,
            final(stack).head == old(stack).head,
            final(stack).chain@ == old(stack).chain@,
            final(stack).registry@ == old(stack).registry@,
            final(stack).pushes@ == old(stack).pushes@,
            final(stack).pops@ == old(stack).pops@,
            final(stack).contents() == old(stack).contents(),
            final(stack).slots@.len() == old(stack).slots@.len(),
            final(self).retired@ == old(self).retired@.filter(
                is_protected_by(*old(stack)),
            ),
            forall|i: usize|
                old(stack).protected(i) && old(self).retired@.contains(i) ==> final(self).retired@.contains(i) && final(stack).slot_allocated(i),
            forall|i: usize|
                old(self).retired@.contains(i) && !old(stack).protected(i) ==> !final(stack).slot_allocated(i),
            forall|i: usize|
                i < old(stack).slots@.len() && !old(self).retired@.contains(i)
                    ==> final(stack).slots@[i as int] == old(stack).slots@[i as int],
            forall|h: StackHandle|
                h.wf(*old(stack)) && h.retired@.disjoint(old(self).retired@) ==> h.wf(
                    *final(stack),
                ),
    {
        if self.retired.is_empty() {
            proof {
                assert(old(self).retired@.filter(is_protected_by(*old(stack)))
                    =~= old(self).retired@) by {
                    reveal(Seq::filter);
                }
            }
            return ;
        }
        sweep(stack, &mut self.retired);
        proof {
            assert forall|h: StackHandle|
                h.wf(*old(stack)) && h.retired@.disjoint(old(self).retired@) implies h.wf(
                *stack,
            ) by {
                assert forall|t: int| 0 <= t < h.retired@.len() implies (
                #[trigger] h.retired@[t]) < stack.slots@.len()
                    && stack.slots@[h.retired@[t] as int] is Retired by {
                    if old(self).retired@.contains(h.retired@[t]) {
                        let u = choose|u: int|
                            0 <= u < old(self).retired@.len() && old(self).retired@[u]
                                == h.retired@[t];
                        assert(h.retired@[t] != old(self).retired@[u]);
                    }
                    assert(stack.slots@[h.retired@[t] as int] == old(stack).slots@[h.retired@[t] as int]);
                }
            }
        }
    }

    /// Creates a second handle onto the same stack. The registry is
    /// scanned for a record marked dead; the first one found is reset
    /// and recycled, and only when every record is alive is a fresh one
    /// appended. The registry therefore never grows past the peak count
    /// of concurrently live handles.
    #[verifier::rlimit(50)]
    pub fn duplicate<T>(&self, stack: &mut Stack<T>) -> (h: StackHandle)
        requires
            old(stack).wf(),
            self.wf(*old(stack)),
        ensures
            final(stack).wf(),
            self.wf(*final(stack)),
            h.wf(*final(stack)),
            h.retired@.len() == 0,
            h.hid != self.hid,
            final(stack).slots@ == old(stack).slots@,
            final(stack).free@ == old(stack).free@,
            final(stack).head == old(stack).head,
            final(stack).chain@ == old(stack).chain@,
            final(stack).contents() == old(stack).contents(),
            final(stack).pushes@ == old(stack).pushes@,
            final(stack).pops@ == old(stack).pops@,
            final(stack).registry@[h.hid as int].alive,
            final(stack).registry@[h.hid as int].published is None,
            forall|r: int|
                0 <= r < old(stack).registry@.len() && r != h.hid as int ==> final(stack).registry@[r] == old(stack).registry@[r],
            (exists|r: int|
                0 <= r < old(stack).registry@.len() && !(#[trigger] old(stack).registry@[r]).alive) ==> final(stack).registry@.len() == old(stack).registry@.len() && !old(stack).registry@[h.hid as int].alive,
            (forall|r: int|
                0 <= r < old(stack).registry@.len() ==> (#[trigger] old(stack).registry@[r]).alive) ==> final(stack).registry@.len() == old(stack).registry@.len() + 1 && h.hid as int == old(stack).registry@.len(),
            forall|hh: StackHandle|
                hh.wf(*old(stack)) ==> hh.wf(*final(stack)) && hh.hid != h.hid,
    {
        let n = stack.registry.len();
        let found = find_dead(&stack.registry);
        match found {
            Some(j) => {
                proof {
                    assert(self.hid != j);
                }
                stack.registry[j] = Hazard::new();
                StackHandle { hid: j, retired: Vec::new() }
            },
            None => {
                stack.registry.push(Hazard::new());
                StackHandle { hid: n, retired: Vec::new() }
            },
        }
    }

    /// Consumes the handle. Its hazard record is marked dead, its retire
    /// list is drained by repeated reclamation passes, and when every
    /// registry entry is then dead the shared state is torn down. A pass
    /// that frees nothing ends the drain: a slot chronically protected
    /// by another live handle is left behind rather than spun on forever.
    #[verifier::rlimit(100)]
    pub fn release<T>(self, stack: &mut Stack<T>)
        requires
            old(stack).wf(),
            self.wf(*old(stack)),
        ensures
            final(stack).wf(),
            (forall|r: int|
                0 <= r < old(stack).registry@.len() && r != self.hid as int ==> !(
                #[trigger] old(stack).registry@[r]).alive) <==> final(stack).torn_down(),
            !final(stack).torn_down() ==> ({
                &&& final(stack).registry@ == old(stack).registry@.update(
                    self.hid as int,
                    (Hazard {
                        alive: false,
                        published: old(stack).registry@[self.hid as int].published,
                    }),
                )
                &&& final(stack).head == old(stack).head
                &&& final(stack).chain@ == old(stack).chain@
                &&& final(stack).contents() == old(stack).contents()
                &&& final(stack).pushes@ == old(stack).pushes@
                &&& final(stack).pops@ == old(stack).pops@
                &&& final(stack).slots@.len() == old(stack).slots@.len()
                &&& forall|i: usize|
                    i < old(stack).slots@.len() && !self.retired@.contains(i)
                        ==> final(stack).slots@[i as int] == old(stack).slots@[i as int]
                &&& (old(stack).no_publications() ==> forall|i: usize|
                    self.retired@.contains(i) ==> !final(stack).slot_allocated(i))
            }),
            forall|hh: StackHandle|
                hh.wf(*old(stack)) && hh.hid != self.hid && hh.retired@.disjoint(
                    self.retired@,
                ) ==> hh.wf(*final(stack)),
    {
        let hid = self.hid;
        let mut retired_list = self.retired;
        let prev_pub = stack.registry[hid].published;
        stack.registry[hid] = Hazard { alive: false, published: prev_pub };
        let ghost marked = *stack;
        proof {
            assert(retired_wf(marked, retired_list@));
            if old(stack).no_publications() {
                assert forall|r: int|
                    0 <= r < marked.registry@.len() implies (
                #[trigger] marked.registry@[r]).published is None by {
                    assert(old(stack).registry@[r].published is None);
                }
            }
        }
        drain_retired(stack, &mut retired_list);
        let all_dead_now = registry_all_dead(&stack.registry);
        if all_dead_now {
            stack.slots = Vec::new();
            stack.free = Vec::new();
            stack.head = None;
            stack.registry = Vec::new();
            proof {
                stack.chain@ = Seq::empty();
                stack.pushes@ = 0;
                stack.pops@ = 0;
                assert(stack.contents() =~= Seq::<T>::empty());
                assert forall|r: int|
                    0 <= r < old(stack).registry@.len() && r != self.hid as int implies !(
                #[trigger] old(stack).registry@[r]).alive by {
                    assert(!marked.registry@[r].alive);
                }
                assert forall|hh: StackHandle|
                    hh.wf(*old(stack)) && hh.hid != self.hid && hh.retired@.disjoint(
                        self.retired@,
                    ) implies hh.wf(*stack) by {
                    assert(old(stack).registry@[hh.hid as int].alive);
                    assert(false);
                }
            }
        } else {
            proof {
                let t = choose|t: int|
                    0 <= t < marked.registry@.len() && (#[trigger] marked.registry@[t]).alive;
                assert(old(stack).registry@[t].alive && t != self.hid as int);
                assert(!stack.torn_down());
                assert forall|hh: StackHandle|
                    hh.wf(*old(stack)) && hh.hid != self.hid && hh.retired@.disjoint(
                        self.retired@,
                    ) implies hh.wf(*stack) by {
                    assert(stack.registry@[hh.hid as int].alive);
                    assert forall|k: int| 0 <= k < hh.retired@.len() implies (
                    #[trigger] hh.retired@[k]) < stack.slots@.len()
                        && stack.slots@[hh.retired@[k] as int] is Retired by {
                        if self.retired@.contains(hh.retired@[k]) {
                            let u = choose|u: int|
                                0 <= u < self.retired@.len() && self.retired@[u]
                                    == hh.retired@[k];
                            assert(hh.retired@[k] != self.retired@[u]);
                        }
                        assert(stack.slots@[hh.retired@[k] as int] == marked.slots@[hh.retired@[k] as int]);
                    }
                }
            }
        }
    }
}

} // verus!
