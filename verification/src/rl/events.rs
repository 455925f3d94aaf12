//! Priority event queue for scheduling game events.
//!
//! Lower ranks are popped first; at equal rank, events pushed with
//! `push_first` come before those pushed with `push`, and otherwise the
//! earlier pushed comes first (FIFO).
use vstd::prelude::*;

verus! {

/// An entry of the queue: the event, its rank, its insertion number, and
/// whether it was pushed with `push_first`.
#[derive(Debug)]
pub struct Entry<E> {
    pub event: E,
    pub rank: i32,
    pub seq: u64,
    pub first: bool,
}

/// Whether entry `a` is dequeued before entry `b`: lower rank first, then
/// `push_first` entries, then lower insertion number.
pub open spec fn key_before<E>(a: Entry<E>, b: Entry<E>) -> bool {
    ||| a.rank < b.rank
    ||| (a.rank == b.rank && a.first && !b.first)
    ||| (a.rank == b.rank && a.first == b.first && a.seq < b.seq)
}

/// Whether entry `i` of `s` is the one to dequeue next: it comes before
/// every other entry.
pub open spec fn is_next<E>(s: Seq<Entry<E>>, i: int) -> bool {
    &&& 0 <= i < s.len()
    &&& forall|k: int| 0 <= k < s.len() && k != i ==> key_before(s[i], #[trigger] s[k])
}

/// Whether `a` comes before `b`.
fn before<E>(a: &Entry<E>, b: &Entry<E>) -> (r: bool)
    ensures
        r == key_before(*a, *b),
{
    if a.rank != b.rank {
        a.rank < b.rank
    } else if a.first != b.first {
        a.first
    } else {
        a.seq < b.seq
    }
}

/// A priority event queue.
///
/// Events with lower rank are dequeued first. Among events with the same
/// rank, those pushed earlier are dequeued first (FIFO), and
/// [`push_first`](Self::push_first) entries at a given rank come before
/// [`push`](Self::push) entries at the same rank.
pub struct EventQueue<E> {
    items: Vec<Entry<E>>,
    seq: u64,
}

impl<E> EventQueue<E> {
    /// The entries held, in no particular order.
    pub closed spec fn entries(&self) -> Seq<Entry<E>> {
        self.items@
    }

    /// The insertion number the next pushed event gets.
    pub closed spec fn next_seq(&self) -> u64 {
        self.seq
    }

    /// Insertion numbers are distinct and below the next one.
    #[verifier::type_invariant]
    closed spec fn inv(&self) -> bool {
        &&& forall|i: int| 0 <= i < self.items@.len() ==> #[trigger] self.items@[i].seq < self.seq
        &&& forall|i: int, j: int| 0 <= i < self.items@.len() && 0 <= j < self.items@.len() && i != j
            ==> #[trigger] self.items@[i].seq != #[trigger] self.items@[j].seq
    }

    /// Create an empty event queue.
    pub fn new() -> (q: EventQueue<E>)
        ensures
            q.entries().len() == 0,
            q.next_seq() == 0,
    {
        EventQueue { items: Vec::new(), seq: 0 }
    }

    fn push_entry(&mut self, event: E, rank: i32, first: bool)
        requires
            old(self).next_seq() < u64::MAX,
        ensures
            final(self).entries() == old(self).entries().push(
                Entry { event, rank, seq: old(self).next_seq(), first },
            ),
            final(self).next_seq() == old(self).next_seq() + 1,
            forall|k: int| 0 <= k < old(self).entries().len() ==> #[trigger] old(self).entries()[k].seq
                < old(self).next_seq(),
    {
        proof {
            use_type_invariant(&*self);
        }
        let seq = self.seq;
        let mut items: Vec<Entry<E>> = Vec::new();
        std::mem::swap(&mut items, &mut self.items);
        items.push(Entry { event, rank, seq, first });
        *self = EventQueue { items, seq: seq + 1 };
    }

    /// Push an event at the given rank; it comes after every event of that
    /// rank already in the queue.
    pub fn push(&mut self, event: E, rank: i32)
        requires
            old(self).next_seq() < u64::MAX,
        ensures
            final(self).entries() == old(self).entries().push(
                Entry { event, rank, seq: old(self).next_seq(), first: false },
            ),
            final(self).next_seq() == old(self).next_seq() + 1,
            forall|k: int| 0 <= k < old(self).entries().len() ==> #[trigger] old(self).entries()[k].seq
                < old(self).next_seq(),
    {
        self.push_entry(event, rank, false);
    }

    /// Push an event at the given rank with FIFO-first semantics: at equal
    /// rank it is dequeued before the events pushed with `push`.
    pub fn push_first(&mut self, event: E, rank: i32)
        requires
            old(self).next_seq() < u64::MAX,
        ensures
            final(self).entries() == old(self).entries().push(
                Entry { event, rank, seq: old(self).next_seq(), first: true },
            ),
            final(self).next_seq() == old(self).next_seq() + 1,
            forall|k: int| 0 <= k < old(self).entries().len() ==> #[trigger] old(self).entries()[k].seq
                < old(self).next_seq(),
    {
        self.push_entry(event, rank, true);
    }

    /// The index of the entry to dequeue next, if any.
    fn next_index(&self) -> (r: Option<usize>)
        ensures
            r is None <==> self.entries().len() == 0,
            r matches Some(i) ==> is_next(self.entries(), i as int),
    {
        proof {
            use_type_invariant(self);
        }
        let n: usize = self.items.len();
        if n == 0 {
            return None;
        }
        let mut best: usize = 0;
        let mut i: usize = 1;
        while i < n
            invariant
                n == self.items@.len(),
                1 <= i <= n,
                best < i,
                forall|k: int| 0 <= k < i && k != best ==> key_before(self.items@[best as int], #[trigger] self.items@[k]),
                forall|a: int, b: int| 0 <= a < n && 0 <= b < n && a != b
                    ==> #[trigger] self.items@[a].seq != #[trigger] self.items@[b].seq,
            decreases n - i,
        {
            if before(&self.items[i], &self.items[best]) {
                best = i;
            }
            i = i + 1;
        }
        Some(best)
    }

    /// Take out the entry to dequeue next.
    fn pop_entry(&mut self) -> (r: Option<Entry<E>>)
        ensures
            old(self).entries().len() == 0 ==> r is None && final(self).entries() == old(self).entries(),
            old(self).entries().len() > 0 ==> (r matches Some(e) && exists|i: int|
                is_next(old(self).entries(), i) && e == old(self).entries()[i]
                    && final(self).entries() == old(self).entries().remove(i)),
            final(self).next_seq() == old(self).next_seq(),
    {
        proof {
            use_type_invariant(&*self);
        }
        match self.next_index() {
            None => None,
            Some(i) => {
                let ghost s = self.items@;
                let seq = self.seq;
                let mut items: Vec<Entry<E>> = Vec::new();
                std::mem::swap(&mut items, &mut self.items);
                let e = items.remove(i);
                proof {
                    assert(items@ == s.remove(i as int));
                    assert forall|a: int, b: int| 0 <= a < items@.len() && 0 <= b < items@.len() && a != b
                        implies #[trigger] items@[a].seq != #[trigger] items@[b].seq by {
                        let a0 = if a < i { a } else { a + 1 };
                        let b0 = if b < i { b } else { b + 1 };
                        assert(items@[a] == s[a0]);
                        assert(items@[b] == s[b0]);
                    }
                    assert forall|a: int| 0 <= a < items@.len() implies #[trigger] items@[a].seq < seq by {
                        let a0 = if a < i { a } else { a + 1 };
                        assert(items@[a] == s[a0]);
                    }
                }
                *self = EventQueue { items, seq };
                Some(e)
            },
        }
    }

    /// Pop the event with the lowest rank (ties broken as described above).
    pub fn pop(&mut self) -> (r: Option<E>)
        ensures
            old(self).entries().len() == 0 ==> r is None && final(self).entries() == old(self).entries(),
            old(self).entries().len() > 0 ==> (r matches Some(e) && exists|i: int|
                is_next(old(self).entries(), i) && e == old(self).entries()[i].event
                    && final(self).entries() == old(self).entries().remove(i)),
            final(self).next_seq() == old(self).next_seq(),
    {
        match self.pop_entry() {
            Some(e) => Some(e.event),
            None => None,
        }
    }

    /// Pop the event with the lowest rank, also returning the rank.
    pub fn pop_with_rank(&mut self) -> (r: Option<(E, i32)>)
        ensures
            old(self).entries().len() == 0 ==> r is None && final(self).entries() == old(self).entries(),
            old(self).entries().len() > 0 ==> (r matches Some((e, rank)) && exists|i: int|
                is_next(old(self).entries(), i) && e == old(self).entries()[i].event
                    && rank == old(self).entries()[i].rank
                    && final(self).entries() == old(self).entries().remove(i)),
            final(self).next_seq() == old(self).next_seq(),
    {
        match self.pop_entry() {
            Some(e) => Some((e.event, e.rank)),
            None => None,
        }
    }

    /// Whether the queue is empty.
    pub fn is_empty(&self) -> (b: bool)
        ensures
            b == (self.entries().len() == 0),
    {
        self.items.len() == 0
    }

    /// Number of events in the queue.
    pub fn len(&self) -> (n: usize)
        ensures
            n == self.entries().len(),
    {
        self.items.len()
    }

    /// Remove all events that do not satisfy the predicate; the others keep
    /// their rank and order.
    pub fn filter<F: Fn(&E) -> bool>(&mut self, predicate: F)
        requires
            forall|e: &E| predicate.requires((e,)),
        ensures
            final(self).next_seq() == old(self).next_seq(),
            final(self).entries().len() <= old(self).entries().len(),
            forall|j: int| 0 <= j < final(self).entries().len() ==> old(self).entries().contains(
                #[trigger] final(self).entries()[j],
            ) && predicate.ensures((&final(self).entries()[j].event,), true),
            forall|i: int| 0 <= i < old(self).entries().len() ==> final(self).entries().contains(
                #[trigger] old(self).entries()[i],
            ) || predicate.ensures((&old(self).entries()[i].event,), false),
            exists|idx: Seq<int>|
                #[trigger] kept_subseq(old(self).entries(), final(self).entries(), idx) && forall|i: int|
                    0 <= i < old(self).entries().len() ==> idx.contains(i) || predicate.ensures(
                        (&(#[trigger] old(self).entries()[i]).event,),
                        false,
                    ),
            forall|a: int, b: int| 0 <= a < final(self).entries().len() && 0 <= b < final(self).entries().len() && a != b
                ==> #[trigger] final(self).entries()[a].seq != #[trigger] final(self).entries()[b].seq,
    {
        proof {
            use_type_invariant(&*self);
        }
        let mut old_items: Vec<Entry<E>> = Vec::new();
        std::mem::swap(&mut old_items, &mut self.items);
        let ghost s = old_items@;
        let mut kept: Vec<Entry<E>> = Vec::new();
        let ghost mut idx: Seq<int> = Seq::empty();
        let n: usize = old_items.len();
        let mut k: usize = 0;
        while k < n
            invariant
                n == s.len(),
                k <= n,
                old_items@ == s.subrange(k as int, n as int),
                forall|e: &E| predicate.requires((e,)),
                idx.len() == kept@.len(),
                kept@.len() <= k,
                forall|j: int| 0 <= j < idx.len() ==> 0 <= #[trigger] idx[j] < k && kept@[j] == s[idx[j]],
                forall|a: int, b: int| 0 <= a < b < idx.len() ==> #[trigger] idx[a] < #[trigger] idx[b],
                forall|j: int| 0 <= j < kept@.len() ==> predicate.ensures((&(#[trigger] kept@[j]).event,), true),
                forall|i: int| 0 <= i < k ==> kept@.contains(#[trigger] s[i]) || predicate.ensures(
                    (&s[i].event,),
                    false,
                ),
                forall|i: int| 0 <= i < k ==> idx.contains(i) || predicate.ensures((&(#[trigger] s[i]).event,), false),
            decreases n - k,
        {
            let e = old_items.remove(0);
            proof {
                assert(e == s[k as int]);
                assert(old_items@ =~= s.subrange(k + 1, n as int));
            }
            let keep = predicate(&e.event);
            let ghost idx_old = idx;
            if keep {
                proof {
                    idx = idx.push(k as int);
                }
                let ghost kept_old = kept@;
                kept.push(e);
                proof {
                    assert forall|i: int| 0 <= i < k + 1 implies idx.contains(i) || predicate.ensures(
                        (&(#[trigger] s[i]).event,),
                        false,
                    ) by {
                        if i == k {
                            assert(idx[idx.len() - 1] == i);
                        } else if idx_old.contains(i) {
                            let w = choose|w: int| 0 <= w < idx_old.len() && idx_old[w] == i;
                            assert(idx[w] == i);
                        }
                    }
                    assert(kept@.last() == s[k as int]);
                    assert forall|i: int| 0 <= i < k + 1 implies kept@.contains(#[trigger] s[i]) || predicate.ensures(
                        (&s[i].event,),
                        false,
                    ) by {
                        if i == k {
                            assert(kept@[kept@.len() - 1] == s[i]);
                        } else if kept_old.contains(s[i]) {
                            let w = choose|w: int| 0 <= w < kept_old.len() && kept_old[w] == s[i];
                            assert(kept@[w] == s[i]);
                        }
                    }
                }
            }
            k = k + 1;
        }
        proof {
            assert forall|a: int, b: int| 0 <= a < kept@.len() && 0 <= b < kept@.len() && a != b
                implies #[trigger] kept@[a].seq != #[trigger] kept@[b].seq by {
                assert(idx[a] != idx[b]);
            }
            assert forall|j: int| 0 <= j < kept@.len() implies s.contains(#[trigger] kept@[j]) by {
                assert(s[idx[j]] == kept@[j]);
            }
        }
        let seq = self.seq;
        *self = EventQueue { items: kept, seq };
        proof {
            assert(kept_subseq(s, self.entries(), idx));
        }
    }
}

/// Whether `t` is the subsequence of `s` at the increasing indices `idx`.
pub open spec fn kept_subseq<E>(s: Seq<Entry<E>>, t: Seq<Entry<E>>, idx: Seq<int>) -> bool {
    &&& idx.len() == t.len()
    &&& forall|j: int| 0 <= j < idx.len() ==> 0 <= #[trigger] idx[j] < s.len() && t[j] == s[idx[j]]
    &&& forall|a: int, b: int| 0 <= a < b < idx.len() ==> #[trigger] idx[a] < #[trigger] idx[b]
}

impl<E> Default for EventQueue<E> {
    fn default() -> (q: EventQueue<E>)
        ensures
            q.entries().len() == 0,
            q.next_seq() == 0,
    {
        EventQueue::new()
    }
}

/// Events of lower rank are dequeued first: an entry of higher rank than
/// another entry of the queue is never the next one.
pub proof fn lemma_lower_rank_first<E>(s: Seq<Entry<E>>, i: int, j: int)
    requires
        0 <= i < s.len(),
        0 <= j < s.len(),
        s[i].rank < s[j].rank,
    ensures
        !is_next(s, j),
{
    assert(!key_before(s[j], s[i]));
}

/// At equal rank, events are dequeued in the order they were pushed: an
/// entry pushed after another of the same rank and kind is never the next
/// one while the earlier one is queued.
pub proof fn lemma_fifo_same_rank<E>(s: Seq<Entry<E>>, i: int, j: int)
    requires
        0 <= i < s.len(),
        0 <= j < s.len(),
        s[i].rank == s[j].rank,
        s[i].first == s[j].first,
        s[i].seq < s[j].seq,
    ensures
        !is_next(s, j),
{
    assert(!key_before(s[j], s[i]));
}

/// At equal rank, events pushed with `push_first` are dequeued before those
/// pushed with `push`.
pub proof fn lemma_push_first_before_push<E>(s: Seq<Entry<E>>, i: int, j: int)
    requires
        0 <= i < s.len(),
        0 <= j < s.len(),
        s[i].rank == s[j].rank,
        s[i].first,
        !s[j].first,
    ensures
        !is_next(s, j),
{
    assert(!key_before(s[j], s[i]));
}

/// An event pushed below every queued rank is the next to pop, and the
/// only one that can be.
pub proof fn lemma_push_below_is_next<E>(s: Seq<Entry<E>>, n: Entry<E>)
    requires
        forall|k: int| 0 <= k < s.len() ==> n.rank < #[trigger] s[k].rank,
    ensures
        is_next(s.push(n), s.len() as int),
        forall|i: int| #[trigger] is_next(s.push(n), i) ==> i == s.len(),
{
    let t = s.push(n);
    assert forall|k: int| 0 <= k < t.len() && k != s.len() implies key_before(t[s.len() as int], #[trigger] t[k]) by {
        assert(t[k] == s[k]);
    }
    assert forall|i: int| #[trigger] is_next(t, i) implies i == s.len() by {
        if i != s.len() {
            assert(t[i] == s[i]);
            assert(key_before(t[i], t[s.len() as int]));
        }
    }
}

} // verus!
