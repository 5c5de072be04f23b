use vstd::prelude::*;

use crate::rank_queue::{entry_lt, RankQueue};

verus! {

/// Abstract state of a routing table: per-server availability and load rank, and the
/// selection queue of `(load_rank, index)` entries.
pub struct TableView {
    pub available: Seq<bool>,
    pub load_rank: Seq<u64>,
    pub queue: Set<(u64, usize)>,
}

/// The queue entry that server `i` has while it is in rotation.
pub open spec fn entry_of(v: TableView, i: int) -> (u64, usize) {
    (v.load_rank[i], i as usize)
}

/// Invariant of the routing table:
/// every queued entry names a server and carries that server's current rank (so there is at
/// most one entry per server), and every available server is in rotation.
/// A server leaves the queue only when it is found unavailable, so a healthy server can never
/// drop out of rotation while still flagged available.
pub open spec fn table_inv(v: TableView) -> bool {
    &&& v.available.len() == v.load_rank.len()
    &&& v.available.len() <= usize::MAX
    &&& forall|e: (u64, usize)| #[trigger]
        v.queue.contains(e) ==> e.1 < v.available.len() && e.0 == v.load_rank[e.1 as int]
    &&& forall|i: int|
        0 <= i < v.available.len() && #[trigger] v.available[i] ==> v.queue.contains(
            entry_of(v, i),
        )
}

/// Server `i` is available and has the least `(load_rank, index)` among available servers.
pub open spec fn is_best(v: TableView, i: int) -> bool {
    &&& 0 <= i < v.available.len()
    &&& v.available[i]
    &&& forall|j: int|
        0 <= j < v.available.len() && #[trigger] v.available[j] && j != i ==> entry_lt(
            entry_of(v, i),
            entry_of(v, j),
        )
}

/// The server that selection tries next, if any server is available.
pub open spec fn candidate(v: TableView) -> Option<usize> {
    if exists|i: int| is_best(v, i) {
        Some((choose|i: int| is_best(v, i)) as usize)
    } else {
        None
    }
}

/// The table after selection has discarded, from the front of the queue, the entries of
/// servers that are no longer available.
pub open spec fn trimmed(v: TableView) -> TableView {
    match candidate(v) {
        Some(c) => TableView {
            queue: v.queue.filter(|e: (u64, usize)| !entry_lt(e, entry_of(v, c as int))),
            ..v
        },
        None => TableView { queue: Set::empty(), ..v },
    }
}

/// Rank after one more use; it stays put at the largest value instead of wrapping.
pub open spec fn next_rank(r: u64) -> u64 {
    if r < u64::MAX {
        (r + 1) as u64
    } else {
        r
    }
}

/// `markAvailable`: only a false-to-true edge changes anything; it restarts the rank at zero
/// and puts the server back in rotation.
pub open spec fn marked_available(v: TableView, i: int) -> TableView {
    if v.available[i] {
        v
    } else {
        TableView {
            available: v.available.update(i, true),
            load_rank: v.load_rank.update(i, 0),
            queue: v.queue.remove(entry_of(v, i)).insert((0, i as usize)),
        }
    }
}

/// `markUnavailable`: the entry stays queued and is discarded lazily by selection.
pub open spec fn marked_unavailable(v: TableView, i: int) -> TableView {
    TableView { available: v.available.update(i, false), ..v }
}

/// A connection to server `c` was opened: its rank grows by one and its entry moves back.
pub open spec fn connect_succeeded(v: TableView, c: int) -> TableView {
    TableView {
        load_rank: v.load_rank.update(c, next_rank(v.load_rank[c])),
        queue: v.queue.remove(entry_of(v, c)).insert((next_rank(v.load_rank[c]), c as usize)),
        ..v
    }
}

/// A connection to server `c` failed: it is flagged unavailable and leaves the queue, until a
/// health probe finds it answering again.
pub open spec fn connect_failed(v: TableView, c: int) -> TableView {
    TableView { available: v.available.update(c, false), queue: v.queue.remove(entry_of(v, c)), ..v }
}

proof fn lemma_best_unique(v: TableView, i: int, j: int)
    requires
        is_best(v, i),
        is_best(v, j),
    ensures
        i == j,
{
    if i != j {
        assert(entry_lt(entry_of(v, i), entry_of(v, j)));
        assert(entry_lt(entry_of(v, j), entry_of(v, i)));
    }
}

/// The available server with the least `(load_rank, index)` is the candidate.
pub proof fn lemma_candidate_is(v: TableView, i: int)
    requires
        is_best(v, i),
    ensures
        candidate(v) == Some(i as usize),
{
    let c = choose|k: int| is_best(v, k);
    lemma_best_unique(v, i, c);
}

/// With every upstream flagged unavailable, selection finds no upstream and empties the queue.
pub proof fn lemma_selection_exhausted(v: TableView)
    requires
        table_inv(v),
        forall|i: int| 0 <= i < v.available.len() ==> !#[trigger] v.available[i],
    ensures
        candidate(v) == None::<usize>,
        trimmed(v).queue == Set::<(u64, usize)>::empty(),
{
    assert(!exists|i: int| is_best(v, i));
}

/// Among the available servers below index `k`, `i` has the least `(load_rank, index)`.
spec fn is_best_below(v: TableView, k: int, i: int) -> bool {
    &&& 0 <= i < k
    &&& v.available[i]
    &&& forall|j: int|
        0 <= j < k && #[trigger] v.available[j] && j != i ==> entry_lt(
            entry_of(v, i),
            entry_of(v, j),
        )
}

proof fn lemma_best_below_exists(v: TableView, k: int, a: int)
    requires
        table_inv(v),
        0 <= a < k <= v.available.len(),
        v.available[a],
    ensures
        exists|i: int| #[trigger] is_best_below(v, k, i),
    decreases k,
{
    if a == k - 1 && forall|j: int| 0 <= j < k - 1 ==> !#[trigger] v.available[j] {
        assert(is_best_below(v, k, a));
    } else {
        let b = if a < k - 1 {
            a
        } else {
            choose|j: int| 0 <= j < k - 1 && #[trigger] v.available[j]
        };
        lemma_best_below_exists(v, k - 1, b);
        let i = choose|i: int| #[trigger] is_best_below(v, k - 1, i);
        if v.available[k - 1] && entry_lt(entry_of(v, k - 1), entry_of(v, i)) {
            assert(is_best_below(v, k, k - 1));
        } else {
            assert(entry_of(v, i) != entry_of(v, k - 1));
            assert(is_best_below(v, k, i));
        }
    }
}

/// As long as some upstream is flagged available, selection has a candidate, and that
/// candidate is available: no available upstream is ever out of reach of selection.
pub proof fn lemma_available_is_selectable(v: TableView, i: int)
    requires
        table_inv(v),
        0 <= i < v.available.len(),
        v.available[i],
    ensures
        candidate(v) is Some,
        v.available[candidate(v)->0 as int],
{
    lemma_best_below_exists(v, v.available.len() as int, i);
    let b = choose|b: int| #[trigger] is_best_below(v, v.available.len() as int, b);
    assert(is_best(v, b));
    lemma_candidate_is(v, b);
}

/// An upstream flagged unavailable is never the one that selection tries.
pub proof fn lemma_unavailable_not_selected(v: TableView, i: int)
    requires
        table_inv(v),
        0 <= i < v.available.len(),
        !v.available[i],
    ensures
        candidate(v) != Some(i as usize),
{
    if exists|k: int| is_best(v, k) {
        let c = choose|k: int| is_best(v, k);
        assert(c != i);
    }
}

/// Marking an unavailable upstream available puts it in the queue exactly once, at rank
/// zero, and leaves the other entries alone; marking it available again changes nothing.
pub proof fn lemma_available_edge(v: TableView, i: int)
    requires
        table_inv(v),
        0 <= i < v.available.len(),
        !v.available[i],
    ensures
        ({
            let w = marked_available(v, i);
            &&& table_inv(w)
            &&& w.available[i]
            &&& w.queue.contains((0u64, i as usize))
            &&& forall|e: (u64, usize)|
                #[trigger] w.queue.contains(e) && e.1 == i as usize ==> e == (0u64, i as usize)
            &&& forall|e: (u64, usize)|
                e.1 != i as usize ==> (#[trigger] w.queue.contains(e) == v.queue.contains(e))
            &&& marked_available(w, i) == w
        }),
{
    let w = marked_available(v, i);
    assert forall|e: (u64, usize)| #[trigger]
        w.queue.contains(e) implies e.1 < w.available.len() && e.0 == w.load_rank[e.1 as int] by {
        if e != (0u64, i as usize) {
            assert(v.queue.contains(e));
            assert(e != entry_of(v, i));
        }
    }
    assert forall|k: int| 0 <= k < w.available.len() && #[trigger] w.available[k] implies w.queue.contains(
        entry_of(w, k),
    ) by {
        if k != i {
            assert(v.available[k]);
            assert(v.queue.contains(entry_of(v, k)));
            assert(entry_of(v, k) == entry_of(w, k));
            assert(entry_of(v, k) != entry_of(v, i));
        } else {
            assert(entry_of(w, k) == (0u64, i as usize));
        }
    }
}

/// The upstream servers, their availability, and the queue that orders selection.
pub struct RoutingTable {
    addresses: Vec<String>,
    available: Vec<bool>,
    load_rank: Vec<u64>,
    queue: RankQueue,
}

impl View for RoutingTable {
    type V = TableView;

    closed spec fn view(&self) -> TableView {
        TableView { available: self.available@, load_rank: self.load_rank@, queue: self.queue@ }
    }
}

impl RoutingTable {
    pub closed spec fn wf(&self) -> bool {
        &&& self.queue.wf()
        &&& self.addresses@.len() == self.available@.len()
        &&& table_inv(self@)
    }

    /// The configured addresses, in index order.
    pub closed spec fn address_seq(&self) -> Seq<String> {
        self.addresses@
    }

    /// One server per address, all available with rank zero and all in rotation.
    pub fn new(addresses: Vec<String>) -> (r: RoutingTable)
        ensures
            r.wf(),
            r.address_seq() == addresses@,
            r@.available == Seq::new(addresses@.len(), |i: int| true),
            r@.load_rank == Seq::new(addresses@.len(), |i: int| 0u64),
            r@.queue == Set::new(|e: (u64, usize)| e.0 == 0 && e.1 < addresses@.len()),
    {
        let n = addresses.len();
        let mut available: Vec<bool> = Vec::new();
        let mut load_rank: Vec<u64> = Vec::new();
        let mut queue = RankQueue::new();
        let mut i: usize = 0;
        while i < n
            invariant
                i <= n,
                n == addresses@.len(),
                queue.wf(),
                available@ == Seq::new(i as nat, |k: int| true),
                load_rank@ == Seq::new(i as nat, |k: int| 0u64),
                queue@ == Set::new(|e: (u64, usize)| e.0 == 0 && e.1 < i),
            decreases n - i,
        {
            available.push(true);
            load_rank.push(0);
            queue.insert((0, i));
            i = i + 1;
            assert(available@ =~= Seq::new(i as nat, |k: int| true));
            assert(load_rank@ =~= Seq::new(i as nat, |k: int| 0u64));
            assert(queue@ =~= Set::new(|e: (u64, usize)| e.0 == 0 && e.1 < i));
        }
        let r = RoutingTable { addresses, available, load_rank, queue };
        r
    }

    pub fn len(&self) -> (r: usize)
        requires
            self.wf(),
        ensures
            r == self@.available.len(),
            r == self.address_seq().len(),
    {
        self.addresses.len()
    }

    pub fn address(&self, i: usize) -> (r: &String)
        requires
            self.wf(),
            i < self@.available.len(),
        ensures
            *r == self.address_seq()[i as int],
    {
        &self.addresses[i]
    }

    pub fn is_available(&self, i: usize) -> (r: bool)
        requires
            self.wf(),
            i < self@.available.len(),
        ensures
            r == self@.available[i as int],
    {
        self.available[i]
    }

    pub fn load_rank(&self, i: usize) -> (r: u64)
        requires
            self.wf(),
            i < self@.available.len(),
        ensures
            r == self@.load_rank[i as int],
    {
        self.load_rank[i]
    }

    /// Whether `(rank, index)` is currently queued for selection.
    /// Whether `entry` is currently queued for selection.
    pub fn is_queued(&self, entry: (u64, usize)) -> (r: bool)
        requires
            self.wf(),
        ensures
            r == self@.queue.contains(entry),
    {
        self.queue.contains(entry)
    }

    /// Flags server `i` available. Only on a false-to-true edge is it put back in rotation,
    /// at rank zero, replacing any stale entry it still had. Returns whether that edge occurred.
    pub fn mark_available(&mut self, i: usize) -> (r: bool)
        requires
            old(self).wf(),
            i < old(self)@.available.len(),
        ensures
            final(self).wf(),
            final(self).address_seq() == old(self).address_seq(),
            final(self)@ == marked_available(old(self)@, i as int),
            r == !old(self)@.available[i as int],
    {
        if self.available[i] {
            return false;
        }
        let ghost v = self@;
        let old_rank = self.load_rank[i];
        self.queue.remove((old_rank, i));
        self.queue.insert((0, i));
        self.available.set(i, true);
        self.load_rank.set(i, 0);
        let ghost w = self@;
        assert(w.available =~= v.available.update(i as int, true));
        assert(w.load_rank =~= v.load_rank.update(i as int, 0));
        assert forall|e: (u64, usize)| #[trigger]
            w.queue.contains(e) implies e.1 < w.available.len() && e.0 == w.load_rank[e.1 as int] by {
            if e != (0u64, i) {
                assert(v.queue.contains(e));
                assert(e != entry_of(v, i as int));
            }
        }
        assert forall|k: int| 0 <= k < w.available.len() && #[trigger] w.available[k] implies w.queue.contains(
            entry_of(w, k),
        ) by {
            if k != i {
                assert(v.available[k]);
                assert(v.queue.contains(entry_of(v, k)));
                assert(entry_of(v, k) == entry_of(w, k));
                assert(entry_of(v, k) != entry_of(v, i as int));
            } else {
                assert(entry_of(w, k) == (0u64, i));
            }
        }
        true
    }

    /// Flags server `i` unavailable; its queued entry is discarded lazily by selection.
    pub fn mark_unavailable(&mut self, i: usize)
        requires
            old(self).wf(),
            i < old(self)@.available.len(),
        ensures
            final(self).wf(),
            final(self).address_seq() == old(self).address_seq(),
            final(self)@ == marked_unavailable(old(self)@, i as int),
    {
        let ghost v = self@;
        self.available.set(i, false);
        let ghost w = self@;
        assert(w.available =~= v.available.update(i as int, false));
        assert(w.queue == v.queue);
        assert(w.load_rank == v.load_rank);
        assert(table_inv(v));
        assert forall|k: int| 0 <= k < w.available.len() && #[trigger] w.available[k] implies w.queue.contains(
            entry_of(w, k),
        ) by {
            assert(k != i);
            assert(v.available[k]);
            assert(v.queue.contains(entry_of(v, k)));
            assert(entry_of(v, k) == entry_of(w, k));
        }
    }

    /// First half of selection: discards queued entries of unavailable servers from the front
    /// and returns the server to try, which stays queued. `None` means no upstream is available.
    pub fn next_candidate(&mut self) -> (r: Option<usize>)
        requires
            old(self).wf(),
        ensures
            final(self).wf(),
            final(self).address_seq() == old(self).address_seq(),
            r == candidate(old(self)@),
            final(self)@ == trimmed(old(self)@),
    {
        let ghost v = self@;
        let ghost q0 = self.queue@;
        let ghost mut low: Option<(u64, usize)> = None;
        loop
            invariant
                self.wf(),
                self.addresses@ == old(self).addresses@,
                self.available@ == v.available,
                self.load_rank@ == v.load_rank,
                forall|e: (u64, usize)| #[trigger]
                    self.queue@.contains(e) <==> q0.contains(e) && (low is None || entry_lt(
                        low->0,
                        e,
                    )),
                forall|e: (u64, usize)|
                    q0.contains(e) && !#[trigger] self.queue@.contains(e) ==> !v.available[e.1 as int],
                q0 == v.queue,
                v == old(self)@,
                table_inv(v),
            decreases self.queue.size(),
        {
            match self.queue.first() {
                None => {
                    assert forall|i: int| 0 <= i < v.available.len() implies !#[trigger] v.available[i] by {
                        if v.available[i] {
                            assert(q0.contains(entry_of(v, i)));
                            assert(!self.queue@.contains(entry_of(v, i)));
                        }
                    }
                    assert(!exists|i: int| is_best(v, i));
                    assert(candidate(v) == None::<usize>);
                    assert(self@.queue =~= Set::<(u64, usize)>::empty());
                    assert(self@ =~= trimmed(v));
                    return None;
                },
                Some(e) => {
                    if self.available[e.1] {
                        let ghost c = e.1 as int;
                        assert(is_best(v, c)) by {
                            assert forall|j: int|
                                0 <= j < v.available.len() && #[trigger] v.available[j] && j
                                    != c implies entry_lt(entry_of(v, c), entry_of(v, j)) by {
                                assert(q0.contains(entry_of(v, j)));
                                assert(self.queue@.contains(entry_of(v, j)));
                            }
                        }
                        proof {
                            lemma_candidate_is(v, c);
                        }
                        assert forall|x: (u64, usize)| #[trigger]
                            self.queue@.contains(x) <==> q0.contains(x) && !entry_lt(
                                x,
                                entry_of(v, c),
                            ) by {
                            if q0.contains(x) && !entry_lt(x, entry_of(v, c)) && low is Some {
                                assert(entry_lt(low->0, e));
                            }
                        }
                        assert(candidate(v) == Some(e.1));
                        assert(entry_of(v, c) == e);
                        let ghost kept = v.queue.filter(
                            |x: (u64, usize)| !entry_lt(x, entry_of(v, c)),
                        );
                        assert(self@.queue =~= kept);
                        assert(trimmed(v).queue == kept);
                        assert(self@ =~= trimmed(v));
                        return Some(e.1);
                    }
                    let ghost prev = self.queue@;
                    self.queue.pop_first();
                    proof {
                        assert forall|x: (u64, usize)| #[trigger]
                            self.queue@.contains(x) <==> q0.contains(x) && entry_lt(e, x) by {
                            if q0.contains(x) && entry_lt(e, x) && low is Some {
                                assert(entry_lt(low->0, e));
                            }
                        }
                        low = Some(e);
                    }
                },
            }
        }
    }

    /// Second half of selection: commits the outcome of connecting to server `c`.
    /// On success its rank grows by one and it is requeued behind idle peers; on failure it is
    /// flagged unavailable and leaves the queue, so only a later successful health probe, which
    /// sees the false-to-true edge, brings it back.
    pub fn record_connect(&mut self, c: usize, connected: bool)
        requires
            old(self).wf(),
            c < old(self)@.available.len(),
        ensures
            final(self).wf(),
            final(self).address_seq() == old(self).address_seq(),
            final(self)@ == if connected {
                connect_succeeded(old(self)@, c as int)
            } else {
                connect_failed(old(self)@, c as int)
            },
    {
        let ghost v = self@;
        let r = self.load_rank[c];
        self.queue.remove((r, c));
        if connected {
            let r2 = if r < u64::MAX {
                r + 1
            } else {
                r
            };
            self.queue.insert((r2, c));
            self.load_rank.set(c, r2);
            let ghost w = self@;
            assert(w.load_rank =~= v.load_rank.update(c as int, next_rank(v.load_rank[c as int])));
            assert forall|e: (u64, usize)| #[trigger]
                w.queue.contains(e) implies e.1 < w.available.len() && e.0 == w.load_rank[e.1 as int] by {
                if e != (r2, c) {
                    assert(v.queue.contains(e));
                    assert(e != entry_of(v, c as int));
                }
            }
            assert forall|k: int| 0 <= k < w.available.len() && #[trigger] w.available[k] implies w.queue.contains(
                entry_of(w, k),
            ) by {
                if k != c {
                    assert(v.available[k]);
                    assert(v.queue.contains(entry_of(v, k)));
                    assert(entry_of(v, k) == entry_of(w, k));
                    assert(entry_of(v, k) != entry_of(v, c as int));
                } else {
                    assert(entry_of(w, k) == (r2, c));
                }
            }
            assert(table_inv(w));
        } else {
            self.available.set(c, false);
            let ghost w = self@;
            assert(w.available =~= v.available.update(c as int, false));
            assert(w.load_rank == v.load_rank);
            assert(w.queue == v.queue.remove(entry_of(v, c as int)));
            assert forall|e: (u64, usize)| #[trigger]
                w.queue.contains(e) implies e.1 < w.available.len() && e.0 == w.load_rank[e.1 as int] by {
                assert(v.queue.contains(e));
            }
            assert forall|k: int| 0 <= k < w.available.len() && #[trigger] w.available[k] implies w.queue.contains(
                entry_of(w, k),
            ) by {
                assert(k != c);
                assert(v.available[k]);
                assert(v.queue.contains(entry_of(v, k)));
                assert(entry_of(v, k) == entry_of(w, k));
                assert(entry_of(v, k) != entry_of(v, c as int));
            }
            assert(table_inv(w));
        }
    }
}

} // verus!
