use vstd::prelude::*;

use std::collections::HashMap;
use std::collections::VecDeque;

verus! {

broadcast use vstd::std_specs::hash::group_hash_axioms;

/// Length of the sliding window, in milliseconds.
pub const WINDOW_MS: u64 = 60000;

/// Entries stamped strictly before this time have left the window at time `now`.
pub open spec fn cutoff(now: u64) -> u64 {
    if now >= WINDOW_MS {
        (now - WINDOW_MS) as u64
    } else {
        0
    }
}

/// Drops, from the front, the entries stamped before `cut`.
pub open spec fn trim(w: Seq<(u128, u64)>, cut: u64) -> Seq<(u128, u64)>
    decreases w.len(),
{
    if w.len() > 0 && w[0].1 < cut {
        trim(w.drop_first(), cut)
    } else {
        w
    }
}

/// Selects the entries of `ip`.
pub open spec fn from_ip(ip: u128) -> spec_fn((u128, u64)) -> bool {
    |e: (u128, u64)| e.0 == ip
}

/// Number of entries of `ip` in `w`.
pub open spec fn count_of(w: Seq<(u128, u64)>, ip: u128) -> nat {
    w.filter(from_ip(ip)).len()
}

pub open spec fn nondecreasing(w: Seq<(u128, u64)>) -> bool {
    forall|i: int, j: int| 0 <= i <= j < w.len() ==> (#[trigger] w[i]).1 <= (#[trigger] w[j]).1
}

/// Abstract state of the limiter: the cap (zero for none) and the window of admitted
/// `(ip, time)` entries in arrival order.
pub struct LimiterView {
    pub limit: usize,
    pub window: Seq<(u128, u64)>,
}

/// One admission decision for `ip` at time `now`, and the state after it.
pub open spec fn admission(v: LimiterView, ip: u128, now: u64) -> (LimiterView, bool) {
    if v.limit == 0 {
        (v, true)
    } else {
        let w = trim(v.window, cutoff(now));
        if count_of(w, ip) >= v.limit {
            (LimiterView { window: w, ..v }, false)
        } else {
            (LimiterView { window: w.push((ip, now)), ..v }, true)
        }
    }
}

/// The decisions for requests of `ip` at the given times, one after another.
pub open spec fn admissions(v: LimiterView, ip: u128, times: Seq<u64>) -> (LimiterView, Seq<bool>)
    decreases times.len(),
{
    if times.len() == 0 {
        (v, Seq::empty())
    } else {
        let (v1, ok) = admission(v, ip, times[0]);
        let (v2, rest) = admissions(v1, ip, times.drop_first());
        (v2, seq![ok] + rest)
    }
}

proof fn lemma_count_prepend(w: Seq<(u128, u64)>, ip: u128)
    requires
        w.len() > 0,
    ensures
        count_of(w, ip) == count_of(w.drop_first(), ip) + if w[0].0 == ip {
            1nat
        } else {
            0nat
        },
{
    let f = from_ip(ip);
    let e0 = Seq::<(u128, u64)>::empty();
    assert(w =~= e0.push(w[0]) + w.drop_first());
    Seq::filter_distributes_over_add(e0.push(w[0]), w.drop_first(), f);
    e0.lemma_filter_push(w[0], f);
    assert(e0.filter(f) =~= e0) by {
        reveal(Seq::filter);
    }
}

proof fn lemma_count_zero(w: Seq<(u128, u64)>, ip: u128)
    requires
        count_of(w, ip) == 0,
    ensures
        forall|k: int| 0 <= k < w.len() ==> (#[trigger] w[k]).0 != ip,
    decreases w.len(),
{
    if w.len() > 0 {
        lemma_count_prepend(w, ip);
        lemma_count_zero(w.drop_first(), ip);
        assert forall|k: int| 0 <= k < w.len() implies (#[trigger] w[k]).0 != ip by {
            if k > 0 {
                assert(w[k] == w.drop_first()[k - 1]);
            }
        }
    }
}

/// Appending an entry adds one to the count of its address and leaves the others.
pub proof fn lemma_count_push(w: Seq<(u128, u64)>, x: (u128, u64), ip: u128)
    ensures
        count_of(w.push(x), ip) == count_of(w, ip) + if x.0 == ip {
            1nat
        } else {
            0nat
        },
{
    let f = from_ip(ip);
    w.lemma_filter_push(x, f);
}

proof fn lemma_count_none(w: Seq<(u128, u64)>, ip: u128)
    requires
        forall|k: int| 0 <= k < w.len() ==> (#[trigger] w[k]).0 != ip,
    ensures
        count_of(w, ip) == 0,
    decreases w.len(),
{
    if w.len() > 0 {
        lemma_count_prepend(w, ip);
        assert forall|k: int| 0 <= k < w.drop_first().len() implies (
        #[trigger] w.drop_first()[k]).0 != ip by {
            assert(w.drop_first()[k] == w[k + 1]);
        }
        lemma_count_none(w.drop_first(), ip);
    }
}

proof fn lemma_trim_suffix(w: Seq<(u128, u64)>, cut: u64)
    ensures
        trim(w, cut).len() <= w.len(),
        trim(w, cut) == w.subrange(w.len() - trim(w, cut).len(), w.len() as int),
        trim(w, cut).len() > 0 ==> trim(w, cut)[0].1 >= cut,
    decreases w.len(),
{
    if w.len() > 0 && w[0].1 < cut {
        lemma_trim_suffix(w.drop_first(), cut);
        assert(trim(w, cut) =~= w.subrange(w.len() - trim(w, cut).len(), w.len() as int));
    } else {
        assert(w =~= w.subrange(0, w.len() as int));
    }
}

/// Trimming keeps every entry of `ip` that is not older than the cutoff.
proof fn lemma_trim_keeps(w: Seq<(u128, u64)>, cut: u64, ip: u128)
    requires
        forall|k: int| 0 <= k < w.len() && (#[trigger] w[k]).0 == ip ==> w[k].1 >= cut,
    ensures
        count_of(trim(w, cut), ip) == count_of(w, ip),
    decreases w.len(),
{
    if w.len() > 0 && w[0].1 < cut {
        lemma_count_prepend(w, ip);
        assert forall|k: int| 0 <= k < w.drop_first().len() && (#[trigger] w.drop_first()[k]).0
            == ip implies w.drop_first()[k].1 >= cut by {
            assert(w.drop_first()[k] == w[k + 1]);
        }
        lemma_trim_keeps(w.drop_first(), cut, ip);
    }
}

/// In a time-ordered window, trimming drops every entry of `ip` older than the cutoff.
proof fn lemma_trim_drops(w: Seq<(u128, u64)>, cut: u64, ip: u128)
    requires
        nondecreasing(w),
        forall|k: int| 0 <= k < w.len() && (#[trigger] w[k]).0 == ip ==> w[k].1 < cut,
    ensures
        count_of(trim(w, cut), ip) == 0,
    decreases w.len(),
{
    if w.len() > 0 && w[0].1 < cut {
        let t = w.drop_first();
        assert forall|i: int, j: int| 0 <= i <= j < t.len() implies (#[trigger] t[i]).1 <= (
        #[trigger] t[j]).1 by {
            assert(w[i + 1].1 <= w[j + 1].1);
        }
        assert forall|k: int| 0 <= k < t.len() && (#[trigger] t[k]).0 == ip implies t[k].1
            < cut by {
            assert(t[k] == w[k + 1]);
        }
        lemma_trim_drops(t, cut, ip);
    } else {
        assert forall|k: int| 0 <= k < w.len() implies (#[trigger] w[k]).0 != ip by {
            if w[k].0 == ip {
                assert(w[0].1 <= w[k].1);
            }
        }
        lemma_count_none(w, ip);
    }
}

/// Requests of one client whose times all lie in `[base, base + WINDOW_MS]`, starting from
/// `c` entries of it in the window, all stamped at or after `base`: the `i`-th is admitted
/// exactly when `c + i` is below the limit.
proof fn lemma_burst(v: LimiterView, ip: u128, times: Seq<u64>, base: u64, c: nat)
    requires
        v.limit > 0,
        c == count_of(v.window, ip),
        forall|k: int| 0 <= k < v.window.len() && (#[trigger] v.window[k]).0 == ip ==> v.window[k].1
            >= base,
        forall|k: int| 0 <= k < times.len() ==> base <= #[trigger] times[k] <= base + WINDOW_MS,
    ensures
        admissions(v, ip, times).1 == Seq::new(times.len(), |i: int| c + i < v.limit),
    decreases times.len(),
{
    if times.len() == 0 {
        assert(admissions(v, ip, times).1 =~= Seq::new(times.len(), |i: int| c + i < v.limit));
    } else {
        let t = times[0];
        let cut = cutoff(t);
        assert(cut <= base);
        lemma_trim_keeps(v.window, cut, ip);
        lemma_trim_suffix(v.window, cut);
        let w = trim(v.window, cut);
        let (v1, ok) = admission(v, ip, t);
        let rest = times.drop_first();
        assert forall|k: int| 0 <= k < rest.len() implies base <= #[trigger] rest[k] <= base
            + WINDOW_MS by {
            assert(rest[k] == times[k + 1]);
        }
        let off = v.window.len() - w.len();
        assert forall|k: int| 0 <= k < w.len() && (#[trigger] w[k]).0 == ip implies w[k].1
            >= base by {
            assert(w[k] == v.window[k + off]);
        }
        if c < v.limit {
            lemma_count_push(w, (ip, t), ip);
            assert(v1.window == w.push((ip, t)));
            assert forall|k: int| 0 <= k < v1.window.len() && (#[trigger] v1.window[k]).0
                == ip implies v1.window[k].1 >= base by {
                if k < w.len() {
                    assert(v1.window[k] == w[k]);
                }
            }
            lemma_burst(v1, ip, rest, base, c + 1);
        } else {
            lemma_burst(v1, ip, rest, base, c);
        }
        assert(admissions(v, ip, times).1 =~= Seq::new(times.len(), |i: int| c + i < v.limit));
    }
}

/// With a limit `L > 0`, a client with no entry in the window that sends `L + 1` requests
/// within one window is admitted exactly `L` times and refused on the last one.
pub proof fn lemma_admission_fairness(v: LimiterView, ip: u128, times: Seq<u64>)
    requires
        v.limit > 0,
        count_of(v.window, ip) == 0,
        times.len() == v.limit + 1,
        forall|k: int| 0 <= k < times.len() ==> times[0] <= #[trigger] times[k] <= times[0] + WINDOW_MS,
    ensures
        admissions(v, ip, times).1 == Seq::new(v.limit as nat, |i: int| true).push(false),
{
    lemma_count_zero(v.window, ip);
    lemma_burst(v, ip, times, times[0], 0);
    assert(admissions(v, ip, times).1 =~= Seq::new(v.limit as nat, |i: int| true).push(false));
}

/// Once every entry of a client is older than the window, its next request is admitted.
pub proof fn lemma_admission_resets(v: LimiterView, ip: u128, now: u64)
    requires
        nondecreasing(v.window),
        forall|k: int|
            0 <= k < v.window.len() && (#[trigger] v.window[k]).0 == ip ==> v.window[k].1
                + WINDOW_MS < now,
    ensures
        admission(v, ip, now).1,
{
    if v.limit > 0 {
        lemma_trim_drops(v.window, cutoff(now), ip);
    }
}

/// With no limit every request is admitted and nothing is recorded.
pub proof fn lemma_unlimited(v: LimiterView, ip: u128, now: u64)
    requires
        v.limit == 0,
    ensures
        admission(v, ip, now) == (v, true),
{
}

/// Sliding-window admission control keyed by client address. An address is its 128-bit
/// IPv6 form, an IPv4 address taken as IPv4-mapped; times are milliseconds on a monotonic
/// clock. `counts` holds, for each address, how many of its entries the window still has.
pub struct RateLimiter {
    limit: usize,
    window: VecDeque<(u128, u64)>,
    counts: HashMap<u128, usize>,
}

/// Count stored for `ip`; an absent key counts zero.
pub open spec fn stored(m: Map<u128, usize>, ip: u128) -> nat {
    if m.contains_key(ip) {
        m[ip] as nat
    } else {
        0
    }
}

impl View for RateLimiter {
    type V = LimiterView;

    closed spec fn view(&self) -> LimiterView {
        LimiterView { limit: self.limit, window: self.window@ }
    }
}

impl RateLimiter {
    pub closed spec fn wf(&self) -> bool {
        &&& nondecreasing(self.window@)
        &&& forall|ip: u128| #[trigger] count_of(self.window@, ip) == stored(self.counts@, ip)
    }

    /// A limiter with the given cap per client per minute; zero means unlimited.
    pub fn new(limit: usize) -> (r: RateLimiter)
        ensures
            r.wf(),
            r@ == (LimiterView { limit, window: Seq::empty() }),
    {
        let r = RateLimiter { limit, window: VecDeque::new(), counts: HashMap::new() };
        assert forall|ip: u128| #[trigger] count_of(r.window@, ip) == stored(r.counts@, ip) by {
            assert(r.window@.filter(from_ip(ip)) =~= Seq::empty()) by {
                reveal(Seq::filter);
            }
        }
        r
    }

    pub fn limit(&self) -> (r: usize)
        ensures
            r == self@.limit,
    {
        self.limit
    }

    /// Time of the newest entry in the window; later calls must not be earlier.
    pub fn latest(&self) -> (r: Option<u64>)
        requires
            self.wf(),
        ensures
            r == if self@.window.len() == 0 {
                None
            } else {
                Some(self@.window.last().1)
            },
    {
        let n = self.window.len();
        if n == 0 {
            None
        } else {
            Some(self.window[n - 1].1)
        }
    }

    /// Number of entries of `ip` still in the window.
    pub fn count(&self, ip: u128) -> (r: usize)
        requires
            self.wf(),
        ensures
            r == count_of(self@.window, ip),
    {
        assert(count_of(self@.window, ip) == stored(self.counts@, ip));
        match self.counts.get(&ip) {
            Some(c) => *c,
            None => 0,
        }
    }

    /// Decides whether a request from `ip` at time `now` (milliseconds on a monotonic clock)
    /// is admitted, recording it when it is.
    pub fn try_admit(&mut self, ip: u128, now: u64) -> (r: bool)
        requires
            old(self).wf(),
            old(self)@.window.len() > 0 ==> old(self)@.window.last().1 <= now,
        ensures
            final(self).wf(),
            (final(self)@, r) == admission(old(self)@, ip, now),
    {
        if self.limit == 0 {
            return true;
        }
        let cut: u64 = if now >= WINDOW_MS {
            now - WINDOW_MS
        } else {
            0
        };
        let ghost w0 = self.window@;
        while self.window.len() > 0 && self.window[0].1 < cut
            invariant
                self.wf(),
                self.limit == old(self).limit,
                self.limit > 0,
                trim(self.window@, cut) == trim(w0, cut),
                w0 == old(self).window@,
                self.window@.len() > 0 ==> self.window@.last().1 <= now,
            decreases self.window@.len(),
        {
            let ghost before = self.window@;
            let front = self.window.pop_front();
            match front {
                Some(entry) => {
                    let key = entry.0;
                    proof {
                        lemma_count_prepend(before, key);
                        assert(self.window@ =~= before.drop_first());
                    }
                    assert(count_of(before, key) == stored(self.counts@, key));
                    let c: usize = match self.counts.get(&key) {
                        Some(c) => *c,
                        None => 0,
                    };
                    self.counts.insert(key, c - 1);
                    proof {
                        let w = self.window@;
                        assert forall|i: int, j: int| 0 <= i <= j < w.len() implies (
                        #[trigger] w[i]).1 <= (#[trigger] w[j]).1 by {
                            assert(before[i + 1].1 <= before[j + 1].1);
                        }
                        assert forall|ip: u128| #[trigger]
                            count_of(self.window@, ip) == stored(self.counts@, ip) by {
                            lemma_count_prepend(before, ip);
                        }
                        if w.len() > 0 {
                            assert(w.last() == before.last());
                        }
                    }
                },
                None => {},
            }
        }
        proof {
            lemma_trim_suffix(w0, cut);
        }
        assert(self.window@ == trim(w0, cut));
        assert(count_of(self.window@, ip) == stored(self.counts@, ip));
        let c: usize = match self.counts.get(&ip) {
            Some(c) => *c,
            None => 0,
        };
        if c >= self.limit {
            return false;
        }
        let ghost before = self.window@;
        self.counts.insert(ip, c + 1);
        self.window.push_back((ip, now));
        proof {
            let w = self.window@;
            assert forall|i: int, j: int| 0 <= i <= j < w.len() implies (#[trigger] w[i]).1 <= (
            #[trigger] w[j]).1 by {
                if j == w.len() - 1 && i < j {
                    assert(before[i].1 <= before.last().1);
                }
            }
            assert forall|k: u128| #[trigger]
                count_of(self.window@, k) == stored(self.counts@, k) by {
                lemma_count_push(before, (ip, now), k);
            }
        }
        true
    }
}

} // verus!
