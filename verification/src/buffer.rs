use vstd::prelude::*;
use vstd::arithmetic::div_mod::lemma_add_mod_noop_right;
use vstd::arithmetic::div_mod::lemma_fundamental_div_mod;
use vstd::arithmetic::div_mod::lemma_mod_bound;
use vstd::arithmetic::div_mod::lemma_mod_multiples_vanish;
use vstd::arithmetic::div_mod::lemma_mod_self_0;
use vstd::arithmetic::div_mod::lemma_mod_sub_multiples_vanish;
use vstd::arithmetic::div_mod::lemma_small_mod;
use vstd::pervasive::VecAdditionalExecFns;

verus! {

/// Abstract state of a [`StatWindow`]: the fixed capacity, the complete
/// sequence of samples pushed so far, and the two accumulator words the
/// window stores on behalf of the numeric layer.
pub ghost struct WindowModel {
    /// Number of slots in the ring buffer; fixed at construction, at least 2.
    pub capacity: int,
    /// Every sample ever pushed, in push order.
    pub history: Seq<u64>,
    /// Stored running-mean word, exactly as the numeric layer last wrote it.
    pub mean: u64,
    /// Stored sum-of-squared-deviations word, as the numeric layer wrote it.
    pub var_sum: u64,
}

/// The numeric update that one push calls for. The window itself never
/// interprets sample words; it hands the numeric layer the exact operands
/// of the phase formula it must apply.
#[derive(Clone, Copy, PartialEq, Eq, Structural, Debug)]
pub enum PhaseUpdate {
    /// Very first sample: the mean becomes the sample itself and the sum of
    /// squared deviations becomes zero; a one-element window has no spread.
    FirstValue { value: u64 },
    /// Growing phase with at least two samples: Welford's recurrence over
    /// the prior accumulators, the new sample, and the new element count.
    Growing { prior_mean: u64, prior_var_sum: u64, value: u64, count: usize },
    /// Sliding phase: the window is full, `ejected` (the oldest window
    /// sample) leaves as `value` enters, and the element count stays at the
    /// capacity.
    Sliding { prior_mean: u64, prior_var_sum: u64, value: u64, ejected: u64, count: usize },
}

/// Fixed-capacity ring buffer for computing second-order statistics
/// efficiently over a sliding window.
pub struct StatWindow {
    values: Vec<u64>,
    idx: usize,
    count: usize,
    mean: u64,
    var_sum: u64,
    history: Ghost<Seq<u64>>,
}

impl View for StatWindow {
    type V = WindowModel;

    closed spec fn view(&self) -> WindowModel {
        WindowModel {
            capacity: self.values@.len() as int,
            history: self.history@,
            mean: self.mean,
            var_sum: self.var_sum,
        }
    }
}

impl StatWindow {
    /// Number of samples currently inside the logical window: the push
    /// count, saturating at the capacity.
    pub open spec fn filled(self) -> int {
        if self@.history.len() <= self@.capacity {
            self@.history.len() as int
        } else {
            self@.capacity
        }
    }

    /// The logical window contents, oldest first: exactly the last
    /// `min(push count, capacity)` samples pushed.
    pub open spec fn window(self) -> Seq<u64> {
        self@.history.subrange(self@.history.len() - self.filled(), self@.history.len() as int)
    }

    /// Internal consistency of the ring buffer: the capacity is at least 2,
    /// the saturating count and the cursor agree with the push history, the
    /// slots hold the logical window at the expected ring positions, and
    /// slots never yet written still hold their zero placeholder.
    pub closed spec fn well_formed(self) -> bool {
        let n = self.history@.len() as int;
        let cap = self.values@.len() as int;
        &&& cap >= 2
        &&& self.count as int == self.filled()
        &&& self.idx as int == n % cap
        &&& forall|k: int|
            n - self.filled() <= k < n ==> self.values@[k % cap] == #[trigger] self.history@[k]
        &&& forall|s: int| n <= s < cap ==> self.values@[s] == 0
    }

    /// Create an empty window with the given fixed capacity.
    ///
    /// Fails exactly when `window_size` is below 2: a window of fewer than
    /// two elements has no sample variance. On success every slot holds the
    /// zero placeholder, nothing has been pushed, and both accumulator
    /// words are zero.
    pub fn new(window_size: usize) -> (result: Option<StatWindow>)
        ensures
            window_size < 2 ==> result is None,
            window_size >= 2 ==> (result matches Some(w)
                && w.well_formed()
                && w@.capacity == window_size as int
                && w@.history == Seq::<u64>::empty()
                && w@.mean == 0
                && w@.var_sum == 0),
    {
        if window_size < 2 {
            return None;
        }

        let mut values: Vec<u64> = Vec::new();
        while values.len() < window_size
            invariant
                values@.len() <= window_size,
                forall|s: int| 0 <= s < values@.len() ==> values@[s] == 0,
            decreases window_size - values@.len(),
        {
            values.push(0);
        }

        let w = StatWindow {
            values,
            idx: 0,
            count: 0,
            mean: 0,
            var_sum: 0,
            history: Ghost(Seq::empty()),
        };
        proof {
            lemma_small_mod(0nat, window_size as nat);
        }
        Some(w)
    }

    /// The update that pushing `value` next will request from the numeric
    /// layer, as a function of the abstract state alone: the very first
    /// sample resets the accumulators, further samples below capacity grow
    /// the window under Welford's recurrence, and a full window slides,
    /// ejecting its oldest sample.
    pub open spec fn next_update(self, value: u64) -> PhaseUpdate {
        if self@.history.len() == 0 {
            PhaseUpdate::FirstValue { value }
        } else if self@.history.len() < self@.capacity {
            PhaseUpdate::Growing {
                prior_mean: self@.mean,
                prior_var_sum: self@.var_sum,
                value,
                count: (self@.history.len() + 1) as usize,
            }
        } else {
            PhaseUpdate::Sliding {
                prior_mean: self@.mean,
                prior_var_sum: self@.var_sum,
                value,
                ejected: self.window()[0],
                count: self@.capacity as usize,
            }
        }
    }

    /// Add one sample word to the buffer.
    ///
    /// The sample enters the slot under the cursor, evicting whatever the
    /// slot held, and the cursor advances circularly. The returned step is
    /// exactly `next_update`: in particular, once the window is full, the
    /// ejected operand is the oldest sample of the logical window. The
    /// stored accumulator words are untouched; the numeric layer writes
    /// them back through [`Self::store_stats`] once it has applied the step.
    pub fn push(&mut self, value: u64) -> (step: PhaseUpdate)
        requires
            old(self).well_formed(),
        ensures
            final(self).well_formed(),
            final(self)@.capacity == old(self)@.capacity,
            final(self)@.history == old(self)@.history.push(value),
            final(self)@.mean == old(self)@.mean,
            final(self)@.var_sum == old(self)@.var_sum,
            step == old(self).next_update(value),
    {
        let ghost prior = *old(self);
        proof {
            lemma_mod_bound(prior.history@.len() as int, prior.values@.len() as int);
        }

        // store new value in the cursor slot, remembering what it evicts
        let ejected = self.values[self.idx];
        self.values.set(self.idx, value);
        self.move_idx();
        self.history = Ghost(self.history@.push(value));

        // phase dispatch: grow while the buffer still has unused slots
        let step: PhaseUpdate;
        if self.count < self.values.len() {
            self.count = self.count + 1;
            if self.count == 1 {
                step = PhaseUpdate::FirstValue { value };
            } else {
                step = PhaseUpdate::Growing {
                    prior_mean: self.mean,
                    prior_var_sum: self.var_sum,
                    value,
                    count: self.count,
                };
            }
        } else {
            step = PhaseUpdate::Sliding {
                prior_mean: self.mean,
                prior_var_sum: self.var_sum,
                value,
                ejected,
                count: self.count,
            };
        }

        proof {
            let n: int = prior.history@.len() as int;
            let cap: int = prior.values@.len() as int;

            // the advanced cursor matches the longer history
            lemma_add_mod_noop_right(1, n, cap);

            // the slots still hold the logical window of the longer history
            assert forall|k: int|
                (n + 1) - self.filled() <= k < n + 1 implies self.values@[k % cap]
                == #[trigger] self.history@[k] by {
                lemma_mod_bound(k, cap);
                if k == n {
                    assert(self.values@[k % cap] == value);
                } else {
                    lemma_ring_slots_distinct(k, n, cap);
                    assert(self.values@[k % cap] == prior.values@[k % cap]);
                    assert(prior.values@[k % cap] == prior.history@[k]);
                }
            }

            // slots past the history are still zero placeholders
            if n + 1 < cap {
                lemma_small_mod(n as nat, cap as nat);
            }

            // in the sliding phase the evicted slot held the oldest window sample
            if n >= cap {
                lemma_mod_sub_multiples_vanish(n, cap);
                assert(prior.values@[(n - cap) % cap] == prior.history@[n - cap]);
                assert(ejected == prior.window()[0]);
            }
        }
        step
    }

    /// Persist the accumulator words the numeric layer computed for the
    /// step returned by the last [`Self::push`]. Nothing else changes.
    pub fn store_stats(&mut self, mean: u64, var_sum: u64)
        requires
            old(self).well_formed(),
        ensures
            final(self).well_formed(),
            final(self)@ == (WindowModel { mean, var_sum, ..old(self)@ }),
    {
        self.mean = mean;
        self.var_sum = var_sum;
    }

    /// Read the logical window out of the ring, oldest sample first.
    ///
    /// The result is exactly the last `min(push count, capacity)` samples
    /// pushed, in push order.
    pub fn window_values(&self) -> (result: Vec<u64>)
        requires
            self.well_formed(),
        ensures
            result@ == self.window(),
    {
        let ghost n: int = self.history@.len() as int;
        let ghost cap_int: int = self.values@.len() as int;
        let cap = self.values.len();

        // ring position of the oldest window sample
        let mut slot: usize = if self.count <= self.idx {
            self.idx - self.count
        } else {
            self.idx + (cap - self.count)
        };
        proof {
            lemma_mod_bound(n, cap_int);
            lemma_fundamental_div_mod(n, cap_int);
            if self.count <= self.idx {
                let b: int = n % cap_int - self.count;
                assert(n - self.count == cap_int * (n / cap_int) + b);
                lemma_mod_multiples_vanish(n / cap_int, b, cap_int);
                lemma_small_mod(b as nat, cap_int as nat);
                assert(slot as int == (n - self.count) % cap_int);
            } else {
                let b: int = n % cap_int + cap_int - self.count;
                assert(n - self.count == cap_int * (n / cap_int - 1) + b) by (nonlinear_arith)
                    requires
                        n == cap_int * (n / cap_int) + n % cap_int,
                        b == n % cap_int + cap_int - self.count,
                ;
                lemma_mod_multiples_vanish(n / cap_int - 1, b, cap_int);
                lemma_small_mod(b as nat, cap_int as nat);
                assert(slot as int == (n - self.count) % cap_int);
            }
        }

        let mut result: Vec<u64> = Vec::new();
        let mut j: usize = 0;
        while j < self.count
            invariant
                self.well_formed(),
                j <= self.count,
                cap == self.values@.len(),
                cap_int == cap as int,
                n == self.history@.len() as int,
                slot < cap,
                slot as int == (n - self.count + j) % cap_int,
                result@ == self.window().take(j as int),
            decreases self.count - j,
        {
            let ghost k: int = n - self.count + j;
            proof {
                assert(self.values@[k % cap_int] == self.history@[k]);
                assert(self.window()[j as int] == self.history@[k]);
            }
            result.push(self.values[slot]);
            proof {
                assert(result@ =~= self.window().take(j as int + 1));
                lemma_add_mod_noop_right(1, k, cap_int);
                if slot + 1 == cap {
                    lemma_mod_self_0(cap_int);
                } else {
                    lemma_small_mod((slot + 1) as nat, cap_int as nat);
                }
            }
            slot = slot + 1;
            if slot == cap {
                slot = 0;
            }
            j = j + 1;
        }
        proof {
            assert(self.window().take(self.count as int) =~= self.window());
        }
        result
    }

    fn move_idx(&mut self)
        requires
            old(self).idx < old(self).values@.len(),
        ensures
            final(self).idx as int == (old(self).idx + 1) % (old(self).values@.len() as int),
            final(self).values == old(self).values,
            final(self).count == old(self).count,
            final(self).mean == old(self).mean,
            final(self).var_sum == old(self).var_sum,
            final(self).history == old(self).history,
    {
        let len = self.values.len();
        let new_idx = (self.idx + 1) % len;
        self.idx = new_idx;
    }
}

/// The first push into a fresh window, at any capacity, requests the
/// first-sample reset: the mean becomes the sample itself and the spread
/// becomes zero, regardless of the stored accumulator words.
pub proof fn lemma_first_push_resets(w: StatWindow, value: u64)
    requires
        w@.history.len() == 0,
    ensures
        w.next_update(value) == (PhaseUpdate::FirstValue { value }),
{
}

/// While the window is still growing — no more samples pushed than the
/// capacity — the logical window is the whole push history: statistics are
/// over every value seen so far.
pub proof fn lemma_growing_window_is_whole_history(w: StatWindow)
    requires
        w@.history.len() <= w@.capacity,
    ensures
        w.window() == w@.history,
{
    assert(w.window() =~= w@.history);
}

/// Once at least `capacity` samples have been pushed, the logical window
/// is exactly the last `capacity` samples — never the full history.
pub proof fn lemma_sliding_window_is_last_capacity(w: StatWindow)
    requires
        w@.capacity <= w@.history.len(),
    ensures
        w.window() == w@.history.subrange(
            w@.history.len() - w@.capacity,
            w@.history.len() as int,
        ),
        w.window().len() == w@.capacity,
{
}

/// A constant stream keeps the window constant: when every sample pushed
/// so far equals `v`, every sample of the logical window equals `v`.
pub proof fn lemma_constant_history_gives_constant_window(w: StatWindow, v: u64)
    requires
        forall|i: int| 0 <= i < w@.history.len() ==> w@.history[i] == v,
    ensures
        forall|i: int| 0 <= i < w.window().len() ==> w.window()[i] == v,
{
}

/// How one push evolves the logical window: the new sample is appended,
/// and exactly when the window was already full, the oldest sample leaves.
pub proof fn lemma_window_evolution(pre: StatWindow, post: StatWindow, value: u64)
    requires
        2 <= pre@.capacity,
        post@.capacity == pre@.capacity,
        post@.history == pre@.history.push(value),
    ensures
        pre@.history.len() < pre@.capacity ==> post.window() == pre.window().push(value),
        pre@.capacity <= pre@.history.len() ==> post.window() == pre.window().drop_first().push(
            value,
        ),
{
    if pre@.history.len() < pre@.capacity {
        assert(post.window() =~= pre.window().push(value));
    } else {
        assert(post.window() =~= pre.window().drop_first().push(value));
    }
}

/// Two history positions less than one full capacity apart never share a
/// ring slot.
proof fn lemma_ring_slots_distinct(j: int, n: int, cap: int)
    requires
        cap >= 1,
        n - cap < j < n,
    ensures
        j % cap != n % cap,
{
    lemma_fundamental_div_mod(j, cap);
    lemma_fundamental_div_mod(n, cap);
    lemma_mod_bound(j, cap);
    lemma_mod_bound(n, cap);
    if j % cap == n % cap {
        let dj: int = j / cap;
        let dn: int = n / cap;
        assert(false) by (nonlinear_arith)
            requires
                j == cap * dj + j % cap,
                n == cap * dn + n % cap,
                j % cap == n % cap,
                n - cap < j < n,
                cap >= 1,
        ;
    }
}

} // verus!
