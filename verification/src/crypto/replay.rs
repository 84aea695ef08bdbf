//! A sliding window of 128 counters that refuses what it has seen.
//!
//! The first counter is accepted and becomes the high-water mark. A newer one
//! moves the mark; an older one is accepted once, as long as it is fewer than
//! 128 behind the mark. Beside that the window keeps the totals from which the
//! share of lost frames is estimated: a jump of the mark charges the counters
//! it skipped, and a late counter that fills a hole takes one charge back.

use vstd::prelude::*;

verus! {

/// Width of the window.
pub const WINDOW_BITS: u32 = 128;

/// What a window knows: its high-water mark, the counters inside the window
/// that were accepted, and the two totals.
pub ghost struct WindowView {
    pub highest: Option<u64>,
    pub marked: Set<u64>,
    pub seen: u64,
    pub lost: u64,
}

impl WindowView {
    /// A window before its first counter.
    pub open spec fn fresh() -> WindowView {
        WindowView { highest: None, marked: Set::empty(), seen: 0, lost: 0 }
    }

    /// Whether a frame that carries `seq` is let through.
    pub open spec fn accepts(self, seq: u64) -> bool {
        match self.highest {
            None => true,
            Some(high) => seq > high || (high - seq < WINDOW_BITS && !self.marked.contains(seq)),
        }
    }

    /// The high-water mark after `seq` was let through.
    pub open spec fn mark_after(self, seq: u64) -> u64 {
        match self.highest {
            None => seq,
            Some(high) => if seq > high { seq } else { high },
        }
    }

    /// The estimate of lost frames after `seq` was let through: the skipped
    /// counters are charged, a filled hole is refunded.
    pub open spec fn lost_after(self, seq: u64) -> u64 {
        match self.highest {
            None => self.lost,
            Some(high) => if seq > high {
                if self.lost + (seq - high - 1) > u64::MAX {
                    u64::MAX
                } else {
                    (self.lost + (seq - high - 1)) as u64
                }
            } else if self.lost == 0 {
                0
            } else {
                (self.lost - 1) as u64
            },
        }
    }

    /// The window after it was shown `seq`.
    pub open spec fn step(self, seq: u64) -> WindowView {
        if self.accepts(seq) {
            let high = self.mark_after(seq);
            WindowView {
                highest: Some(high),
                marked: Set::new(
                    |s: u64|
                        s == seq || (self.marked.contains(s) && high - s < WINDOW_BITS),
                ),
                seen: (self.seen + 1) as u64,
                lost: self.lost_after(seq),
            }
        } else {
            self
        }
    }

    /// The window after it was shown all of `seqs`, in order.
    pub open spec fn run(self, seqs: Seq<u64>) -> WindowView
        decreases seqs.len(),
    {
        if seqs.len() == 0 {
            self
        } else {
            self.run(seqs.drop_last()).step(seqs.last())
        }
    }

    /// What holds of every window that counters were shown to: the marks lie
    /// inside the window, and the high-water mark is one of them.
    pub open spec fn valid(self) -> bool {
        match self.highest {
            None => self.marked =~= Set::empty(),
            Some(high) => {
                &&& self.marked.contains(high)
                &&& forall|s: u64| #[trigger]
                    self.marked.contains(s) ==> s <= high && high - s < WINDOW_BITS
            },
        }
    }
}

/// Every window that can be reached keeps its marks inside the window.
pub proof fn lemma_step_valid(w: WindowView, seq: u64)
    requires
        w.valid(),
    ensures
        w.step(seq).valid(),
{
}

/// A counter that was let through, or refused, is refused from then on,
/// whatever other counters come in between.
pub proof fn lemma_never_accepted_twice(w: WindowView, seq: u64, later: Seq<u64>)
    requires
        w.valid(),
    ensures
        !w.step(seq).run(later).accepts(seq),
        w.step(seq).run(later).valid(),
    decreases later.len(),
{
    lemma_step_valid(w, seq);
    if later.len() > 0 {
        lemma_never_accepted_twice(w, seq, later.drop_last());
        lemma_step_valid(w.step(seq).run(later.drop_last()), later.last());
    }
}

/// The high-water mark never moves back.
pub proof fn lemma_mark_is_monotone(w: WindowView, seq: u64)
    requires
        w.highest is Some,
    ensures
        w.step(seq).highest is Some,
        w.step(seq).highest->0 >= w.highest->0,
{
}

/// Which counters a run from a fresh window has let through.
pub open spec fn accepted(seqs: Seq<u64>) -> Set<u64>
    decreases seqs.len(),
{
    if seqs.len() == 0 {
        Set::empty()
    } else {
        let before = WindowView::fresh().run(seqs.drop_last());
        let rest = accepted(seqs.drop_last());
        if before.accepts(seqs.last()) {
            rest.insert(seqs.last())
        } else {
            rest
        }
    }
}

/// What a window lets through, told by what it has let through so far: any counter
/// at first, then one above all of them, or one that is fewer than 128 below the
/// highest of them and not among them.
pub proof fn lemma_accepts_what_is_new(seqs: Seq<u64>, seq: u64)
    ensures
        ({
            let w = WindowView::fresh().run(seqs);
            match w.highest {
                None => accepted(seqs) == Set::<u64>::empty() && w.accepts(seq),
                Some(high) => {
                    &&& accepted(seqs).contains(high)
                    &&& forall|s: u64| #[trigger] accepted(seqs).contains(s) ==> s <= high
                    &&& w.accepts(seq) == (seq > high || (high - seq < WINDOW_BITS && !accepted(
                        seqs,
                    ).contains(seq)))
                },
            }
        }),
{
    lemma_marks_are_accepted(seqs);
}

proof fn lemma_marks_are_accepted(seqs: Seq<u64>)
    ensures
        ({
            let w = WindowView::fresh().run(seqs);
            match w.highest {
                None => accepted(seqs) == Set::<u64>::empty() && w.marked == Set::<u64>::empty(),
                Some(high) => {
                    &&& accepted(seqs).contains(high)
                    &&& forall|s: u64| #[trigger] accepted(seqs).contains(s) ==> s <= high
                    &&& forall|s: u64|
                        #![trigger accepted(seqs).contains(s)]
                        #![trigger w.marked.contains(s)]
                        high - s < WINDOW_BITS ==> w.marked.contains(s) == accepted(seqs).contains(s)
                },
            }
        }),
    decreases seqs.len(),
{
    if seqs.len() > 0 {
        lemma_marks_are_accepted(seqs.drop_last());
    }
}

/// The counters from `first` up to `high`.
spec fn span(first: u64, high: u64) -> Set<u64> {
    Set::new(|s: u64| first <= s <= high)
}

proof fn lemma_span_len(first: u64, high: u64)
    requires
        first <= high,
    ensures
        span(first, high).finite(),
        span(first, high).len() == high - first + 1,
    decreases high - first,
{
    if first == high {
        assert(span(first, high) =~= Set::empty().insert(first));
    } else {
        let below = (high - 1) as u64;
        lemma_span_len(first, below);
        assert(span(first, high) =~= span(first, below).insert(high));
    }
}

/// Received and lost frames together account for every counter from the first
/// one to the high-water mark, as long as nothing older than the first frame
/// was let through.
pub proof fn lemma_totals_account_for_every_counter(seqs: Seq<u64>)
    requires
        seqs.len() > 0,
        forall|i: int| 0 <= i < seqs.len() ==> seqs[0] <= #[trigger] seqs[i],
        seqs.len() < u64::MAX,
    ensures
        WindowView::fresh().run(seqs).highest is Some,
        WindowView::fresh().run(seqs).highest->0 >= seqs[0],
        accepted(seqs).finite(),
        WindowView::fresh().run(seqs).seen == accepted(seqs).len(),
        WindowView::fresh().run(seqs).seen + WindowView::fresh().run(seqs).lost
            == WindowView::fresh().run(seqs).highest->0 - seqs[0] + 1,
    decreases seqs.len(),
{
    lemma_totals(seqs);
}

proof fn lemma_totals(seqs: Seq<u64>)
    requires
        seqs.len() > 0,
        forall|i: int| 0 <= i < seqs.len() ==> seqs[0] <= #[trigger] seqs[i],
        seqs.len() < u64::MAX,
    ensures
        ({
            let w = WindowView::fresh().run(seqs);
            &&& w.valid()
            &&& w.highest is Some
            &&& w.highest->0 >= seqs[0]
            &&& accepted(seqs).finite()
            &&& accepted(seqs).subset_of(span(seqs[0], w.highest->0))
            &&& forall|s: u64| #![trigger accepted(seqs).contains(s)]
                w.highest->0 - s < WINDOW_BITS ==> w.marked.contains(s) == accepted(
                    seqs,
                ).contains(s)
            &&& w.seen == accepted(seqs).len()
            &&& accepted(seqs).len() <= seqs.len()
            &&& w.seen + w.lost == w.highest->0 - seqs[0] + 1
        }),
    decreases seqs.len(),
{
    let before_seqs = seqs.drop_last();
    let w0 = WindowView::fresh().run(before_seqs);
    let seq = seqs.last();
    let w = WindowView::fresh().run(seqs);
    assert(w == w0.step(seq));
    if seqs.len() == 1 {
        assert(before_seqs =~= Seq::empty());
        assert(w0 == WindowView::fresh());
        assert(accepted(before_seqs) == Set::<u64>::empty());
    } else {
        assert(before_seqs[0] == seqs[0]);
        assert forall|i: int| 0 <= i < before_seqs.len() implies before_seqs[0]
            <= #[trigger] before_seqs[i] by {
            assert(before_seqs[i] == seqs[i]);
        }
        lemma_totals(before_seqs);
        let first = seqs[0];
        let high = w0.highest->0;
        if w0.accepts(seq) {
            assert(seq >= first);
            assert(!accepted(before_seqs).contains(seq));
            lemma_span_len(first, high);
            if seq <= high {
                // The span holds `seq`, which was not accepted before, so a hole was left.
                vstd::set_lib::lemma_len_subset(accepted(before_seqs).insert(seq), span(first, high));
            }
        }
    }
}

spec fn bit(map: u128, i: u64) -> bool {
    (map >> i) & 1u128 == 1u128
}

proof fn lemma_single_bit(i: u64)
    requires
        i < 128,
    ensures
        bit(1u128, i) == (i == 0),
{
    assert((1u128 >> i) & 1u128 == 1u128 <==> i == 0) by (bit_vector)
        requires
            i < 128u64,
    ;
}

proof fn lemma_shifted_bit(map: u128, d: u64, i: u64)
    requires
        0 < d < 128,
        i < 128,
    ensures
        bit((map << d) | 1u128, i) == (i == 0 || (i >= d && bit(map, (i - d) as u64))),
{
    if i >= d {
        let j = (i - d) as u64;
        assert((((map << d) | 1u128) >> i) & 1u128 == 1u128 <==> (i == 0 || (map >> j) & 1u128
            == 1u128)) by (bit_vector)
            requires
                0 < d < 128u64,
                i < 128u64,
                i == j + d,
        ;
    } else {
        assert((((map << d) | 1u128) >> i) & 1u128 == 1u128 <==> i == 0) by (bit_vector)
            requires
                0 < d < 128u64,
                i < d,
        ;
    }
}

proof fn lemma_set_bit(map: u128, i: u64, j: u64)
    requires
        i < 128,
        j < 128,
    ensures
        bit(map | (1u128 << i), j) == (i == j || bit(map, j)),
{
    assert(((map | (1u128 << i)) >> j) & 1u128 == 1u128 <==> (i == j || (map >> j) & 1u128
        == 1u128)) by (bit_vector)
        requires
            i < 128u64,
            j < 128u64,
    ;
}

/// The window itself: bit `i` of the map stands for the counter `i` below the
/// high-water mark.
#[derive(Debug)]
pub struct ReplayWindow {
    bitmap: u128,
    highest: u64,
    initialized: bool,
    seen_total: u64,
    lost_total: u64,
}

impl View for ReplayWindow {
    type V = WindowView;

    closed spec fn view(&self) -> WindowView {
        WindowView {
            highest: if self.initialized {
                Some(self.highest)
            } else {
                None
            },
            marked: Set::new(
                |s: u64|
                    self.initialized && s <= self.highest && self.highest - s < WINDOW_BITS && bit(
                        self.bitmap,
                        (self.highest - s) as u64,
                    ),
            ),
            seen: self.seen_total,
            lost: self.lost_total,
        }
    }
}

impl Default for ReplayWindow {
    fn default() -> (window: Self)
        ensures
            window@ == WindowView::fresh(),
    {
        ReplayWindow::new()
    }
}

impl ReplayWindow {
    /// A window that has seen nothing.
    pub fn new() -> (window: Self)
        ensures
            window@ == WindowView::fresh(),
    {
        let window = ReplayWindow {
            bitmap: 0,
            highest: 0,
            initialized: false,
            seen_total: 0,
            lost_total: 0,
        };
        assert(window@.marked =~= Set::empty());
        window
    }

    /// Forgets everything.
    pub fn reset(&mut self)
        ensures
            final(self)@ == WindowView::fresh(),
    {
        self.bitmap = 0;
        self.highest = 0;
        self.initialized = false;
        self.seen_total = 0;
        self.lost_total = 0;
        assert(self@.marked =~= Set::empty());
    }

    /// Frames received, and frames lost for good as far as can be told.
    pub fn stats(&self) -> (totals: (u64, u64))
        ensures
            totals == (self@.seen, self@.lost),
    {
        (self.seen_total, self.lost_total)
    }

    /// Lets `seq` through if it is new, and remembers it.
    pub fn check_and_set(&mut self, seq: u64) -> (accepted: bool)
        requires
            old(self)@.seen < u64::MAX,
        ensures
            accepted == old(self)@.accepts(seq),
            final(self)@ == old(self)@.step(seq),
    {
        let ghost before = self@;
        if !self.initialized {
            self.initialized = true;
            self.highest = seq;
            self.bitmap = 1;
            self.seen_total += 1;
            proof {
                assert forall|s: u64| #[trigger]
                    self@.marked.contains(s) == before.step(seq).marked.contains(s) by {
                    if s <= seq && seq - s < WINDOW_BITS {
                        lemma_single_bit((seq - s) as u64);
                    }
                }
                assert(self@.marked =~= before.step(seq).marked);
            }
            return true;
        }
        if seq > self.highest {
            let delta: u64 = seq - self.highest;
            let ghost map = self.bitmap;
            let ghost high = self.highest;
            self.lost_total = self.lost_total.saturating_add(delta - 1);
            if delta >= WINDOW_BITS as u64 {
                self.bitmap = 1;
            } else {
                self.bitmap = (self.bitmap << delta) | 1;
            }
            self.highest = seq;
            self.seen_total += 1;
            proof {
                assert forall|s: u64| #[trigger]
                    self@.marked.contains(s) == before.step(seq).marked.contains(s) by {
                    if s <= seq && seq - s < WINDOW_BITS {
                        let i = (seq - s) as u64;
                        if delta >= WINDOW_BITS {
                            lemma_single_bit(i);
                        } else {
                            lemma_shifted_bit(map, delta, i);
                            if i >= delta {
                                assert((i - delta) as u64 == (high - s) as u64);
                            }
                        }
                    }
                }
                assert(self@.marked =~= before.step(seq).marked);
            }
            return true;
        }
        let offset: u64 = self.highest - seq;
        if offset >= WINDOW_BITS as u64 {
            return false;
        }
        let ghost map = self.bitmap;
        let bit: u128 = 1u128 << offset;
        proof {
            assert((map & (1u128 << offset)) != 0 <==> (map >> offset) & 1u128 == 1u128)
                by (bit_vector)
                requires
                    offset < 128u64,
            ;
        }
        if self.bitmap & bit != 0 {
            return false;
        }
        self.bitmap = self.bitmap | bit;
        self.lost_total = self.lost_total.saturating_sub(1);
        self.seen_total += 1;
        proof {
            assert forall|s: u64| #[trigger]
                self@.marked.contains(s) == before.step(seq).marked.contains(s) by {
                if s <= self.highest && self.highest - s < WINDOW_BITS {
                    lemma_set_bit(map, offset, (self.highest - s) as u64);
                }
            }
            assert(self@.marked =~= before.step(seq).marked);
        }
        true
    }
}

/// The window is 128 counters wide: one that is 128 or more behind is refused, one that
/// is less far behind is let through once, and one that is ahead is always let through.
pub proof fn lemma_how_far_back(w: WindowView, high: u64, seq: u64)
    requires
        w.highest == Some(high),
    ensures
        seq > high ==> w.accepts(seq),
        high - seq >= 128 ==> !w.accepts(seq),
        0 <= high - seq < 128 ==> w.accepts(seq) == !w.marked.contains(seq),
        WindowView::fresh().accepts(seq),
{
}

/// What a counter changes. One that is refused changes nothing. One that is let through
/// counts as seen; those it skips count as lost, and a late one takes one back.
pub proof fn lemma_losses_are_charged(w: WindowView, high: u64, seq: u64)
    requires
        w.highest == Some(high),
        w.seen < u64::MAX,
    ensures
        !w.accepts(seq) ==> w.step(seq) == w,
        w.accepts(seq) ==> w.step(seq).seen == w.seen + 1,
        seq > high ==> w.step(seq).highest == Some(seq),
        seq <= high ==> w.step(seq).highest == Some(high),
        seq > high && w.lost + (seq - high - 1) <= u64::MAX ==> w.step(seq).lost == w.lost + (seq - high - 1),
        seq <= high && w.accepts(seq) && w.lost > 0 ==> w.step(seq).lost == w.lost - 1,
        w.accepts(seq) ==> w.step(seq).marked.contains(seq),
{
}

/// What was let through stays known for as long as it is in the window.
pub proof fn lemma_marks_are_kept(w: WindowView, seq: u64, other: u64)
    requires
        w.valid(),
        w.marked.contains(other),
        w.step(seq).highest matches Some(high) && high - other < 128,
    ensures
        w.step(seq).marked.contains(other),
        !w.step(seq).accepts(other),
{
}

} // verus!
