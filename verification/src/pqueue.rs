use std::collections::VecDeque;
use vstd::prelude::*;

use crate::bits::{bit, lemma_bit_and_not_single, lemma_bit_or_single, lemma_bit_zero, lemma_lowest_bit};

verus! {

pub const NUM_BUCKETS: usize = 4096;

pub const NUM_WORDS: usize = 64;

/// The lowest priority with a nonempty bucket.
pub open spec fn min_priority<T>(q: Seq<Seq<T>>, p: int) -> bool {
    &&& 0 <= p < q.len()
    &&& q[p].len() > 0
    &&& forall|j: int| 0 <= j < p ==> #[trigger] q[j].len() == 0
}

/// Every bucket of the queue is empty.
pub open spec fn all_empty<T>(q: Seq<Seq<T>>) -> bool {
    forall|j: int| 0 <= j < q.len() ==> #[trigger] q[j].len() == 0
}

/// An item pushed onto an empty queue is the next to leave: its priority is
/// the lowest nonempty one, and it heads that priority's line.
pub proof fn lemma_push_then_pop<T>(q: Seq<Seq<T>>, p: int, item: T)
    requires
        all_empty(q),
        0 <= p < q.len(),
    ensures
        min_priority(q.update(p, q[p].push(item)), p),
        q.update(p, q[p].push(item))[p][0] == item,
{
    let q1 = q.update(p, q[p].push(item));
    assert(q[p].len() == 0);
    assert(q1[p] == seq![item]);
    assert forall|j: int| 0 <= j < p implies #[trigger] q1[j].len() == 0 by {
        assert(q1[j] == q[j]);
    }
}

/// A bucketed priority queue which supports O(1) pop-min.
/// Priority values must lie within the range 0..4096.
pub struct PriorityQueue<T> {
    buckets: Vec<VecDeque<T>>,
    bitmap: [u64; 64],
    summary: u64,
}

impl<T> PriorityQueue<T> {
    /// The items of each priority, in the order in which they were pushed.
    pub closed spec fn queue(&self) -> Seq<Seq<T>> {
        Seq::new(4096, |p: int| self.buckets@[p]@)
    }

    /// The bitmap has a bit per nonempty bucket, and the summary a bit per
    /// nonzero bitmap word.
    pub closed spec fn wf(&self) -> bool {
        &&& self.buckets@.len() == 4096
        &&& forall|p: int|
            0 <= p < 4096 ==> (bit(self.bitmap@[p / 64], (p % 64) as u64) <==> #[trigger] self.buckets@[p]@.len() > 0)
        &&& forall|w: int| 0 <= w < 64 ==> (bit(self.summary, w as u64) <==> #[trigger] self.bitmap@[w] != 0)
    }

    pub fn new() -> (r: Self)
        ensures
            r.wf(),
            r.queue().len() == 4096,
            all_empty(r.queue()),
    {
        let mut buckets: Vec<VecDeque<T>> = Vec::new();
        let mut i: usize = 0;
        while i < NUM_BUCKETS
            invariant
                i <= 4096,
                buckets@.len() == i,
                forall|j: int| 0 <= j < i ==> (#[trigger] buckets@[j])@.len() == 0,
            decreases 4096 - i,
        {
            buckets.push(VecDeque::new());
            i = i + 1;
        }
        let r = Self { buckets, bitmap: [0u64; 64], summary: 0 };
        proof {
            assert forall|p: int| 0 <= p < 4096 implies (bit(r.bitmap@[p / 64], (p % 64) as u64) <==> #[trigger] r.buckets@[p]@.len() > 0) by {
                lemma_bit_zero((p % 64) as u64);
            }
            assert forall|w: int| 0 <= w < 64 implies (bit(r.summary, w as u64) <==> #[trigger] r.bitmap@[w] != 0) by {
                lemma_bit_zero(w as u64);
            }
        }
        r
    }

    /// Adds an item at a priority; it leaves after the items already there.
    pub fn push(&mut self, priority: usize, item: T)
        requires
            old(self).wf(),
            priority < 4096,
        ensures
            final(self).wf(),
            final(self).queue() == old(self).queue().update(
                priority as int,
                old(self).queue()[priority as int].push(item),
            ),
    {
        let ghost q0 = self.queue();
        self.buckets[priority].push_back(item);
        // Update bitmap
        let word_idx = priority / 64;
        let bit_idx = priority % 64;
        let ghost old_word = self.bitmap@[word_idx as int];
        let ghost old_summary = self.summary;
        let word = self.bitmap[word_idx] | (1u64 << bit_idx);
        self.bitmap[word_idx] = word;
        self.summary = self.summary | (1u64 << word_idx);
        proof {
            assert forall|j: u64| j < 64 implies bit(word, j) == (j == bit_idx || bit(old_word, j)) by {
                lemma_bit_or_single(old_word, bit_idx as u64, j);
            }
            assert forall|j: u64| j < 64 implies bit(self.summary, j) == (j == word_idx || bit(old_summary, j)) by {
                lemma_bit_or_single(old_summary, word_idx as u64, j);
            }
            assert(bit(word, bit_idx as u64));
            assert(word != 0) by {
                if word == 0 {
                    lemma_bit_zero(bit_idx as u64);
                }
            }
            assert forall|p: int| 0 <= p < 4096 implies (bit(self.bitmap@[p / 64], (p % 64) as u64) <==> #[trigger] self.buckets@[p]@.len() > 0) by {
                if p / 64 == word_idx {
                    assert(bit(self.bitmap@[p / 64], (p % 64) as u64) == ((p % 64) == bit_idx || bit(old_word, (p % 64) as u64)));
                }
            }
            assert forall|w: int| 0 <= w < 64 implies (bit(self.summary, w as u64) <==> #[trigger] self.bitmap@[w] != 0) by {
                if w == word_idx {
                    assert(bit(self.summary, w as u64));
                }
            }
            assert(self.queue() =~= q0.update(priority as int, q0[priority as int].push(item)));
        }
    }

    /// Removes and returns the first item of the lowest nonempty priority, or
    /// `None` when the queue is empty.
    pub fn pop_min(&mut self) -> (r: Option<T>)
        requires
            old(self).wf(),
        ensures
            final(self).wf(),
            r is None <==> all_empty(old(self).queue()),
            r is None ==> final(self).queue() == old(self).queue(),
            r is Some ==> exists|p: int| #[trigger]
                min_priority(old(self).queue(), p) && r->0 == old(self).queue()[p][0]
                    && final(self).queue() == old(self).queue().update(
                    p,
                    old(self).queue()[p].drop_first(),
                ),
    {
        let ghost q0 = self.queue();
        // Find first non-empty word in summary
        if self.summary == 0 {
            proof {
                assert forall|j: int| 0 <= j < q0.len() implies #[trigger] q0[j].len() == 0 by {
                    lemma_bit_zero((j / 64) as u64);
                    assert(self.bitmap@[j / 64] == 0);
                    lemma_bit_zero((j % 64) as u64);
                }
            }
            return None;
        }
        let word_idx = self.summary.trailing_zeros() as usize;
        proof {
            lemma_lowest_bit(self.summary);
        }
        // Find first non-empty bucket in that word
        let word = self.bitmap[word_idx];
        let bit_idx = word.trailing_zeros() as usize;
        proof {
            lemma_lowest_bit(word);
        }
        let priority = word_idx * 64 + bit_idx;
        proof {
            assert(priority / 64 == word_idx && priority % 64 == bit_idx);
            assert(q0[priority as int].len() > 0);
            assert forall|j: int| 0 <= j < priority implies #[trigger] q0[j].len() == 0 by {
                if j / 64 < word_idx {
                    assert(!bit(self.summary, (j / 64) as u64));
                    assert(self.bitmap@[j / 64] == 0);
                    lemma_bit_zero((j % 64) as u64);
                } else {
                    assert(j / 64 == word_idx);
                    assert(j % 64 < bit_idx);
                    assert(!bit(word, (j % 64) as u64));
                }
            }
            assert(min_priority(q0, priority as int));
        }
        // Pop item from bucket
        let item = self.buckets[priority].pop_front().unwrap();
        // Update bitmap if bucket is now empty
        if self.buckets[priority].len() == 0 {
            let ghost old_summary = self.summary;
            let new_word = word & !(1u64 << bit_idx);
            self.bitmap[word_idx] = new_word;
            proof {
                assert forall|j: u64| j < 64 implies bit(new_word, j) == (j != bit_idx && bit(word, j)) by {
                    lemma_bit_and_not_single(word, bit_idx as u64, j);
                }
            }
            // Update summary if word is now empty
            if new_word == 0 {
                self.summary = self.summary & !(1u64 << word_idx);
                proof {
                    assert forall|j: u64| j < 64 implies bit(self.summary, j) == (j != word_idx && bit(old_summary, j)) by {
                        lemma_bit_and_not_single(old_summary, word_idx as u64, j);
                    }
                }
            } else {
                proof {
                    assert(bit(self.summary, word_idx as u64));
                }
            }
            proof {
                assert forall|p: int| 0 <= p < 4096 implies (bit(self.bitmap@[p / 64], (p % 64) as u64) <==> #[trigger] self.buckets@[p]@.len() > 0) by {
                    if p / 64 == word_idx {
                        assert(bit(new_word, (p % 64) as u64) == ((p % 64) != bit_idx && bit(word, (p % 64) as u64)));
                    }
                }
                assert forall|w: int| 0 <= w < 64 implies (bit(self.summary, w as u64) <==> #[trigger] self.bitmap@[w] != 0) by {
                    if w == word_idx && new_word != 0 {
                        assert(bit(self.summary, w as u64));
                    }
                }
            }
        }
        proof {
            assert(self.queue() =~= q0.update(priority as int, q0[priority as int].drop_first()));
            assert(min_priority(q0, priority as int));
        }
        Some(item)
    }
}

impl<T> Default for PriorityQueue<T> {
    fn default() -> (r: Self)
        ensures
            r.wf(),
            r.queue().len() == 4096,
            all_empty(r.queue()),
    {
        Self::new()
    }
}

} // verus!
