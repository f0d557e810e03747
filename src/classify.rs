//! Recording a classified batch of blocks.
use crate::tracker::AccuracyTracker;
use vstd::prelude::*;

verus! {

/// The part of a block that the tracker reads.
pub struct Block {
    pub slot: u64,
}

/// Parallel arrays: the node, the true label and the block of each entry.
pub struct ClassifyRequest {
    pub names: Vec<String>,
    pub labels: Vec<String>,
    pub blocks: Vec<Block>,
}

/// The classifier's verdict on one block.
pub struct BlockprintClassification {
    pub best_guess_single: String,
}

/// How many entries a batch records: the arrays are zipped, and the shortest
/// one decides.
pub open spec fn batch_len(request: ClassifyRequest, classifications: Seq<BlockprintClassification>) -> nat {
    let a = if request.names@.len() <= request.labels@.len() { request.names@.len() } else { request.labels@.len() };
    let b = if request.blocks@.len() <= classifications.len() { request.blocks@.len() } else { classifications.len() };
    if a <= b { a } else { b }
}

impl AccuracyTracker {
    /// `states` runs from one tracker to another through the records of the
    /// first `states.len() - 1` entries of a batch.
    pub open spec fn records_batch(
        states: Seq<AccuracyTracker>,
        request: ClassifyRequest,
        classifications: Seq<BlockprintClassification>,
    ) -> bool {
        forall|i: int| 0 <= i < states.len() - 1 ==> (#[trigger] states[i + 1]).recorded_from(
            &states[i],
            request.names@[i]@,
            request.labels@[i]@,
            classifications[i].best_guess_single@,
            request.blocks@[i].slot,
        )
    }

    /// Records entry `i` of the batch for each `i` below the length of its
    /// shortest array, in order.
    pub fn record_classified(&mut self, request: ClassifyRequest, classifications: Vec<BlockprintClassification>)
        requires
            old(self).wf(),
            old(self).labels().len() + 2 * batch_len(request, classifications@) < u32::MAX,
        ensures
            final(self).wf(),
            exists|states: Seq<AccuracyTracker>| {
                &&& states.len() == batch_len(request, classifications@) + 1
                &&& states[0] == *old(self)
                &&& states.last() == *final(self)
                &&& Self::records_batch(states, request, classifications@)
            },
    {
        let ghost k = batch_len(request, classifications@);
        let ghost start = self.labels().len();
        let ghost mut states: Seq<AccuracyTracker> = seq![*self];
        let mut i: usize = 0;
        while i < request.names.len() && i < request.labels.len() && i < request.blocks.len() && i < classifications.len()
            invariant
                self.wf(),
                k == batch_len(request, classifications@),
                i <= k,
                self.labels().len() <= start + 2 * i,
                start + 2 * k < u32::MAX,
                states.len() == i + 1,
                states[0] == *old(self),
                states.last() == *self,
                Self::records_batch(states, request, classifications@),
            ensures
                i == k,
            decreases k - i,
        {
            let ghost before = states;
            self.record_block(
                request.names[i].clone(),
                request.labels[i].clone(),
                classifications[i].best_guess_single.clone(),
                request.blocks[i].slot,
            );
            proof {
                states = before.push(*self);
                assert forall|j: int| 0 <= j < states.len() - 1 implies (#[trigger] states[j + 1]).recorded_from(
                    &states[j],
                    request.names@[j]@,
                    request.labels@[j]@,
                    classifications@[j].best_guess_single@,
                    request.blocks@[j].slot,
                ) by {
                    if j < i {
                        assert(states[j + 1] == before[j + 1]);
                        assert(states[j] == before[j]);
                    }
                }
            }
            i = i + 1;
        }
    }
}

} // verus!
