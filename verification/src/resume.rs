use vstd::prelude::*;
use crate::checkpoint::{
    bits_of, checkpoint_bytes, lemma_checkpoint_round_trip, parse_checkpoint, shapes_of, storable,
    CheckpointError, TensorBits,
};
use crate::optim_state::{
    lemma_optim_state_round_trip, moments_storable, optim_state_bytes, parse_optim_state,
    saved_pairs,
};
use crate::train_meta::{lemma_meta_round_trip, meta_text, parse_meta, MetaError, TrainingMeta};

verus! {

/// The number of values of each tensor, as the optimizer state records it.
pub open spec fn sizes_of(ts: Seq<TensorBits>) -> Seq<usize> {
    ts.map_values(|t: TensorBits| t.bits@.len() as usize)
}

/// Resuming training gives back what a full save wrote: the weights file read
/// against the same shapes gives every value, the optimizer-state file read
/// against the same sizes gives the step and every moment pair, and the
/// metadata gives the completed updates, the best validation loss and the
/// generator state.
pub proof fn lemma_resume_round_trip(
    ts: Seq<TensorBits>,
    step: usize,
    ms: Seq<Option<(Vec<u32>, Vec<u32>)>>,
    update: usize,
    best_loss_bits: u32,
    rng_state: u64,
)
    requires
        ts.len() <= usize::MAX,
        forall|k: int| 0 <= k < ts.len() ==> storable(#[trigger] ts[k]),
        moments_storable(sizes_of(ts), ms),
    ensures
        parse_checkpoint(checkpoint_bytes(ts), shapes_of(ts)) == Ok::<
            Seq<Seq<u32>>,
            CheckpointError,
        >(bits_of(ts)),
        optim_state_bytes(step, sizes_of(ts), ms) matches Ok(b) && parse_optim_state(
            b,
            sizes_of(ts),
        ) == Ok::<(usize, Seq<(Seq<u32>, Seq<u32>)>), CheckpointError>(
            (step, saved_pairs(sizes_of(ts), ms)),
        ),
        parse_meta(meta_text(update, best_loss_bits, rng_state)) == Ok::<TrainingMeta, MetaError>(
            TrainingMeta { update, best_loss_bits: Some(best_loss_bits), rng_state },
        ),
{
    lemma_checkpoint_round_trip(ts);
    lemma_optim_state_round_trip(step, sizes_of(ts), ms);
    lemma_meta_round_trip(update, best_loss_bits, rng_state);
}

} // verus!
