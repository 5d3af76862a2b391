use vstd::prelude::*;

verus! {

/// Default volume cap of one batch.
pub const MAX_BATCH_VOLUME: usize = 10000;

/// Default cap on the number of article lines of one wave.
pub const MAX_WAVE_SIZE: usize = 250;

} // verus!
