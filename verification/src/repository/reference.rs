//! The reference vectors that transactions are compared with.

use vstd::prelude::*;

use crate::repository::ivf::{is_settled, load_error, Adaptive, IvfIndex, LoadError};
use crate::repository::short::{labels_in, Labels};

verus! {

pub struct ReferenceRepository {
    pub ivf: IvfIndex,
}

impl ReferenceRepository {
    /// Reads the reference vectors from the bytes of their file.
    pub fn from_file(data: &[u8], nprobe_fast: usize, nprobe_slow: usize) -> (r: Result<
        ReferenceRepository,
        LoadError,
    >)
        ensures
            match r {
                Ok(repository) => {
                    &&& load_error(data@) is None
                    &&& repository.ivf.decodes(data@)
                    &&& repository.ivf.nprobe_fast == nprobe_fast
                    &&& repository.ivf.nprobe_slow == nprobe_slow
                },
                Err(e) => load_error(data@) == Some(e),
            },
    {
        match IvfIndex::load(data, nprobe_fast, nprobe_slow) {
            Ok(ivf) => Ok(ReferenceRepository { ivf }),
            Err(e) => Err(e),
        }
    }

    /// What is to be done after a first look that found `stage1`.
    pub fn knn_adaptive(&self, stage1: Labels, k: usize) -> (r: Adaptive)
        ensures
            is_settled(labels_in(stage1), k as int) ==> r == Adaptive::Settled(stage1),
            !is_settled(labels_in(stage1), k as int) ==> r == Adaptive::Repeat(
                self.ivf.nprobe_slow,
            ),
    {
        self.ivf.knn_adaptive(stage1, k)
    }
}

} // verus!
