//! The conventions of the supported distance functions: which of two scores
//! is the nearer one.

use vstd::prelude::*;

verus! {

/// The distance functions that the engine supports.
#[derive(Clone, Copy, Debug, PartialEq, Eq)]
pub enum DistanceFunctionEnum {
    /// Cosine similarity: the greater score is the nearer.
    Cosine,
    /// Euclidean distance: the smaller score is the nearer.
    Euclidean,
}

/// The distance function that a context is set up with.
#[derive(Clone, Copy, Debug, PartialEq, Eq)]
pub enum DistanceFunctionSelection {
    Cosine,
    Euclidean,
}

/// The nearer of two scores under a distance function.
pub open spec fn nearer(function: DistanceFunctionEnum, a: i32, b: i32) -> i32 {
    match function {
        DistanceFunctionEnum::Cosine => if a >= b {
            a
        } else {
            b
        },
        DistanceFunctionEnum::Euclidean => if a <= b {
            a
        } else {
            b
        },
    }
}

/// `at` is the first position of `scores` whose score no other score is
/// nearer than.
pub open spec fn is_nearest_at(function: DistanceFunctionEnum, scores: Seq<i32>, at: int) -> bool {
    &&& 0 <= at < scores.len()
    &&& forall|j: int| 0 <= j < scores.len() ==> nearer(function, scores[at], #[trigger] scores[j]) == scores[at]
    &&& forall|j: int| 0 <= j < at ==> #[trigger] scores[j] != scores[at]
}

/// Something that tells the nearer of two scores.
pub trait DFUtility {
    fn nearest(&self, a: i32, b: i32) -> (r: i32)
        ensures
            r == a || r == b,
    ;
}

/// Cosine similarity.
pub struct CosineDistFn;

/// Euclidean distance.
pub struct DefaultDistFn;

impl DFUtility for CosineDistFn {
    fn nearest(&self, a: i32, b: i32) -> (r: i32)
        ensures
            r == nearer(DistanceFunctionEnum::Cosine, a, b),
    {
        if a >= b {
            a
        } else {
            b
        }
    }
}

impl DFUtility for DefaultDistFn {
    fn nearest(&self, a: i32, b: i32) -> (r: i32)
        ensures
            r == nearer(DistanceFunctionEnum::Euclidean, a, b),
    {
        if a <= b {
            a
        } else {
            b
        }
    }
}

/// A distance function, chosen from the supported ones.
#[derive(Clone, Copy, Debug, PartialEq, Eq)]
pub struct DistanceFunction {
    pub function: DistanceFunctionEnum,
}

impl DFUtility for DistanceFunction {
    fn nearest(&self, a: i32, b: i32) -> (r: i32)
        ensures
            r == nearer(self.function, a, b),
    {
        match self.function {
            DistanceFunctionEnum::Cosine => if a >= b {
                a
            } else {
                b
            },
            DistanceFunctionEnum::Euclidean => if a <= b {
                a
            } else {
                b
            },
        }
    }
}

impl DistanceFunction {
    /// The distance function that was selected.
    pub fn new(selection: DistanceFunctionSelection) -> (df: Self)
        ensures
            df.function == match selection {
                DistanceFunctionSelection::Cosine => DistanceFunctionEnum::Cosine,
                DistanceFunctionSelection::Euclidean => DistanceFunctionEnum::Euclidean,
            },
    {
        match selection {
            DistanceFunctionSelection::Cosine => DistanceFunction {
                function: DistanceFunctionEnum::Cosine,
            },
            DistanceFunctionSelection::Euclidean => DistanceFunction {
                function: DistanceFunctionEnum::Euclidean,
            },
        }
    }

    /// The cluster with the nearest score, where `columns_sum` holds one
    /// score per cluster: the first of the clusters that share it.
    pub fn nearest_cluster(&self, columns_sum: &[i32]) -> (r: Option<usize>)
        ensures
            columns_sum@.len() == 0 ==> r is None,
            columns_sum@.len() > 0 ==> r is Some && is_nearest_at(
                self.function,
                columns_sum@,
                r->Some_0 as int,
            ),
    {
        if columns_sum.len() == 0 {
            return None;
        }
        let mut best: usize = 0;
        let mut i: usize = 1;
        while i < columns_sum.len()
            invariant
                1 <= i <= columns_sum.len(),
                best < i,
                forall|j: int|
                    0 <= j < i ==> nearer(self.function, columns_sum[best as int], #[trigger] columns_sum[j])
                        == columns_sum[best as int],
                forall|j: int| 0 <= j < best ==> #[trigger] columns_sum[j] != columns_sum[best as int],
            decreases columns_sum.len() - i,
        {
            let near = self.nearest(columns_sum[best], columns_sum[i]);
            if near != columns_sum[best] {
                best = i;
            }
            i += 1;
        }
        Some(best)
    }
}

} // verus!
