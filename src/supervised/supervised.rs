//! The capability shared by supervised algorithms.
use crate::distance::is_rectangular;
use vstd::prelude::*;

verus! {

/// `fit` was handed a different number of rows and labels.
#[derive(Debug, Clone, Copy, PartialEq, Eq)]
pub struct DimensionMismatch {
    /// The number of rows.
    pub rows: usize,
    /// The number of labels.
    pub labels: usize,
}

/// A supervised model: it learns from labelled rows and then labels rows.
pub trait Supervised: Sized {
    /// The model can label the rows `xs`.
    spec fn accepts(&self, xs: Seq<Vec<i32>>) -> bool;

    /// The labels the model gives to the rows `xs`, one per row.
    spec fn labels_for(&self, xs: Seq<Vec<i32>>) -> Seq<usize>;

    /// Learn from the rows `xs` and their labels `ys`, replacing what was
    /// learnt before. Fails, and changes nothing, when their counts differ.
    fn fit(&mut self, xs: &Vec<Vec<i32>>, ys: &Vec<usize>) -> (r: Result<(), DimensionMismatch>)
        requires
            is_rectangular(xs@),
        ensures
            r.is_err() <==> xs@.len() != ys@.len(),
            r.is_err() ==> r == Err::<(), DimensionMismatch>(
                DimensionMismatch { rows: xs@.len() as usize, labels: ys@.len() as usize },
            ),
            r.is_err() ==> *final(self) == *old(self),
    ;

    /// Label each row of `xs`; the model is not changed.
    fn predict(&self, xs: &Vec<Vec<i32>>) -> (r: Vec<usize>)
        requires
            self.accepts(xs@),
        ensures
            r@ == self.labels_for(xs@),
            r@.len() == xs@.len(),
    ;
}

} // verus!
