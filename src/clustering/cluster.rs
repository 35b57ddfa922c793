//! The capability shared by unsupervised algorithms.
use vstd::prelude::*;

verus! {

/// An unsupervised model: it learns from rows alone and then labels rows.
pub trait Cluster {
    /// The model can be fitted on, and can label, the rows `xs`.
    spec fn accepts(&self, xs: Seq<Vec<i32>>) -> bool;

    /// The labels the model gives to the rows `xs`, one per row.
    spec fn labels_for(&self, xs: Seq<Vec<i32>>) -> Seq<usize>;

    /// Learn from the rows `xs`, replacing what was learnt before.
    fn fit(&mut self, xs: &Vec<Vec<i32>>)
        requires
            old(self).accepts(xs@),
        ensures
            final(self).accepts(xs@),
    ;

    /// Label each row of `xs`; the model is not changed.
    fn predict(&self, xs: &Vec<Vec<i32>>) -> (r: Vec<usize>)
        requires
            self.accepts(xs@),
        ensures
            r@ == self.labels_for(xs@),
            r@.len() == xs@.len(),
    ;
}

} // verus!
