//! A stack of layers with a transition layer between each adjacent pair.

use vstd::prelude::*;

verus! {

/// Layers and the transitions between them: transition `i` sits between
/// layers `i` and `i + 1`.
#[derive(Clone)]
pub struct LayersWithTransitions<L, T> {
    pub layers: Vec<L>,
    pub transitions: Vec<T>,
}

impl<L, T> LayersWithTransitions<L, T> {
    /// The number of transitions is one less than the number of layers, or
    /// zero when there are no layers.
    pub open spec fn wf(&self) -> bool {
        self.transitions@.len() == if self.layers@.len() == 0 {
            0
        } else {
            self.layers@.len() - 1
        }
    }

    pub fn new(layers: Vec<L>, transitions: Vec<T>) -> (res: Self)
        requires
            transitions@.len() == if layers@.len() == 0 {
                0
            } else {
                layers@.len() - 1
            },
        ensures
            res.layers == layers,
            res.transitions == transitions,
            res.wf(),
    {
        Self { layers, transitions }
    }

    pub fn layers(&self) -> (res: &[L])
        ensures
            res@ == self.layers@,
    {
        self.layers.as_slice()
    }

    pub fn transitions(&self) -> (res: &[T])
        ensures
            res@ == self.transitions@,
    {
        self.transitions.as_slice()
    }

    pub fn layer(&self, index: usize) -> (res: Option<&L>)
        ensures
            match res {
                Some(l) => index < self.layers@.len() && *l == self.layers@[index as int],
                None => index >= self.layers@.len(),
            },
    {
        if index < self.layers.len() {
            Some(&self.layers[index])
        } else {
            None
        }
    }

    pub fn transition(&self, index: usize) -> (res: Option<&T>)
        ensures
            match res {
                Some(t) => index < self.transitions@.len() && *t == self.transitions@[index as int],
                None => index >= self.transitions@.len(),
            },
    {
        if index < self.transitions.len() {
            Some(&self.transitions[index])
        } else {
            None
        }
    }
}

} // verus!
