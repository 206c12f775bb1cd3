use vstd::prelude::*;
use vstd::string::StringExecFns;
use crate::errors::Error;

verus! {

/// Basic layer trait: a layer reports its shape, the sizes of its
/// dimensions.  The trait places no contract on `shape`, so any host code
/// can implement it; callers learn a result only as "something this layer's
/// `shape` can return".
pub trait Layer {
    /// Return the shape of this layer.
    fn shape(&self) -> Vec<usize>;
}

/// An ordered stack of layers; a neural network has at least one layer.
pub struct NeuralNetwork<L: Layer> {
    layers: Vec<L>,
}

impl<L: Layer> NeuralNetwork<L> {
    /// The layers of the network, in order.
    pub closed spec fn spec_layers(&self) -> Seq<L> {
        self.layers@
    }

    /// A well-formed network holds at least one layer.
    pub open spec fn wf(&self) -> bool {
        self.spec_layers().len() >= 1
    }

    /// Create a new neural network from a vector of layers; a network
    /// without layers is refused with an error saying so.
    pub fn new(layers: Vec<L>) -> (r: Result<Self, Error>)
        ensures
            match r {
                Ok(nn) => layers@.len() >= 1 && nn.wf() && nn.spec_layers() == layers@,
                Err(e) => layers@.len() == 0 && e.message@
                    == "Neural Network must have at least one layer!"@,
            },
    {
        if layers.len() == 0 {
            Err(
                Error {
                    message: String::from_str("Neural Network must have at least one layer!"),
                },
            )
        } else {
            Ok(NeuralNetwork { layers })
        }
    }

    /// Returns the input shape of this neural network: a shape reported by
    /// its first layer.
    pub fn input_shape(&self) -> (r: Vec<usize>)
        requires
            self.wf(),
        ensures
            call_ensures(L::shape, (&self.spec_layers()[0],), r),
    {
        self.layers[0].shape()
    }

    /// Returns the output shape of this neural network: a shape reported by
    /// its last layer.
    pub fn output_shape(&self) -> (r: Vec<usize>)
        requires
            self.wf(),
        ensures
            call_ensures(L::shape, (&self.spec_layers().last(),), r),
    {
        self.layers[self.layers.len() - 1].shape()
    }
}

} // verus!
