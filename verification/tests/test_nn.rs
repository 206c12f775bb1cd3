use combee::nn::{Layer, NeuralNetwork};

struct FlatLayer {
    dims: Vec<usize>,
}

impl Layer for FlatLayer {
    fn shape(&self) -> Vec<usize> {
        self.dims.clone()
    }
}

#[test]
fn test_network_needs_a_layer() {
    match NeuralNetwork::<FlatLayer>::new(vec![]) {
        Ok(_) => panic!("a network without layers must be refused"),
        Err(err) => assert_eq!(err.message, "Neural Network must have at least one layer!"),
    }
}

#[test]
fn test_network_shapes() {
    let nn = NeuralNetwork::new(vec![
        FlatLayer { dims: vec![3, 4] },
        FlatLayer { dims: vec![4, 2] },
    ])
    .unwrap();
    assert_eq!(nn.input_shape(), vec![3, 4]);
    assert_eq!(nn.output_shape(), vec![4, 2]);
}
