use clayknot::{Graph, InputOf, NodeFunction, OutputOf, TypeTag, Value};

enum Op {
    Constant(u32),
    PlusOne,
}

impl NodeFunction for Op {
    fn run(&self, inputs: &Vec<Option<Value>>, outputs: &mut Vec<OutputOf>) {
        match self {
            Op::Constant(c) => {
                outputs.first_mut().unwrap().set(Value::U32(*c)).unwrap();
            }
            Op::PlusOne => {
                let x = inputs[0].unwrap().as_u32().unwrap();
                outputs.first_mut().unwrap().set(Value::U32(x + 1)).unwrap();
            }
        }
    }
}

#[test]
fn source_node() {
    let mut g = Graph::new();

    let output_id = {
        let (_, _, outputs) = g.add_node(
            vec![],
            vec![OutputOf::new("Result", TypeTag::U32)],
            Op::Constant(42),
        );

        outputs.first().unwrap().clone()
    };

    assert!(g.get_output_value(&output_id).is_none());

    g.update().unwrap();

    assert_eq!(g.get_output_value(&output_id).unwrap().as_u32().unwrap(), 42);
}

#[test]
fn two_connected_nodes() {
    let mut g = Graph::new();

    let output_id_a = {
        let (_, _, outputs_a) = g.add_node(
            vec![],
            vec![OutputOf::new("Output A", TypeTag::U32)],
            Op::Constant(1),
        );

        outputs_a.first().unwrap().clone()
    };

    let (input_id_b, output_id_b) = {
        let (_, inputs_b, outputs_b) = g.add_node(
            vec![InputOf::new("Input B", TypeTag::U32)],
            vec![OutputOf::new("Output B", TypeTag::U32)],
            Op::PlusOne,
        );

        (
            inputs_b.first().unwrap().clone(),
            outputs_b.first().unwrap().clone(),
        )
    };

    g.connect(&input_id_b, &output_id_a).unwrap();

    g.update().unwrap();

    assert_eq!(g.get_output_value(&output_id_a).unwrap().as_u32().unwrap(), 1);

    assert_eq!(g.get_input_value(&input_id_b).unwrap().as_u32().unwrap(), 1);

    assert_eq!(g.get_output_value(&output_id_b).unwrap().as_u32().unwrap(), 2);
}
